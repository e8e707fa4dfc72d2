use gpu_scan::template::{make_shader_src, resolve_placeholders, Bindings, TemplateError, B, N};
use gpu_scan::text::{chars_of, decimal_string};

const KERNEL: &str = "#version 460
#define N -1337
#define B -1337
// one element per invocation
layout(local_size_x = 1) in;
void main() {
}
";

fn bindings(pairs: &[(&str, usize)]) -> Bindings {
    let mut b = Bindings::new();
    for (name, value) in pairs {
        b.bind(name, *value);
    }
    b
}

#[test]
fn specialisation_resolves_every_placeholder() {
    let out = make_shader_src(KERNEL, &bindings(&[(N, 131_072), (B, 128)]));
    let out = match out {
        Ok(t) => t,
        Err(_) => panic!("specialisation failed"),
    };
    assert!(out.contains("#define N 131072\n"));
    assert!(out.contains("#define B 128\n"));
    assert!(!out.contains("-1337"));
    assert!(!out.contains("one element per invocation"));
}

#[test]
fn specialisation_is_repeatable() {
    let b = bindings(&[(N, 2048), (B, 2)]);
    let first = match make_shader_src(KERNEL, &b) {
        Ok(t) => t,
        Err(_) => panic!("specialisation failed"),
    };
    let second = match make_shader_src(KERNEL, &b) {
        Ok(t) => t,
        Err(_) => panic!("specialisation failed"),
    };
    assert_eq!(first, second);
    match resolve_placeholders(&first, &Bindings::new()) {
        Ok(t) => assert_eq!(t, first),
        Err(_) => panic!("a resolved text resolves again"),
    }
}

#[test]
fn unbound_placeholder_is_reported() {
    match make_shader_src(KERNEL, &bindings(&[(N, 4)])) {
        Err(TemplateError::Unbound(name)) => assert_eq!(name, "B"),
        _ => panic!("expected an unbound placeholder"),
    }
}

#[test]
fn unparsable_source_is_reported() {
    match make_shader_src("this is not a kernel {", &Bindings::new()) {
        Err(TemplateError::Parse(_)) => {}
        _ => panic!("expected a parse error"),
    }
}

#[test]
fn only_exact_placeholder_defines_are_resolved() {
    let text = "#define N -1337\nint x;\n#define  M -1337\n#define F(a) -1337\n#define K 3";
    match resolve_placeholders(text, &bindings(&[(N, 5)])) {
        Ok(t) => assert_eq!(t, "#define N 5\nint x;\n#define  M -1337\n#define F(a) -1337\n#define K 3"),
        Err(_) => panic!("nothing unbound"),
    }
}

#[test]
fn first_unbound_name_in_source_order() {
    let text = "#define X -1337\n#define Y -1337\n";
    match resolve_placeholders(text, &Bindings::new()) {
        Err(TemplateError::Unbound(name)) => assert_eq!(name, "X"),
        _ => panic!("expected an unbound placeholder"),
    }
}

#[test]
fn later_binding_overrides_earlier() {
    let b = bindings(&[("CHUNK_ROWS", 4), ("CHUNK_ROWS", 8), ("MAX_ITERS", 100)]);
    assert_eq!(b.lookup(&"CHUNK_ROWS".to_string()), Some(8));
    assert_eq!(b.lookup(&"MAX_ITERS".to_string()), Some(100));
    assert_eq!(b.lookup(&"THREADS".to_string()), None);
    match resolve_placeholders("#define CHUNK_ROWS -1337\n", &b) {
        Ok(t) => assert_eq!(t, "#define CHUNK_ROWS 8\n"),
        Err(_) => panic!("bound"),
    }
}

#[test]
fn empty_text_resolves_to_empty() {
    match resolve_placeholders("", &Bindings::new()) {
        Ok(t) => assert_eq!(t, ""),
        Err(_) => panic!("nothing to resolve"),
    }
}

#[test]
fn decimal_notation() {
    assert_eq!(decimal_string(0), "0");
    assert_eq!(decimal_string(10), "10");
    assert_eq!(decimal_string(usize::MAX), usize::MAX.to_string());
    assert_eq!(chars_of("aé\n"), vec!['a', 'é', '\n']);
}

#[test]
fn oversized_version_number_is_refused() {
    match make_shader_src("#version 70000\nvoid main() {\n}\n", &Bindings::new()) {
        Err(TemplateError::Parse(_)) => {}
        _ => panic!("expected a parse error"),
    }
    match make_shader_src("#version 65535\nvoid main() {\n}\n", &Bindings::new()) {
        Ok(t) => assert!(t.contains("#version 65535")),
        Err(_) => panic!("a 16-bit version number is accepted"),
    }
}

#[test]
fn negated_smallest_literal_is_refused() {
    match make_shader_src("#line -2147483648\nvoid main() {\n}\n", &Bindings::new()) {
        Err(TemplateError::Parse(_)) => {}
        _ => panic!("expected a parse error"),
    }
    match make_shader_src("#define N -0x80000000\nvoid main() {\n}\n", &Bindings::new()) {
        Err(TemplateError::Parse(_)) => {}
        _ => panic!("expected a parse error"),
    }
}
