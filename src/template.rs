//! Kernel template specialisation: object-like `#define NAME -1337` lines
//! carry the reserved "unbound" value and are given concrete values from a
//! table of bindings.

use vstd::prelude::*;
use glsl::parser::Parse;
use crate::text::{chars_of, decimal, decimal_string, lemma_decimal_digits, push_char};

verus! {

broadcast use vstd::string::group_string_axioms;

/// Placeholder names that the kernels of this crate use.
pub const N: &'static str = "N";
pub const B: &'static str = "B";
pub const DATA_LEN: &'static str = "DATA_LEN";
pub const WORK_GROUPS: &'static str = "WORK_GROUPS";
pub const CHUNK_SIZE: &'static str = "CHUNK_SIZE";
pub const CHUNK_ROWS: &'static str = "CHUNK_ROWS";
pub const CHUNK_COLS: &'static str = "CHUNK_COLS";
pub const CHUNK_X: &'static str = "CHUNK_X";
pub const CHUNK_Y: &'static str = "CHUNK_Y";
pub const CHUNK_Z: &'static str = "CHUNK_Z";

/// Characters that may form a placeholder name.
pub open spec fn is_ident_char(c: char) -> bool {
    ('a' <= c && c <= 'z') || ('A' <= c && c <= 'Z') || ('0' <= c && c <= '9') || c == '_'
}

/// `#define ` as it opens a rendered object-like define.
pub open spec fn define_head() -> Seq<char> {
    seq!['#', 'd', 'e', 'f', 'i', 'n', 'e', ' ']
}

/// A space followed by the reserved value `-1337` that marks a placeholder as unbound.
pub open spec fn sentinel_tail() -> Seq<char> {
    seq![' ', '-', '1', '3', '3', '7']
}

/// The placeholder name declared by `line`, if `line` is exactly
/// `#define NAME -1337` with a non-empty name.
pub open spec fn sentinel_define_name(line: Seq<char>) -> Option<Seq<char>> {
    if line.len() > 14 && line.take(8) == define_head() && line.skip(line.len() - 6)
        == sentinel_tail() && (forall|k: int|
        8 <= k < line.len() - 6 ==> #[trigger] is_ident_char(line[k])) {
        Some(line.subrange(8, line.len() - 6))
    } else {
        None
    }
}

/// The value bound to `name`: the latest binding of that name wins.
pub open spec fn lookup_last(entries: Seq<(Seq<char>, usize)>, name: Seq<char>) -> Option<usize>
    decreases entries.len(),
{
    if entries.len() == 0 {
        None
    } else if entries.last().0 == name {
        Some(entries.last().1)
    } else {
        lookup_last(entries.drop_last(), name)
    }
}

/// One line after resolution, or the unbound name it refers to.
pub open spec fn resolve_line(line: Seq<char>, entries: Seq<(Seq<char>, usize)>) -> Result<
    Seq<char>,
    Seq<char>,
> {
    match sentinel_define_name(line) {
        None => Ok(line),
        Some(name) => match lookup_last(entries, name) {
            None => Err(name),
            Some(v) => Ok(define_head() + name + seq![' '] + decimal(v as nat)),
        },
    }
}

/// The lines of `s`, split at each `\n` (which belongs to no line).
pub open spec fn split_lines(s: Seq<char>) -> Seq<Seq<char>>
    decreases s.len(),
{
    if s.len() == 0 {
        seq![Seq::<char>::empty()]
    } else {
        let prev = split_lines(s.drop_last());
        if s.last() == '\n' {
            prev.push(Seq::<char>::empty())
        } else {
            prev.drop_last().push(prev.last().push(s.last()))
        }
    }
}

/// `ls` joined with `\n` between consecutive lines.
pub open spec fn join_lines(ls: Seq<Seq<char>>) -> Seq<char>
    decreases ls.len(),
{
    if ls.len() == 0 {
        Seq::<char>::empty()
    } else if ls.len() == 1 {
        ls[0]
    } else {
        join_lines(ls.drop_last()) + seq!['\n'] + ls.last()
    }
}

/// Each line of `ls` followed by `\n`.
pub open spec fn join_terminated(ls: Seq<Seq<char>>) -> Seq<char>
    decreases ls.len(),
{
    if ls.len() == 0 {
        Seq::<char>::empty()
    } else {
        join_terminated(ls.drop_last()) + ls.last() + seq!['\n']
    }
}

/// All lines resolved, or the first unbound name met, in source order.
pub open spec fn resolve_lines(ls: Seq<Seq<char>>, entries: Seq<(Seq<char>, usize)>) -> Result<
    Seq<Seq<char>>,
    Seq<char>,
>
    decreases ls.len(),
{
    if ls.len() == 0 {
        Ok(Seq::<Seq<char>>::empty())
    } else {
        match resolve_lines(ls.drop_last(), entries) {
            Err(e) => Err(e),
            Ok(r) => match resolve_line(ls.last(), entries) {
                Err(e) => Err(e),
                Ok(l) => Ok(r.push(l)),
            },
        }
    }
}

/// Text `s` with every unbound placeholder define given its bound value, or
/// the first placeholder name that has no binding.
pub open spec fn resolve(s: Seq<char>, entries: Seq<(Seq<char>, usize)>) -> Result<
    Seq<char>,
    Seq<char>,
> {
    match resolve_lines(split_lines(s), entries) {
        Ok(ls) => Ok(join_lines(ls)),
        Err(e) => Err(e),
    }
}

/// `l` holds no line break.
pub open spec fn no_newline(l: Seq<char>) -> bool {
    forall|j: int| 0 <= j < l.len() ==> #[trigger] l[j] != '\n'
}

/// `l` holds no minus sign.
pub open spec fn no_dash(l: Seq<char>) -> bool {
    forall|j: int| 0 <= j < l.len() ==> #[trigger] l[j] != '-'
}

proof fn lemma_split_lines_plain(s: Seq<char>)
    ensures
        forall|k: int| 0 <= k < split_lines(s).len() ==> no_newline(#[trigger] split_lines(s)[k]),
    decreases s.len(),
{
    if s.len() > 0 {
        lemma_split_lines_plain(s.drop_last());
        lemma_split_nonempty(s.drop_last());
    }
}

/// Appending text without a line break extends the last line.
proof fn lemma_split_append(a: Seq<char>, b: Seq<char>)
    requires
        no_newline(b),
    ensures
        split_lines(a + b) == split_lines(a).drop_last().push(split_lines(a).last() + b),
    decreases b.len(),
{
    lemma_split_nonempty(a);
    if b.len() == 0 {
        assert(a + b =~= a);
        assert(split_lines(a).last() + b =~= split_lines(a).last());
        assert(split_lines(a).drop_last().push(split_lines(a).last()) =~= split_lines(a));
    } else {
        lemma_split_append(a, b.drop_last());
        assert((a + b).drop_last() =~= a + b.drop_last());
        assert((a + b).last() == b.last());
        assert(split_lines(a).last() + b.drop_last() + seq![b.last()] =~= split_lines(a).last()
            + b);
        assert(split_lines(a).drop_last().push(split_lines(a).last() + b.drop_last()).drop_last()
            =~= split_lines(a).drop_last());
        assert((split_lines(a).last() + b.drop_last()).push(b.last()) =~= split_lines(a).last()
            + b);
    }
}

/// Splitting undoes joining lines that hold no line break.
proof fn lemma_split_join(ls: Seq<Seq<char>>)
    requires
        ls.len() >= 1,
        forall|k: int| 0 <= k < ls.len() ==> no_newline(#[trigger] ls[k]),
    ensures
        split_lines(join_lines(ls)) == ls,
    decreases ls.len(),
{
    if ls.len() == 1 {
        lemma_split_append(Seq::<char>::empty(), ls[0]);
        assert(Seq::<char>::empty() + ls[0] =~= ls[0]);
        assert(split_lines(Seq::<char>::empty()) =~= seq![Seq::<char>::empty()]);
        assert(seq![Seq::<char>::empty()].drop_last().push(Seq::<char>::empty() + ls[0]) =~= ls);
    } else {
        let x = join_lines(ls.drop_last());
        lemma_split_join(ls.drop_last());
        let xn = x + seq!['\n'];
        assert(xn.drop_last() =~= x);
        lemma_split_append(xn, ls.last());
        assert(split_lines(xn) == split_lines(x).push(Seq::<char>::empty()));
        assert(Seq::<char>::empty() + ls.last() =~= ls.last());
        assert(split_lines(x).push(Seq::<char>::empty()).drop_last() =~= split_lines(x));
        assert(ls.drop_last().push(ls.last()) =~= ls);
    }
}

proof fn lemma_resolve_lines_each(ls: Seq<Seq<char>>, entries: Seq<(Seq<char>, usize)>)
    requires
        resolve_lines(ls, entries) is Ok,
    ensures
        resolve_lines(ls, entries)->Ok_0.len() == ls.len(),
        forall|k: int|
            0 <= k < ls.len() ==> resolve_line(#[trigger] ls[k], entries) == Ok::<
                Seq<char>,
                Seq<char>,
            >(resolve_lines(ls, entries)->Ok_0[k]),
    decreases ls.len(),
{
    if ls.len() > 0 {
        lemma_resolve_lines_each(ls.drop_last(), entries);
        let res = resolve_lines(ls, entries)->Ok_0;
        let prev = resolve_lines(ls.drop_last(), entries)->Ok_0;
        assert forall|k: int| 0 <= k < ls.len() implies resolve_line(#[trigger] ls[k], entries)
            == Ok::<Seq<char>, Seq<char>>(res[k]) by {
            if k < ls.len() - 1 {
                assert(ls.drop_last()[k] == ls[k]);
                assert(res[k] == prev[k]);
            }
        }
    }
}

proof fn lemma_resolve_lines_fixed(ls: Seq<Seq<char>>, entries: Seq<(Seq<char>, usize)>)
    requires
        forall|k: int| 0 <= k < ls.len() ==> sentinel_define_name(#[trigger] ls[k]) is None,
    ensures
        resolve_lines(ls, entries) == Ok::<Seq<Seq<char>>, Seq<char>>(ls),
    decreases ls.len(),
{
    if ls.len() > 0 {
        assert forall|k: int| 0 <= k < ls.len() - 1 implies sentinel_define_name(
            #[trigger] ls.drop_last()[k],
        ) is None by {
            assert(ls.drop_last()[k] == ls[k]);
        }
        lemma_resolve_lines_fixed(ls.drop_last(), entries);
        assert(sentinel_define_name(ls[ls.len() - 1]) is None);
        assert(resolve_line(ls.last(), entries) == Ok::<Seq<char>, Seq<char>>(ls.last()));
        assert(ls.drop_last().push(ls.last()) =~= ls);
    } else {
        assert(ls =~= Seq::<Seq<char>>::empty());
    }
}

/// A line that resolution produced holds no line break and declares no
/// unbound placeholder.
proof fn lemma_resolved_line(line: Seq<char>, entries: Seq<(Seq<char>, usize)>)
    requires
        no_newline(line),
        resolve_line(line, entries) is Ok,
    ensures
        no_newline(resolve_line(line, entries)->Ok_0),
        sentinel_define_name(resolve_line(line, entries)->Ok_0) is None,
{
    if let Some(name) = sentinel_define_name(line) {
        let v = lookup_last(entries, name)->0;
        let out = define_head() + name + seq![' '] + decimal(v as nat);
        lemma_decimal_digits(v as nat);
        assert forall|j: int| 0 <= j < out.len() implies #[trigger] out[j] != '\n' && out[j]
            != '-' by {
            if j >= 8 && j < 8 + name.len() {
                assert(name[j - 8] == line[j]);
                assert(is_ident_char(line[j]));
            } else if j >= 9 + name.len() {
                assert(out[j] == decimal(v as nat)[j - 9 - name.len()]);
            }
        }
        assert(out[out.len() - 5] != '-');
        assert(out.skip(out.len() - 6)[1] != sentinel_tail()[1]);
    }
}

/// Resolution is idempotent: a resolved text declares no unbound
/// placeholder, so resolving it again, with any bindings, gives it back
/// unchanged.
pub proof fn lemma_resolve_idempotent(
    s: Seq<char>,
    entries: Seq<(Seq<char>, usize)>,
    again: Seq<(Seq<char>, usize)>,
)
    requires
        resolve(s, entries) is Ok,
    ensures
        resolve(resolve(s, entries)->Ok_0, again) == resolve(s, entries),
{
    let ls = split_lines(s);
    let rls = resolve_lines(ls, entries)->Ok_0;
    lemma_split_nonempty(s);
    lemma_split_lines_plain(s);
    lemma_resolve_lines_each(ls, entries);
    assert forall|k: int| 0 <= k < rls.len() implies no_newline(#[trigger] rls[k])
        && sentinel_define_name(rls[k]) is None by {
        lemma_resolved_line(ls[k], entries);
    }
    lemma_split_join(rls);
    lemma_resolve_lines_fixed(rls, again);
}

/// Why a kernel template could not be specialised.
pub enum TemplateError {
    /// The source is not accepted by the GLSL parser, with its explanation.
    Parse(String),
    /// A placeholder is referenced that no binding names.
    Unbound(String),
}

/// `r` reports the outcome `spec` of resolving a text.
pub open spec fn reports(r: Result<String, TemplateError>, spec: Result<Seq<char>, Seq<char>>) -> bool {
    match spec {
        Ok(t) => r matches Ok(o) && o@ == t,
        Err(n) => r matches Err(TemplateError::Unbound(m)) && m@ == n,
    }
}

proof fn lemma_split_prefix(s: Seq<char>, i: int, j: int)
    requires
        0 <= i <= j <= s.len(),
    ensures
        split_lines(s.take(i)).len() <= split_lines(s.take(j)).len(),
        split_lines(s.take(j)).take(split_lines(s.take(i)).len() - 1) == split_lines(
            s.take(i),
        ).drop_last(),
    decreases j - i,
{
    lemma_split_nonempty(s.take(i));
    if i == j {
        assert(split_lines(s.take(j)).take(split_lines(s.take(i)).len() - 1) =~= split_lines(
            s.take(i),
        ).drop_last());
    } else {
        lemma_split_prefix(s, i, j - 1);
        let prev = split_lines(s.take(j - 1));
        let m = split_lines(s.take(i)).len() - 1;
        assert(s.take(j).drop_last() =~= s.take(j - 1));
        lemma_split_nonempty(s.take(j - 1));
        assert(split_lines(s.take(j)).take(m) =~= prev.take(m));
    }
}

proof fn lemma_split_nonempty(s: Seq<char>)
    ensures
        split_lines(s).len() >= 1,
    decreases s.len(),
{
    if s.len() > 0 {
        lemma_split_nonempty(s.drop_last());
    }
}

proof fn lemma_resolve_error_prefix(ls: Seq<Seq<char>>, m: int, entries: Seq<(Seq<char>, usize)>)
    requires
        0 <= m <= ls.len(),
        resolve_lines(ls.take(m), entries) is Err,
    ensures
        resolve_lines(ls, entries) == resolve_lines(ls.take(m), entries),
    decreases ls.len() - m,
{
    if m == ls.len() {
        assert(ls.take(m) =~= ls);
    } else {
        assert(ls.drop_last().take(m) =~= ls.take(m));
        lemma_resolve_error_prefix(ls.drop_last(), m, entries);
    }
}

proof fn lemma_join_last(ls: Seq<Seq<char>>, l: Seq<char>)
    ensures
        join_lines(ls.push(l)) == join_terminated(ls) + l,
    decreases ls.len(),
{
    assert(ls.push(l).drop_last() =~= ls);
    if ls.len() == 0 {
        assert(join_terminated(ls) + l =~= l);
    } else {
        lemma_join_last(ls.drop_last(), ls.last());
        assert(ls.drop_last().push(ls.last()) =~= ls);
        assert(join_lines(ls.push(l)) =~= join_terminated(ls) + l);
    }
}

fn ident_char(c: char) -> (r: bool)
    ensures
        r == is_ident_char(c),
{
    ('a' <= c && c <= 'z') || ('A' <= c && c <= 'Z') || ('0' <= c && c <= '9') || c == '_'
}

/// Whether `cs[a..b)` is an unbound placeholder define.
fn is_sentinel_define(cs: &Vec<char>, a: usize, b: usize) -> (r: bool)
    requires
        a <= b <= cs.len(),
    ensures
        r == (sentinel_define_name(cs@.subrange(a as int, b as int)) is Some),
{
    let ghost line = cs@.subrange(a as int, b as int);
    if b - a <= 14 {
        return false;
    }
    let head = cs[a] == '#' && cs[a + 1] == 'd' && cs[a + 2] == 'e' && cs[a + 3] == 'f' && cs[a
        + 4] == 'i' && cs[a + 5] == 'n' && cs[a + 6] == 'e' && cs[a + 7] == ' ';
    assert(head == (line.take(8) =~= define_head()));
    let tail = cs[b - 6] == ' ' && cs[b - 5] == '-' && cs[b - 4] == '1' && cs[b - 3] == '3'
        && cs[b - 2] == '3' && cs[b - 1] == '7';
    assert(tail == (line.skip(line.len() - 6) =~= sentinel_tail()));
    if !head || !tail {
        return false;
    }
    let mut k = a + 8;
    while k < b - 6
        invariant
            a + 8 <= k <= b - 6,
            b <= cs.len(),
            line == cs@.subrange(a as int, b as int),
            forall|j: int| 8 <= j < k - a ==> #[trigger] is_ident_char(line[j]),
        decreases b - 6 - k,
    {
        if !ident_char(cs[k]) {
            assert(!is_ident_char(line[k - a]));
            return false;
        }
        k = k + 1;
    }
    true
}

/// Appends the resolution of the line `cs[a..b)` to `out`.
fn emit_line(cs: &Vec<char>, a: usize, b: usize, bindings: &Bindings, out: &mut String) -> (r:
    Result<(), String>)
    requires
        a <= b <= cs.len(),
    ensures
        match resolve_line(cs@.subrange(a as int, b as int), bindings@) {
            Ok(l) => r is Ok && final(out)@ == old(out)@ + l,
            Err(n) => r matches Err(m) && m@ == n,
        },
{
    let ghost line = cs@.subrange(a as int, b as int);
    if !is_sentinel_define(cs, a, b) {
        let mut k = a;
        while k < b
            invariant
                a <= k <= b <= cs.len(),
                out@ == old(out)@ + cs@.subrange(a as int, k as int),
            decreases b - k,
        {
            push_char(out, cs[k]);
            assert(cs@.subrange(a as int, k + 1) =~= cs@.subrange(a as int, k as int).push(cs@[k as int]));
            k = k + 1;
        }
        return Ok(());
    }
    let mut name = String::new();
    let mut k = a + 8;
    while k < b - 6
        invariant
            a + 8 <= k <= b - 6,
            b <= cs.len(),
            name@ == cs@.subrange(a + 8, k as int),
        decreases b - 6 - k,
    {
        push_char(&mut name, cs[k]);
        assert(cs@.subrange(a + 8, k + 1) =~= cs@.subrange(a + 8, k as int).push(cs@[k as int]));
        k = k + 1;
    }
    assert(name@ =~= line.subrange(8, line.len() - 6));
    match bindings.lookup(&name) {
        None => Err(name),
        Some(v) => {
            let mut k = a;
            while k < a + 8
                invariant
                    a <= k <= a + 8,
                    a + 8 <= b <= cs.len(),
                    out@ == old(out)@ + cs@.subrange(a as int, k as int),
                decreases a + 8 - k,
            {
                push_char(out, cs[k]);
                assert(cs@.subrange(a as int, k + 1) =~= cs@.subrange(a as int, k as int).push(cs@[k as int]));
                k = k + 1;
            }
            assert(cs@.subrange(a as int, a + 8) =~= define_head());
            out.append(name.as_str());
            push_char(out, ' ');
            let d = decimal_string(v);
            out.append(d.as_str());
            assert(out@ =~= old(out)@ + (define_head() + name@ + seq![' '] + decimal(v as nat)));
            Ok(())
        },
    }
}

/// Gives every unbound placeholder define of `text` (a line that reads
/// exactly `#define NAME -1337`) the value bound to its name; fails with the
/// first name, in source order, that has no binding.
pub fn resolve_placeholders(text: &str, bindings: &Bindings) -> (r: Result<String, TemplateError>)
    ensures
        reports(r, resolve(text@, bindings@)),
{
    let cs = chars_of(text);
    let mut out = String::new();
    let mut line_start: usize = 0;
    let mut i: usize = 0;
    let ghost mut done: Seq<Seq<char>> = Seq::empty();
    let ghost mut rdone: Seq<Seq<char>> = Seq::empty();
    assert(cs@.take(0) =~= Seq::<char>::empty());
    assert(done.push(cs@.subrange(0, 0)) =~= seq![Seq::<char>::empty()]);
    while i < cs.len()
        invariant
            line_start <= i <= cs.len(),
            cs@ == text@,
            split_lines(cs@.take(i as int)) == done.push(cs@.subrange(line_start as int, i as int)),
            resolve_lines(done, bindings@) == Ok::<Seq<Seq<char>>, Seq<char>>(rdone),
            out@ == join_terminated(rdone),
        decreases cs.len() - i,
    {
        let ghost line = cs@.subrange(line_start as int, i as int);
        assert(cs@.take(i + 1).drop_last() =~= cs@.take(i as int));
        if cs[i] == '\n' {
            let ghost before = out@;
            let res = emit_line(&cs, line_start, i, bindings, &mut out);
            assert(done.push(line).drop_last() =~= done);
            match res {
                Err(name) => {
                    proof {
                        lemma_split_prefix(cs@, i + 1, cs@.len() as int);
                        assert(cs@.take(cs@.len() as int) =~= text@);
                        assert(split_lines(cs@.take(i + 1)).drop_last() =~= done.push(line));
                        lemma_resolve_error_prefix(split_lines(text@), done.len() + 1 as int, bindings@);
                    }
                    return Err(TemplateError::Unbound(name));
                },
                Ok(()) => {},
            }
            push_char(&mut out, '\n');
            proof {
                let l = resolve_line(line, bindings@)->Ok_0;
                assert(rdone.push(l).drop_last() =~= rdone);
                assert(out@ =~= join_terminated(rdone.push(l)));
                done = done.push(line);
                rdone = rdone.push(l);
                assert(cs@.subrange(i + 1, i + 1) =~= Seq::<char>::empty());
            }
            line_start = i + 1;
        } else {
            assert(cs@.subrange(line_start as int, i + 1) =~= line.push(cs@[i as int]));
            assert(done.push(line).drop_last() =~= done);
            assert(done.push(line).drop_last().push(line.push(cs@[i as int])) =~= done.push(
                cs@.subrange(line_start as int, i + 1),
            ));
        }
        i = i + 1;
    }
    let ghost line = cs@.subrange(line_start as int, i as int);
    assert(cs@.take(i as int) =~= text@);
    let res = emit_line(&cs, line_start, i, bindings, &mut out);
    assert(done.push(line).drop_last() =~= done);
    match res {
        Err(name) => Err(TemplateError::Unbound(name)),
        Ok(()) => {
            proof {
                lemma_join_last(rdone, resolve_line(line, bindings@)->Ok_0);
            }
            Ok(out)
        },
    }
}

/// An ASCII decimal digit.
pub open spec fn is_digit(c: char) -> bool {
    '0' <= c && c <= '9'
}

/// Value of the digit `c`.
pub open spec fn digit_value(c: char) -> int {
    (c as u32) as int - 48
}

/// Characters that may stand between a directive's keyword and its number
/// (blanks and line continuations), and a few more.
pub open spec fn is_gap(c: char) -> bool {
    c == ' ' || c == '\t' || c == '\\' || c == '\n' || c == '\r'
}

/// First index from `j` that does not hold a gap character.
pub open spec fn skip_gaps(s: Seq<char>, j: int) -> int
    decreases s.len() - j,
{
    if j < 0 || j >= s.len() || !is_gap(s[j]) {
        j
    } else {
        skip_gaps(s, j + 1)
    }
}

/// End of the run of digits that starts at `j`.
pub open spec fn run_end(s: Seq<char>, j: int) -> int
    decreases s.len() - j,
{
    if j < 0 || j >= s.len() || !is_digit(s[j]) {
        j
    } else {
        run_end(s, j + 1)
    }
}

/// The number written by the digits `s[j..k)`.
pub open spec fn digits_value(s: Seq<char>, j: int, k: int) -> int
    decreases k - j,
{
    if k <= j {
        0
    } else {
        10 * digits_value(s, j, k - 1) + digit_value(s[k - 1])
    }
}

/// The word `version`.
pub open spec fn version_word() -> Seq<char> {
    seq!['v', 'e', 'r', 's', 'i', 'o', 'n']
}

/// At `i` stands `version` followed, past gap characters, by a number that
/// does not fit in 16 bits, which glsl's `#version` parser does not survive.
pub open spec fn oversized_version_at(s: Seq<char>, i: int) -> bool {
    0 <= i && i + 7 <= s.len() && s.subrange(i, i + 7) == version_word() && ({
        let j = skip_gaps(s, i + 7);
        digits_value(s, j, run_end(s, j)) > 65535
    })
}

/// At `i` stands a minus sign directly before ten digits or before `0x`,
/// where glsl's integer literal parser may negate the smallest `i32`.
pub open spec fn risky_negation_at(s: Seq<char>, i: int) -> bool {
    0 <= i < s.len() && s[i] == '-' && ((i + 10 < s.len() && forall|t: int|
        1 <= t <= 10 ==> #[trigger] is_digit(s[i + t])) || (i + 2 < s.len() && s[i + 1] == '0'
        && (s[i + 2] == 'x' || s[i + 2] == 'X')))
}

/// `s` holds neither of the two forms on which glsl's parser panics.
pub open spec fn within_parser_limits(s: Seq<char>) -> bool {
    forall|i: int| 0 <= i < s.len() ==> !#[trigger] oversized_version_at(s, i) && !risky_negation_at(s, i)
}

proof fn lemma_run_end(s: Seq<char>, j: int)
    requires
        0 <= j <= s.len(),
    ensures
        j <= run_end(s, j) <= s.len(),
        forall|k: int| j <= k < run_end(s, j) ==> #[trigger] is_digit(s[k]),
        run_end(s, j) < s.len() ==> !is_digit(s[run_end(s, j)]),
    decreases s.len() - j,
{
    if j < s.len() && is_digit(s[j]) {
        lemma_run_end(s, j + 1);
    }
}

proof fn lemma_digits_grow(s: Seq<char>, j: int, k: int, m: int)
    requires
        j <= k <= m,
        forall|t: int| j <= t < m ==> #[trigger] is_digit(s[t]),
    ensures
        0 <= digits_value(s, j, k) <= digits_value(s, j, m),
    decreases m - j,
{
    if m > k {
        lemma_digits_grow(s, j, k, m - 1);
        assert(is_digit(s[m - 1]));
    } else if k > j {
        lemma_digits_grow(s, j, k - 1, k - 1);
        assert(is_digit(s[k - 1]));
    }
}

fn digit_char_at(cs: &Vec<char>, k: usize) -> (r: bool)
    requires
        k < cs@.len(),
    ensures
        r == is_digit(cs@[k as int]),
{
    '0' <= cs[k] && cs[k] <= '9'
}

/// Whether the digits that start at `j` write a number above 65535.
fn run_exceeds_u16(cs: &Vec<char>, j: usize) -> (r: bool)
    requires
        j <= cs@.len(),
    ensures
        r == (digits_value(cs@, j as int, run_end(cs@, j as int)) > 65535),
{
    let ghost s = cs@;
    proof {
        lemma_run_end(s, j as int);
    }
    let mut k = j;
    let mut v: u32 = 0;
    while k < cs.len() && digit_char_at(cs, k)
        invariant
            s == cs@,
            j <= k <= s.len(),
            run_end(s, j as int) >= k,
            j <= run_end(s, j as int) <= s.len(),
            forall|t: int| j <= t < run_end(s, j as int) ==> #[trigger] is_digit(s[t]),
            run_end(s, j as int) < s.len() ==> !is_digit(s[run_end(s, j as int)]),
            v == digits_value(s, j as int, k as int),
            v <= 65535,
        decreases s.len() - k,
    {
        let d = (cs[k] as u32) - 48;
        v = v * 10 + d;
        k = k + 1;
        if v > 65535 {
            proof {
                lemma_digits_grow(s, j as int, k as int, run_end(s, j as int));
            }
            return true;
        }
    }
    assert(k == run_end(s, j as int));
    false
}

/// First index from `j` that does not hold a gap character.
fn gap_end(cs: &Vec<char>, j: usize) -> (r: usize)
    requires
        j <= cs@.len(),
    ensures
        r == skip_gaps(cs@, j as int),
{
    let mut k = j;
    while k < cs.len() && (cs[k] == ' ' || cs[k] == '\t' || cs[k] == '\\' || cs[k] == '\n' || cs[k]
        == '\r')
        invariant
            j <= k <= cs@.len(),
            skip_gaps(cs@, j as int) == skip_gaps(cs@, k as int),
        decreases cs@.len() - k,
    {
        k = k + 1;
    }
    k
}

fn is_oversized_version(cs: &Vec<char>, i: usize) -> (r: bool)
    requires
        i < cs@.len(),
    ensures
        r == oversized_version_at(cs@, i as int),
{
    if cs.len() - i < 7 {
        return false;
    }
    let word = cs[i] == 'v' && cs[i + 1] == 'e' && cs[i + 2] == 'r' && cs[i + 3] == 's' && cs[i
        + 4] == 'i' && cs[i + 5] == 'o' && cs[i + 6] == 'n';
    assert(word == (cs@.subrange(i as int, i + 7) =~= version_word()));
    if !word {
        return false;
    }
    let j = gap_end(cs, i + 7);
    proof {
        assert(j <= cs@.len()) by {
            lemma_skip_gaps_bound(cs@, i + 7);
        }
    }
    run_exceeds_u16(cs, j)
}

proof fn lemma_skip_gaps_bound(s: Seq<char>, j: int)
    requires
        0 <= j <= s.len(),
    ensures
        j <= skip_gaps(s, j) <= s.len(),
    decreases s.len() - j,
{
    if j < s.len() && is_gap(s[j]) {
        lemma_skip_gaps_bound(s, j + 1);
    }
}

fn is_risky_negation(cs: &Vec<char>, i: usize) -> (r: bool)
    requires
        i < cs@.len(),
    ensures
        r == risky_negation_at(cs@, i as int),
{
    if cs[i] != '-' {
        return false;
    }
    let hex = cs.len() - i > 2 && cs[i + 1] == '0' && (cs[i + 2] == 'x' || cs[i + 2] == 'X');
    if hex {
        return true;
    }
    if cs.len() - i <= 10 {
        return false;
    }
    let mut t: usize = 1;
    let n = cs.len();
    while t <= 10
        invariant
            1 <= t <= 11,
            n == cs@.len(),
            i + 10 < cs@.len(),
            cs@[i as int] == '-',
            !(i + 2 < cs@.len() && cs@[i + 1] == '0' && (cs@[i + 2] == 'x' || cs@[i + 2] == 'X')),
            forall|u: int| 1 <= u < t ==> #[trigger] is_digit(cs@[i + u]),
        decreases 11 - t,
    {
        if !digit_char_at(cs, i + t) {
            assert(!is_digit(cs@[i as int + t as int]));
            return false;
        }
        t = t + 1;
    }
    true
}

/// Whether `cs` lies within glsl's parser limits.
fn check_parser_limits(cs: &Vec<char>) -> (r: bool)
    ensures
        r == within_parser_limits(cs@),
{
    let mut i: usize = 0;
    while i < cs.len()
        invariant
            i <= cs@.len(),
            forall|k: int|
                0 <= k < i ==> !#[trigger] oversized_version_at(cs@, k) && !risky_negation_at(
                    cs@,
                    k,
                ),
        decreases cs@.len() - i,
    {
        let oversized = is_oversized_version(cs, i);
        let risky = is_risky_negation(cs, i);
        if oversized || risky {
            return false;
        }
        assert(!oversized_version_at(cs@, i as int) && !risky_negation_at(cs@, i as int));
        assert forall|k: int| 0 <= k < i + 1 implies !#[trigger] oversized_version_at(cs@, k)
            && !risky_negation_at(cs@, k) by {
            if k == i {
                assert(!oversized_version_at(cs@, i as int));
            }
        }
        i = i + 1;
    }
    true
}

/// The text that glsl renders back from its syntax tree of `src`, or `None`
/// where glsl does not parse `src` as a translation unit.
pub uninterp spec fn glsl_rendering(src: Seq<char>) -> Option<Seq<char>>;

/// Relies on glsl's `TranslationUnit::parse` and
/// `transpiler::glsl::show_translation_unit`: parsing and printing back are
/// functions of the source text alone; the error is the parser's explanation.
/// The parser panics on a `#version` number above 65535 and, with overflow
/// checks, on a negated literal of 2^31: sources that may hold either are
/// left out.
#[verifier::external_body]
fn parse_and_render(src: &str) -> (r: Result<String, String>)
    requires
        within_parser_limits(src@),
    ensures
        r is Ok <==> glsl_rendering(src@) is Some,
        r matches Ok(t) ==> glsl_rendering(src@) == Some(t@),
{
    let unit = glsl::syntax::TranslationUnit::parse(src).map_err(|e| e.info)?;
    let mut out = String::new();
    glsl::transpiler::glsl::show_translation_unit(&mut out, &unit);
    Ok(out)
}

/// What specialising the kernel source `src` with `entries` yields: the
/// rendering of its syntax tree with every unbound placeholder resolved.
pub open spec fn specialized(src: Seq<char>, entries: Seq<(Seq<char>, usize)>) -> Option<
    Result<Seq<char>, Seq<char>>,
> {
    match glsl_rendering(src) {
        None => None,
        Some(t) => Some(resolve(t, entries)),
    }
}

/// Specialises the kernel source `src`: glsl parses it and renders it back
/// as text, then each unbound placeholder define of that text is given its
/// value from `bindings`. A source outside the parser's limits is refused
/// as unparsable before the parser sees it.
pub fn make_shader_src(src: &str, bindings: &Bindings) -> (r: Result<String, TemplateError>)
    ensures
        !within_parser_limits(src@) ==> r matches Err(TemplateError::Parse(_)),
        within_parser_limits(src@) ==> match specialized(src@, bindings@) {
            None => r matches Err(TemplateError::Parse(_)),
            Some(res) => reports(r, res),
        },
{
    let cs = chars_of(src);
    if !check_parser_limits(&cs) {
        return Err(TemplateError::Parse(String::from_str("number outside the parser's range")));
    }
    match parse_and_render(src) {
        Err(info) => Err(TemplateError::Parse(info)),
        Ok(rendered) => resolve_placeholders(rendered.as_str(), bindings),
    }
}

/// One placeholder binding.
pub struct Binding {
    pub name: String,
    pub value: usize,
}

/// Placeholder bindings for one specialisation; binding a name again
/// overrides the earlier value.
pub struct Bindings {
    entries: Vec<Binding>,
}

impl View for Bindings {
    type V = Seq<(Seq<char>, usize)>;

    closed spec fn view(&self) -> Seq<(Seq<char>, usize)> {
        self.entries@.map_values(|e: Binding| (e.name@, e.value))
    }
}

impl Bindings {
    /// The value that `name` is bound to.
    pub open spec fn value_of(&self, name: Seq<char>) -> Option<usize> {
        lookup_last(self@, name)
    }

    pub fn new() -> (r: Bindings)
        ensures
            r@ == Seq::<(Seq<char>, usize)>::empty(),
    {
        let r = Bindings { entries: Vec::new() };
        assert(r@ =~= Seq::<(Seq<char>, usize)>::empty());
        r
    }

    pub fn bind(&mut self, name: &str, value: usize)
        ensures
            final(self)@ == old(self)@.push((name@, value)),
    {
        self.entries.push(Binding { name: String::from_str(name), value });
        assert(self@ =~= old(self)@.push((name@, value)));
    }

    pub fn lookup(&self, name: &String) -> (r: Option<usize>)
        ensures
            r == self.value_of(name@),
    {
        let mut i = self.entries.len();
        assert(self@.take(i as int) =~= self@);
        while i > 0
            invariant
                i <= self.entries.len(),
                lookup_last(self@, name@) == lookup_last(self@.take(i as int), name@),
            decreases i,
        {
            let e = &self.entries[i - 1];
            assert(self@.take(i as int).drop_last() =~= self@.take(i - 1));
            if e.name == *name {
                return Some(e.value);
            }
            i = i - 1;
        }
        None
    }
}

} // verus!
