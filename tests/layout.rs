use gpu_scan::layout::{
    compaction_output_schema, layout, raycast_input_schema, raycast_output_schema, read_words,
    scan_output_schema, write_words, Field, Kind,
};
use gpu_scan::pipeline::combine_block_sums;

fn word_offsets(fields: &Vec<Field>) -> (Vec<usize>, usize) {
    let l = layout(fields).unwrap();
    (l.offsets.iter().map(|o| o / 4).collect(), l.size / 4)
}

#[test]
fn raycast_output_layout_pads_before_vectors() {
    let n = 8;
    let blocks = 4;
    let (offsets, size) = word_offsets(&raycast_output_schema(blocks, n));
    assert_eq!(offsets, vec![0, 4, 12, 20, 24, 56]);
    assert_eq!(size, blocks + n + n + 1 * 4 + 4 * n + 4 * n);
}

#[test]
fn raycast_input_layout() {
    let (offsets, size) = word_offsets(&raycast_input_schema(64));
    assert_eq!(offsets, vec![0, 64]);
    assert_eq!(size, 68);
}

#[test]
fn single_block_raycast_layouts() {
    let input = vec![
        Field { kind: Kind::Scalar, count: 64 },
        Field { kind: Kind::Vec4, count: 1 },
        Field { kind: Kind::Vec4, count: 1 },
    ];
    let l = layout(&input).unwrap();
    assert_eq!(l.offsets, vec![0, 256, 272]);
    assert_eq!(l.size, 288);
    let output = vec![Field { kind: Kind::Vec4, count: 1 }, Field { kind: Kind::Scalar, count: 1 }];
    let l = layout(&output).unwrap();
    assert_eq!(l.offsets, vec![0, 16]);
    assert_eq!(l.size, 32);
}

#[test]
fn scalar_only_layouts_are_packed() {
    let (offsets, size) = word_offsets(&compaction_output_schema(1024, 131_072));
    assert_eq!(offsets, vec![0, 1024, 1024 + 131_072, 1024 + 2 * 131_072]);
    assert_eq!(size, 1024 + 3 * 131_072);
    let (offsets, size) = word_offsets(&scan_output_schema(3, 5));
    assert_eq!(offsets, vec![0, 3]);
    assert_eq!(size, 8);
}

#[test]
fn empty_schema_has_empty_layout() {
    let l = layout(&vec![]).unwrap();
    assert!(l.offsets.is_empty());
    assert_eq!(l.size, 0);
}

#[test]
fn oversized_schema_is_refused() {
    let fields = vec![Field { kind: Kind::Vec4, count: usize::MAX / 8 }];
    assert!(layout(&fields).is_none());
    let fields = vec![
        Field { kind: Kind::Scalar, count: 1 },
        Field { kind: Kind::Vec4, count: usize::MAX / 16 },
    ];
    assert!(layout(&fields).is_none());
}

#[test]
fn read_and_write_words_touch_only_their_range() {
    let mut words = vec![9u32; 8];
    write_words(&mut words, 2, &vec![1, 2, 3]);
    assert_eq!(words, vec![9, 9, 1, 2, 3, 9, 9, 9]);
    assert_eq!(read_words(&words, 1, 3), vec![9, 1, 2]);
    assert_eq!(read_words(&words, 8, 0), Vec::<u32>::new());
}

#[test]
fn combine_on_a_mapped_buffer() {
    let mut words = vec![3, 1, 4, 1, 5, 7, 7];
    combine_block_sums(&mut words, 0, 5);
    assert_eq!(words, vec![0, 3, 4, 8, 9, 7, 7]);
    let mut words = vec![100, 2, 2, 2, 100];
    combine_block_sums(&mut words, 1, 3);
    assert_eq!(words, vec![100, 0, 2, 4, 100]);
}
