//! Buffer schemas: fields laid out in declaration order, each starting at a
//! multiple of its alignment, and the buffer padded to its widest alignment.
//! Host accessors read and write a mapped buffer, seen as 32-bit words, at
//! the offsets a schema gives, so host and kernel agree from one definition.

use vstd::prelude::*;

verus! {

/// Element type of a field: a 32-bit scalar (`uint`, `float`, `bool`) or a
/// 4-wide vector of them.
#[derive(Clone, Copy, PartialEq, Eq, Structural)]
pub enum Kind {
    Scalar,
    Vec4,
}

/// One field of a schema: `count` elements of one kind.
#[derive(Clone, Copy, PartialEq, Eq, Structural)]
pub struct Field {
    pub kind: Kind,
    pub count: usize,
}

/// Size of one element in bytes, which is also its alignment.
pub open spec fn kind_size(k: Kind) -> int {
    match k {
        Kind::Scalar => 4,
        Kind::Vec4 => 16,
    }
}

/// Bytes that a field occupies.
pub open spec fn field_bytes(f: Field) -> int {
    f.count * kind_size(f.kind)
}

/// `x` rounded up to a multiple of `a`.
pub open spec fn round_up(x: int, a: int) -> int {
    if x % a == 0 {
        x
    } else {
        x + (a - x % a)
    }
}

/// End of the last field of `fs`, with each field aligned.
pub open spec fn extent(fs: Seq<Field>) -> int
    decreases fs.len(),
{
    if fs.len() == 0 {
        0
    } else {
        round_up(extent(fs.drop_last()), kind_size(fs.last().kind)) + field_bytes(fs.last())
    }
}

/// Start offset of each field.
pub open spec fn offsets(fs: Seq<Field>) -> Seq<int> {
    Seq::new(fs.len(), |i: int| round_up(extent(fs.take(i)), kind_size(fs[i].kind)))
}

/// Widest alignment among the fields (at least that of a scalar).
pub open spec fn max_align(fs: Seq<Field>) -> int
    decreases fs.len(),
{
    if fs.len() == 0 {
        4
    } else if fs.last().kind == Kind::Vec4 {
        16
    } else {
        max_align(fs.drop_last())
    }
}

/// Total size of a buffer of this schema: the extent padded to the widest
/// alignment.
pub open spec fn buffer_size(fs: Seq<Field>) -> int {
    round_up(extent(fs), max_align(fs))
}

/// Offsets and size of a schema.
pub struct Layout {
    pub offsets: Vec<usize>,
    pub size: usize,
}

proof fn lemma_round_up(x: int, a: int)
    requires
        x >= 0,
        a == 4 || a == 16,
    ensures
        x <= round_up(x, a) < x + a,
        round_up(x, a) % a == 0,
{
}

proof fn lemma_extent_grows(fs: Seq<Field>, i: int)
    requires
        0 <= i <= fs.len(),
    ensures
        0 <= extent(fs.take(i)) <= extent(fs),
    decreases fs.len() - i,
{
    if i == fs.len() {
        assert(fs.take(i) =~= fs);
        lemma_extent_nonneg(fs);
    } else {
        assert(fs.drop_last().take(i) =~= fs.take(i));
        lemma_extent_grows(fs.drop_last(), i);
        lemma_extent_nonneg(fs.drop_last());
        lemma_round_up(extent(fs.drop_last()), kind_size(fs.last().kind));
    }
}

proof fn lemma_extent_nonneg(fs: Seq<Field>)
    ensures
        extent(fs) >= 0,
    decreases fs.len(),
{
    if fs.len() > 0 {
        lemma_extent_nonneg(fs.drop_last());
        lemma_round_up(extent(fs.drop_last()), kind_size(fs.last().kind));
    }
}

proof fn lemma_max_align(fs: Seq<Field>)
    ensures
        max_align(fs) == 4 || max_align(fs) == 16,
    decreases fs.len(),
{
    if fs.len() > 0 {
        lemma_max_align(fs.drop_last());
    }
}

/// Every field starts at a multiple of its alignment, after the end of the
/// field before it, and ends within the buffer, whose size is a multiple of
/// the widest alignment.
pub proof fn lemma_layout_well_formed(fs: Seq<Field>)
    ensures
        forall|i: int| 0 <= i < fs.len() ==> #[trigger] offsets(fs)[i] % kind_size(fs[i].kind) == 0,
        forall|i: int| 0 < i < fs.len() ==> offsets(fs)[i - 1] + field_bytes(fs[i - 1]) <= #[trigger] offsets(fs)[i],
        forall|i: int| 0 <= i < fs.len() ==> #[trigger] offsets(fs)[i] + field_bytes(fs[i]) <= buffer_size(fs),
        extent(fs) <= buffer_size(fs),
        buffer_size(fs) % max_align(fs) == 0,
{
    lemma_extent_nonneg(fs);
    lemma_max_align(fs);
    lemma_round_up(extent(fs), max_align(fs));
    assert forall|i: int| 0 <= i < fs.len() implies #[trigger] offsets(fs)[i] % kind_size(fs[i].kind) == 0 by {
        lemma_extent_nonneg(fs.take(i));
        lemma_round_up(extent(fs.take(i)), kind_size(fs[i].kind));
    }
    assert forall|i: int| 0 < i < fs.len() implies offsets(fs)[i - 1] + field_bytes(fs[i - 1]) <= #[trigger] offsets(fs)[i] by {
        assert(fs.take(i).drop_last() =~= fs.take(i - 1));
        lemma_extent_nonneg(fs.take(i));
        lemma_round_up(extent(fs.take(i)), kind_size(fs[i].kind));
    }
    assert forall|i: int| 0 <= i < fs.len() implies #[trigger] offsets(fs)[i] + field_bytes(fs[i]) <= buffer_size(fs) by {
        assert(fs.take(i + 1).drop_last() =~= fs.take(i));
        lemma_extent_grows(fs, i + 1);
    }
}

/// `x` rounded up to a multiple of `a`, or `None` where that does not fit.
fn checked_round_up(x: usize, a: usize) -> (r: Option<usize>)
    requires
        a == 4 || a == 16,
    ensures
        r matches Some(v) ==> v == round_up(x as int, a as int),
        r is None ==> round_up(x as int, a as int) > usize::MAX,
{
    let rem = x % a;
    if rem == 0 {
        Some(x)
    } else if x > usize::MAX - (a - rem) {
        None
    } else {
        Some(x + (a - rem))
    }
}

fn kind_bytes(k: Kind) -> (r: usize)
    ensures
        r == kind_size(k),
{
    match k {
        Kind::Scalar => 4,
        Kind::Vec4 => 16,
    }
}

/// Lays out `fields`: the start offset of each and the padded size, or
/// `None` where the buffer would not fit in the address space.
pub fn layout(fields: &Vec<Field>) -> (r: Option<Layout>)
    ensures
        r is Some <==> buffer_size(fields@) <= usize::MAX,
        r matches Some(l) ==> l.size == buffer_size(fields@) && l.offsets@.len() == fields@.len()
            && forall|i: int| 0 <= i < fields@.len() ==> l.offsets@[i] == offsets(fields@)[i],
{
    let ghost fs = fields@;
    proof {
        lemma_extent_nonneg(fs);
        lemma_max_align(fs);
        lemma_round_up(extent(fs), max_align(fs));
    }
    let mut offs: Vec<usize> = Vec::new();
    let mut end: usize = 0;
    let mut widest: usize = 4;
    let mut i: usize = 0;
    assert(fs.take(0) =~= Seq::<Field>::empty());
    while i < fields.len()
        invariant
            fs == fields@,
            extent(fs) <= buffer_size(fs),
            max_align(fs) == 4 || max_align(fs) == 16,
            i <= fs.len(),
            end == extent(fs.take(i as int)),
            widest == max_align(fs.take(i as int)),
            offs@.len() == i,
            forall|j: int| 0 <= j < i ==> offs@[j] == offsets(fs)[j],
        decreases fs.len() - i,
    {
        let f = fields[i];
        let a = kind_bytes(f.kind);
        proof {
            assert(fs.take(i + 1).drop_last() =~= fs.take(i as int));
            lemma_extent_grows(fs, i + 1);
            lemma_extent_nonneg(fs.take(i as int));
            lemma_round_up(extent(fs.take(i as int)), a as int);
        }
        let ghost next = fs.take(i + 1);
        assert(next.last() == f);
        assert(extent(next) == round_up(extent(fs.take(i as int)), a as int) + field_bytes(f));
        assert(field_bytes(f) >= 0);
        let start = match checked_round_up(end, a) {
            Some(v) => v,
            None => {
                assert(extent(fs) > usize::MAX);
                return None;
            },
        };
        if f.count > (usize::MAX - start) / a {
            proof {
                assert(f.count * a > usize::MAX - start) by (nonlinear_arith)
                    requires
                        f.count > (usize::MAX - start) / (a as int),
                        a > 0,
                        start <= usize::MAX,
                ;
                assert(extent(fs) > usize::MAX);
            }
            return None;
        }
        proof {
            assert(f.count * a <= usize::MAX - start) by (nonlinear_arith)
                requires
                    f.count <= (usize::MAX - start) / (a as int),
                    a > 0,
                    start <= usize::MAX,
            ;
        }
        offs.push(start);
        end = start + f.count * a;
        if a == 16 {
            widest = 16;
        }
        i = i + 1;
    }
    assert(fs.take(i as int) =~= fs);
    match checked_round_up(end, widest) {
        Some(size) => Some(Layout { offsets: offs, size }),
        None => None,
    }
}

/// `count` scalars.
pub open spec fn scalars(count: usize) -> Field {
    Field { kind: Kind::Scalar, count }
}

/// `count` 4-wide vectors.
pub open spec fn vec4s(count: usize) -> Field {
    Field { kind: Kind::Vec4, count }
}

/// Output of a multi-block scan: `sums[blocks]`, then `data[n]`.
pub fn scan_output_schema(blocks: usize, n: usize) -> (r: Vec<Field>)
    ensures
        r@ == seq![scalars(blocks), scalars(n)],
{
    let r = vec![Field { kind: Kind::Scalar, count: blocks }, Field { kind: Kind::Scalar, count: n }];
    assert(r@ =~= seq![scalars(blocks), scalars(n)]);
    r
}

/// Output of a multi-block compaction: `sums[blocks]`, `offsets[n]`,
/// `results[n]`, then `data[n]`.
pub fn compaction_output_schema(blocks: usize, n: usize) -> (r: Vec<Field>)
    ensures
        r@ == seq![scalars(blocks), scalars(n), scalars(n), scalars(n)],
{
    let r = vec![
        Field { kind: Kind::Scalar, count: blocks },
        Field { kind: Kind::Scalar, count: n },
        Field { kind: Kind::Scalar, count: n },
        Field { kind: Kind::Scalar, count: n },
    ];
    assert(r@ =~= seq![scalars(blocks), scalars(n), scalars(n), scalars(n)]);
    r
}

/// Input of raycasting over a grid chunk: `chunk[cells]`, then `ray_start`.
pub fn raycast_input_schema(cells: usize) -> (r: Vec<Field>)
    ensures
        r@ == seq![scalars(cells), vec4s(1)],
{
    let r = vec![Field { kind: Kind::Scalar, count: cells }, Field { kind: Kind::Vec4, count: 1 }];
    assert(r@ =~= seq![scalars(cells), vec4s(1)]);
    r
}

/// Output of multi-block raycasting over `n` rays: `sums[blocks]`,
/// `offsets[n]`, `results[n]`, `length`, `hits[n]`, then `compact_hits[n]`.
pub fn raycast_output_schema(blocks: usize, n: usize) -> (r: Vec<Field>)
    ensures
        r@ == seq![scalars(blocks), scalars(n), scalars(n), scalars(1), vec4s(n), vec4s(n)],
{
    let r = vec![
        Field { kind: Kind::Scalar, count: blocks },
        Field { kind: Kind::Scalar, count: n },
        Field { kind: Kind::Scalar, count: n },
        Field { kind: Kind::Scalar, count: 1 },
        Field { kind: Kind::Vec4, count: n },
        Field { kind: Kind::Vec4, count: n },
    ];
    assert(r@ =~= seq![scalars(blocks), scalars(n), scalars(n), scalars(1), vec4s(n), vec4s(n)]);
    r
}

/// A copy of `count` words of `words` from word index `start`.
pub fn read_words(words: &Vec<u32>, start: usize, count: usize) -> (r: Vec<u32>)
    requires
        start + count <= words@.len(),
    ensures
        r@ == words@.subrange(start as int, start + count),
{
    let mut r: Vec<u32> = Vec::new();
    let mut k: usize = 0;
    let n = words.len();
    while k < count
        invariant
            n == words@.len(),
            k <= count,
            start + count <= words@.len(),
            r@ == words@.subrange(start as int, start + k),
        decreases count - k,
    {
        r.push(words[start + k]);
        k = k + 1;
        assert(r@ =~= words@.subrange(start as int, start + k));
    }
    r
}

/// Writes `values` into `words` from word index `start`, leaving every other
/// word as it was.
pub fn write_words(words: &mut Vec<u32>, start: usize, values: &Vec<u32>)
    requires
        start + values@.len() <= old(words)@.len(),
    ensures
        final(words)@ == old(words)@.take(start as int) + values@ + old(words)@.skip(
            start + values@.len(),
        ),
{
    let mut k: usize = 0;
    let n = words.len();
    while k < values.len()
        invariant
            n == words@.len(),
            k <= values@.len(),
            start + values@.len() <= old(words)@.len(),
            words@.len() == old(words)@.len(),
            forall|j: int| 0 <= j < start ==> words@[j] == old(words)@[j],
            forall|j: int| start <= j < start + k ==> words@[j] == values@[j - start],
            forall|j: int| start + k <= j < words@.len() ==> words@[j] == old(words)@[j],
        decreases values@.len() - k,
    {
        words.set(start + k, values[k]);
        k = k + 1;
    }
    assert(words@ =~= old(words)@.take(start as int) + values@ + old(words)@.skip(
        start + values@.len(),
    ));
}

} // verus!
