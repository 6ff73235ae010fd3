//! Shapes of row-major arrays: element counts, multi-indices and blocks.

use core::ops::Range;
use vstd::prelude::*;

verus! {

/// The product of a list of dimension sizes: the number of elements of a tensor of that shape.
pub open spec fn count(dims: Seq<usize>) -> nat
    decreases dims.len(),
{
    if dims.len() == 0 {
        1
    } else {
        (dims[0] * count(dims.skip(1))) as nat
    }
}

/// The product of a list of dimension sizes with each zero counted as one: a bound on the product
/// of any part of the list.
pub open spec fn span(dims: Seq<usize>) -> nat
    decreases dims.len(),
{
    if dims.len() == 0 {
        1
    } else {
        ((if dims[0] == 0 { 1 } else { dims[0] as int }) * span(dims.skip(1))) as nat
    }
}

/// A tensor of this shape with elements of `width` bytes can be addressed, and no product of its
/// dimension sizes leaves the range of `usize`.
pub open spec fn sized(dims: Seq<usize>, width: nat) -> bool {
    span(dims) * width <= isize::MAX
}

/// The position of a multi-index in row-major order.
pub open spec fn offset(dims: Seq<usize>, idx: Seq<int>) -> int
    decreases dims.len(),
{
    if dims.len() == 0 {
        0
    } else {
        idx[0] * count(dims.skip(1)) + offset(dims.skip(1), idx.skip(1))
    }
}

/// A multi-index that addresses an element of a tensor of this shape.
pub open spec fn in_shape(dims: Seq<usize>, idx: Seq<int>) -> bool {
    &&& idx.len() == dims.len()
    &&& forall|i: int| 0 <= i < dims.len() ==> 0 <= #[trigger] idx[i] < dims[i]
}

/// A multi-index that lies in a block given by one range per dimension.
pub open spec fn in_block(ranges: Seq<Range<usize>>, idx: Seq<int>) -> bool {
    forall|i: int|
        0 <= i < ranges.len() ==> (#[trigger] ranges[i]).start <= idx[i] < ranges[i].end
}

/// A multi-index counted from the first corner of a block.
pub open spec fn block_index(ranges: Seq<Range<usize>>, idx: Seq<int>) -> Seq<int> {
    Seq::new(idx.len(), |i: int| idx[i] - ranges[i].start)
}

/// A block that is not empty along any dimension, lies in a tensor of shape `dims` and has the
/// shape `src`.
pub open spec fn block_fits(dims: Seq<usize>, ranges: Seq<Range<usize>>, src: Seq<usize>) -> bool {
    &&& dims.len() == ranges.len() == src.len()
    &&& forall|i: int|
        0 <= i < ranges.len() ==> (#[trigger] ranges[i]).start < ranges[i].end <= dims[i] && src[i]
            == ranges[i].end - ranges[i].start
}

/// A multi-index with zero for each dimension of size one: where a repeated element comes from.
pub open spec fn repeated_index(dims: Seq<usize>, idx: Seq<int>) -> Seq<int> {
    Seq::new(
        idx.len(),
        |i: int|
            if dims[i] == 1 {
                0
            } else {
                idx[i]
            },
    )
}

/// Where one size is zero there are no elements.
pub proof fn lemma_count_zero(dims: Seq<usize>, i: int)
    requires
        0 <= i < dims.len(),
        dims[i] == 0,
    ensures
        count(dims) == 0,
    decreases dims.len(),
{
    let tail = dims.skip(1);
    if i > 0 {
        lemma_count_zero(tail, i - 1);
    }
    assert(dims[0] * count(tail) == 0) by (nonlinear_arith)
        requires
            dims[0] == 0 || count(tail) == 0,
    ;
}

/// A product in which no zero counts is not zero.
pub proof fn lemma_span_positive(dims: Seq<usize>)
    ensures
        span(dims) >= 1,
    decreases dims.len(),
{
    if dims.len() > 0 {
        lemma_span_positive(dims.skip(1));
        let (a, b) = (
            if dims[0] == 0 {
                1
            } else {
                dims[0] as int
            },
            span(dims.skip(1)) as int,
        );
        assert(a * b >= 1) by (nonlinear_arith)
            requires
                a >= 1,
                b >= 1,
        ;
    }
}

/// The product of the last sizes is not larger than that of all.
pub proof fn lemma_span_suffix(dims: Seq<usize>, i: int)
    requires
        0 <= i <= dims.len(),
    ensures
        span(dims.skip(i)) <= span(dims),
    decreases dims.len(),
{
    if i == 0 {
        assert(dims.skip(0) =~= dims);
    } else {
        let tail = dims.skip(1);
        lemma_span_suffix(tail, i - 1);
        assert(tail.skip(i - 1) =~= dims.skip(i));
        let first = if dims[0] == 0 {
            1
        } else {
            dims[0] as int
        };
        assert(span(tail) <= first * span(tail)) by (nonlinear_arith)
            requires
                first >= 1,
        ;
    }
}

/// Whether a tensor of this shape with elements of `width` bytes can be addressed.
pub(crate) fn fits(dims: &Vec<usize>, width: usize) -> (res: bool)
    requires
        width <= 8,
    ensures
        res == sized(dims@, width as nat),
{
    let limit = (isize::MAX as u64) as u128;
    let mut bytes: u128 = width as u128;
    let mut i: usize = dims.len();
    assert(dims@.skip(i as int) =~= seq![]);
    assert(1 * width == width);
    while i > 0
        invariant
            i <= dims@.len(),
            limit == isize::MAX,
            bytes == span(dims@.skip(i as int)) * width,
            bytes <= limit,
        decreases i,
    {
        i = i - 1;
        let size: u128 = if dims[i] == 0 {
            1
        } else {
            dims[i] as u128
        };
        let ghost (rest, all) = (span(dims@.skip(i + 1)) as int, span(dims@) as int);
        assert(dims@.skip(i as int).skip(1) =~= dims@.skip(i + 1));
        assert(size * bytes == (size * rest) * width && size * bytes <= u128::MAX)
            by (nonlinear_arith)
            requires
                bytes == rest * width,
                size <= 0xffff_ffff_ffff_ffff,
                bytes <= 0x7fff_ffff_ffff_ffff,
        ;
        bytes = size * bytes;
        if bytes > limit {
            proof {
                lemma_span_suffix(dims@, i as int);
                assert((size * rest) * width <= all * width) by (nonlinear_arith)
                    requires
                        size * rest <= all,
                ;
            }
            return false;
        }
    }
    assert(dims@.skip(0) =~= dims@);
    true
}

/// Shapes with one dimension.
pub proof fn lemma_rank_1(a: usize, i: int)
    ensures
        count(seq![a]) == a,
        span(seq![a]) == if a == 0 { 1 } else { a as int },
        offset(seq![a], seq![i]) == i,
{
    reveal_with_fuel(count, 2);
    reveal_with_fuel(span, 2);
    reveal_with_fuel(offset, 2);
    assert(seq![a].skip(1) =~= seq![]);
    assert(i * 1 == i);
    assert(a * 1 == a);
}

/// Shapes with two dimensions.
pub proof fn lemma_rank_2(a: usize, b: usize, i: int, j: int)
    ensures
        count(seq![a, b]) == a * b,
        span(seq![a, b]) == (if a == 0 { 1 } else { a as int }) * (if b == 0 { 1 } else { b as int }),
        offset(seq![a, b], seq![i, j]) == i * b + j,
{
    lemma_rank_1(b, j);
    assert(seq![a, b].skip(1) =~= seq![b]);
    assert(seq![i, j].skip(1) =~= seq![j]);
}

/// The position of a multi-index with two entries lies in the matrix.
pub proof fn lemma_offset_2(a: usize, b: usize, idx: Seq<int>)
    requires
        in_shape(seq![a, b], idx),
    ensures
        offset(seq![a, b], idx) == idx[0] * b + idx[1],
        0 <= idx[0] * b + idx[1] < a * b,
        0 <= idx[0] < a,
        0 <= idx[1] < b,
{
    let (i, j) = (idx[0], idx[1]);
    assert(idx =~= seq![i, j]);
    assert(0 <= idx[0] < seq![a, b][0] && 0 <= idx[1] < seq![a, b][1]);
    lemma_rank_2(a, b, i, j);
    assert(0 <= i * b + j < a * b) by (nonlinear_arith)
        requires
            0 <= i < a,
            0 <= j < b,
    ;
}

/// Shapes with three dimensions.
pub proof fn lemma_rank_3(a: usize, b: usize, c: usize, i: int, j: int, k: int)
    ensures
        count(seq![a, b, c]) == a * (b * c),
        span(seq![a, b, c]) == (if a == 0 { 1 } else { a as int }) * ((if b == 0 { 1 } else {
            b as int
        }) * (if c == 0 { 1 } else { c as int })),
        offset(seq![a, b, c], seq![i, j, k]) == i * (b * c) + (j * c + k),
{
    lemma_rank_2(b, c, j, k);
    assert(seq![a, b, c].skip(1) =~= seq![b, c]);
    assert(seq![i, j, k].skip(1) =~= seq![j, k]);
}

/// The number of elements is that of all dimensions but the last, times the last.
pub proof fn lemma_count_last(dims: Seq<usize>)
    requires
        dims.len() > 0,
    ensures
        count(dims) == count(dims.drop_last()) * dims.last(),
    decreases dims.len(),
{
    if dims.len() == 1 {
        lemma_rank_1(dims[0], 0);
        assert(dims =~= seq![dims[0]]);
        assert(dims.drop_last() =~= seq![]);
        assert(1 * dims[0] == dims[0]);
    } else {
        let tail = dims.skip(1);
        lemma_count_last(tail);
        assert(dims.drop_last().skip(1) =~= tail.drop_last());
        let (a, b, c) = (dims[0] as int, count(tail.drop_last()) as int, dims.last() as int);
        assert(a * (b * c) == (a * b) * c) by (nonlinear_arith);
    }
}

} // verus!
