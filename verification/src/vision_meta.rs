//! Images of several sequences as patches, with placeholder tokens for them in the token streams.

use candle_core::{Device, Error, Tensor};
use vstd::prelude::*;

use crate::error::EmbeddingError;
use crate::processor::EmbeddingInputsProcessor;
use crate::sequence::Sequence;
use crate::shape::lemma_rank_2;
use crate::tensor::{
    all_plain_on_cpu, at, can_cat, cat_elems, cat_fits, cat_rows, cat_sized, device_on_cpu,
    from_vec, is_cat, join, lemma_cat_elems_at, tensor_device, tensor_elems, tensor_shape,
    tensor_type, ElemType,
};

verus! {

/// An image cut into patches.
pub struct PreparedImage {
    /// The patches, one per row.
    pub pixels: Tensor,
    /// The number of patches in time, along the height and along the width.
    pub grid: (u32, u32, u32),
}

/// What the image preprocessing gave for the images of several sequences.
pub struct PreparedImages {
    /// The images of each sequence, up to the first sequence for which an image failed.
    pub per_sequence: Vec<Vec<PreparedImage>>,
    /// The reason for which the next sequence failed, where one did.
    pub failure: Option<Error>,
}

/// What the model needs to know of the images of a batch.
#[derive(Clone)]
pub struct VisionEmbeddingMeta {
    /// The patches of all the images.
    pub pixel_values: Tensor,
    /// The grid of each image, one per row.
    pub image_grid_thw: Tensor,
    /// The length of each token stream, placeholders included.
    pub seqlens: Vec<usize>,
    /// The spans of placeholder tokens in each token stream.
    pub continuous_img_pad: Vec<Vec<(usize, usize)>>,
    /// The hashes of the images.
    pub image_hashes: Vec<u64>,
}

/// The number of patches in a grid.
pub open spec fn patches(grid: (u32, u32, u32)) -> nat {
    (grid.0 * grid.1 * grid.2) as nat
}

/// The number of patches that become one token.
pub open spec fn merged(merge_size: usize) -> nat {
    if merge_size == 0 {
        1
    } else {
        (merge_size * merge_size) as nat
    }
}

/// The number of tokens that stand for an image.
pub open spec fn image_tokens(grid: (u32, u32, u32), merge_size: usize) -> nat {
    patches(grid) / merged(merge_size)
}

/// The number of tokens that stand for the images of one sequence.
pub open spec fn sequence_tokens(images: Seq<PreparedImage>, merge_size: usize) -> nat
    decreases images.len(),
{
    if images.len() == 0 {
        0
    } else {
        sequence_tokens(images.drop_last(), merge_size) + image_tokens(
            images.last().grid,
            merge_size,
        )
    }
}

/// The numbers that are computed for the images of one sequence stay within the range of `usize`.
pub open spec fn tokens_fit(images: Seq<PreparedImage>, merge_size: usize) -> bool {
    &&& images.len() > 0 ==> merge_size * merge_size <= usize::MAX
    &&& forall|i: int|
        #![trigger images[i]]
        0 <= i < images.len() ==> images[i].grid.0 * images[i].grid.1 <= usize::MAX && patches(
            images[i].grid,
        ) <= usize::MAX
    &&& sequence_tokens(images, merge_size) <= usize::MAX
}

/// The token stream with `n` placeholders in front.
pub open spec fn with_placeholders(toks: Seq<u32>, token: u32, n: nat) -> Seq<u32> {
    Seq::new(n, |i: int| token) + toks
}

/// The spans that `n` placeholders at the head of a stream make: one where there is any.
pub open spec fn placeholder_spans(n: nat) -> Seq<(usize, usize)> {
    if n > 0 {
        seq![(0usize, n as usize)]
    } else {
        seq![]
    }
}

/// A position that lies on one of the spans.
pub open spec fn covered(spans: Seq<(usize, usize)>, j: int) -> bool {
    exists|i: int| 0 <= i < spans.len() && (#[trigger] spans[i]).0 <= j < spans[i].1
}

/// All the images of several sequences.
pub open spec fn all_images(lists: Seq<Vec<PreparedImage>>) -> Seq<PreparedImage>
    decreases lists.len(),
{
    if lists.len() == 0 {
        seq![]
    } else {
        all_images(lists.drop_last()) + lists.last()@
    }
}

/// The patches of several images.
pub open spec fn all_pixels(images: Seq<PreparedImage>) -> Seq<Tensor> {
    Seq::new(images.len(), |i: int| images[i].pixels)
}

/// The grids of several images, three numbers each.
pub open spec fn all_grids(images: Seq<PreparedImage>) -> Seq<u32>
    decreases images.len(),
{
    if images.len() == 0 {
        seq![]
    } else {
        let grid = images.last().grid;
        all_grids(images.drop_last()) + seq![grid.0, grid.1, grid.2]
    }
}

/// The image hashes of several sequences.
pub open spec fn all_hashes(seqs: Seq<Sequence>) -> Seq<u64>
    decreases seqs.len(),
{
    if seqs.len() == 0 {
        seq![]
    } else {
        match seqs.last().image_hashes {
            Some(hashes) => all_hashes(seqs.drop_last()) + hashes@,
            None => all_hashes(seqs.drop_last()),
        }
    }
}

/// A sequence that is `before` with `n` placeholders in front of its tokens.
pub open spec fn placeholders_added(before: Sequence, after: Sequence, token: u32, n: nat) -> bool {
    &&& after.toks@ == with_placeholders(before.toks@, token, n)
    &&& after.token_offset == before.token_offset
    &&& after.has_images == before.has_images
    &&& after.images == before.images
    &&& after.image_hashes == before.image_hashes
}

/// The number of tokens that stand for the images of one sequence, unless one of the numbers on the
/// way to it leaves the range of `usize`.
pub fn count_tokens(images: &Vec<PreparedImage>, merge_size: usize) -> (res: Option<usize>)
    ensures
        match res {
            Some(n) => tokens_fit(images@, merge_size) && n == sequence_tokens(
                images@,
                merge_size,
            ),
            None => !tokens_fit(images@, merge_size),
        },
{
    if images.len() == 0 {
        return Some(0);
    }
    let merge_sq = match merge_size.checked_mul(merge_size) {
        Some(merge_sq) => merge_sq,
        None => return None,
    };
    assert(merge_sq == 0 ==> merge_size == 0) by (nonlinear_arith)
        requires
            merge_sq == merge_size * merge_size,
    ;
    let merged_patches = if merge_sq > 1 {
        merge_sq
    } else {
        1
    };
    let mut total: usize = 0;
    for i in 0..images.len()
        invariant
            images@.len() > 0,
            merge_size * merge_size <= usize::MAX,
            merged_patches == merged(merge_size) > 0,
            forall|k: int|
                #![trigger images@[k]]
                0 <= k < i ==> images@[k].grid.0 * images@[k].grid.1 <= usize::MAX && patches(
                    images@[k].grid,
                ) <= usize::MAX,
            total == sequence_tokens(images@.take(i as int), merge_size),
    {
        let grid = images[i].grid;
        assert(images@[i as int].grid == grid);
        let area = match (grid.0 as usize).checked_mul(grid.1 as usize) {
            Some(area) => area,
            None => return None,
        };
        let patches = match area.checked_mul(grid.2 as usize) {
            Some(patches) => patches,
            None => return None,
        };
        proof {
            assert(images@.take(i + 1).drop_last() =~= images@.take(i as int));
            lemma_tokens_monotone(images@, merge_size, i + 1);
        }
        total = match total.checked_add(patches / merged_patches) {
            Some(total) => total,
            None => return None,
        };
    }
    assert(images@.take(images@.len() as int) =~= images@);
    Some(total)
}

/// An image takes as many tokens as its patches fill squares of the merge size: `n` full squares hold
/// not more patches than there are, and one more would hold more.
pub proof fn lemma_tokens_of_image(grid: (u32, u32, u32), merge_size: usize)
    requires
        merge_size >= 1,
    ensures
        image_tokens(grid, merge_size) * merge_size * merge_size <= grid.0 * grid.1 * grid.2,
        grid.0 * grid.1 * grid.2 < (image_tokens(grid, merge_size) + 1) * merge_size * merge_size,
{
    let (p, m) = ((grid.0 * grid.1 * grid.2) as int, (merge_size * merge_size) as int);
    assert(p >= 0) by (nonlinear_arith)
        requires
            p == grid.0 * grid.1 * grid.2,
    ;
    assert(m > 0) by (nonlinear_arith)
        requires
            m == merge_size * merge_size,
            merge_size >= 1,
    ;
    let n = image_tokens(grid, merge_size) as int;
    vstd::arithmetic::div_mod::lemma_fundamental_div_mod(p, m);
    let rest = p % m;
    assert(n * merge_size * merge_size <= p < (n + 1) * merge_size * merge_size)
        by (nonlinear_arith)
        requires
            p == m * n + rest,
            0 <= rest < m,
            m == merge_size * merge_size,
    ;
}

/// Without merging every patch is a token.
pub proof fn lemma_tokens_without_merging(grid: (u32, u32, u32))
    ensures
        image_tokens(grid, 0) == grid.0 * grid.1 * grid.2,
        image_tokens(grid, 1) == grid.0 * grid.1 * grid.2,
{
    let p = (grid.0 * grid.1 * grid.2) as int;
    assert(p >= 0) by (nonlinear_arith)
        requires
            p == grid.0 * grid.1 * grid.2,
    ;
    assert(p / 1 == p);
}

/// The tokens of a sequence are those of its images together: one image counts for itself, and two
/// groups of images count for the sum.
pub proof fn lemma_tokens_of_sequence(a: Seq<PreparedImage>, b: Seq<PreparedImage>, merge_size: usize)
    ensures
        sequence_tokens(a + b, merge_size) == sequence_tokens(a, merge_size) + sequence_tokens(
            b,
            merge_size,
        ),
        a.len() == 0 ==> sequence_tokens(a, merge_size) == 0,
        a.len() == 1 ==> sequence_tokens(a, merge_size) == image_tokens(a[0].grid, merge_size),
    decreases b.len(),
{
    if b.len() == 0 {
        assert(a + b =~= a);
    } else {
        lemma_tokens_of_sequence(a, b.drop_last(), merge_size);
        assert((a + b).drop_last() =~= a + b.drop_last());
    }
    if a.len() == 1 {
        assert(sequence_tokens(a.drop_last(), merge_size) == 0);
    }
}

/// The tokens of a sequence can be counted wherever the square of the merge size and all its patches
/// together can be: `most` is the largest number of patches of an image.
pub proof fn lemma_tokens_fit(images: Seq<PreparedImage>, merge_size: usize, most: nat)
    requires
        images.len() > 0 ==> merge_size * merge_size <= usize::MAX,
        forall|i: int|
            #![trigger images[i]]
            0 <= i < images.len() ==> images[i].grid.0 * images[i].grid.1 <= usize::MAX
                && images[i].grid.0 * images[i].grid.1 * images[i].grid.2 <= most,
        images.len() * most <= usize::MAX,
    ensures
        tokens_fit(images, merge_size),
{
    lemma_tokens_bound(images, merge_size, most);
    assert forall|i: int| #![trigger images[i]] 0 <= i < images.len() implies images[i].grid.0
        * images[i].grid.1 <= usize::MAX && patches(images[i].grid) <= usize::MAX by {
        let p = (images[i].grid.0 * images[i].grid.1 * images[i].grid.2) as int;
        assert(p <= images.len() * most) by (nonlinear_arith)
            requires
                p <= most,
                images.len() >= 1,
        ;
        assert(p >= 0) by (nonlinear_arith)
            requires
                p == images[i].grid.0 * images[i].grid.1 * images[i].grid.2,
        ;
    }
}

/// A sequence takes not more tokens than its images have patches.
proof fn lemma_tokens_bound(images: Seq<PreparedImage>, merge_size: usize, most: nat)
    requires
        forall|i: int|
            #![trigger images[i]]
            0 <= i < images.len() ==> images[i].grid.0 * images[i].grid.1 * images[i].grid.2 <= most,
    ensures
        sequence_tokens(images, merge_size) <= images.len() * most,
    decreases images.len(),
{
    if images.len() > 0 {
        let init = images.drop_last();
        let last = images[images.len() - 1];
        assert forall|i: int| #![trigger init[i]] 0 <= i < init.len() implies init[i].grid.0
            * init[i].grid.1 * init[i].grid.2 <= most by {
            assert(init[i] == images[i]);
        }
        lemma_tokens_bound(init, merge_size, most);
        let (p, m) = (patches(last.grid), merged(merge_size));
        assert(m >= 1) by {
            assert(merge_size >= 1 ==> merge_size * merge_size >= 1) by (nonlinear_arith);
        }
        let (x, y, z) = (last.grid.0, last.grid.1, last.grid.2);
        assert(x * y * z >= 0) by (nonlinear_arith);
        assert(p / m <= p) by (nonlinear_arith)
            requires
                m >= 1,
        ;
        assert(images.len() * most == init.len() * most + most) by (nonlinear_arith)
            requires
                images.len() == init.len() + 1,
        ;
    }
}

/// All the images of several sequences are those of the sequences one after the other.
pub proof fn lemma_all_images(a: Seq<Vec<PreparedImage>>, b: Seq<Vec<PreparedImage>>)
    ensures
        all_images(a + b) == all_images(a) + all_images(b),
        a.len() == 0 ==> all_images(a).len() == 0,
        a.len() == 1 ==> all_images(a) == a[0]@,
    decreases b.len(),
{
    if b.len() == 0 {
        assert(a + b =~= a);
        assert(all_images(a) + all_images(b) =~= all_images(a));
    } else {
        lemma_all_images(a, b.drop_last());
        assert((a + b).drop_last() =~= a + b.drop_last());
        assert(all_images(a + b) =~= all_images(a) + all_images(b));
    }
    if a.len() == 1 {
        assert(all_images(a.drop_last()) =~= seq![]);
        assert(all_images(a) =~= a[0]@);
    }
}

/// The hashes of several sequences are those of the sequences one after the other. A sequence without
/// hashes adds none.
pub proof fn lemma_all_hashes(a: Seq<Sequence>, b: Seq<Sequence>)
    ensures
        all_hashes(a + b) == all_hashes(a) + all_hashes(b),
        a.len() == 0 ==> all_hashes(a).len() == 0,
        a.len() == 1 ==> all_hashes(a) == match a[0].image_hashes {
            Some(hashes) => hashes@,
            None => seq![],
        },
    decreases b.len(),
{
    if b.len() == 0 {
        assert(a + b =~= a);
        assert(all_hashes(a) + all_hashes(b) =~= all_hashes(a));
    } else {
        lemma_all_hashes(a, b.drop_last());
        assert((a + b).drop_last() =~= a + b.drop_last());
        assert(all_hashes(a + b) =~= all_hashes(a) + all_hashes(b));
    }
    if a.len() == 1 {
        assert(all_hashes(a.drop_last()) =~= seq![]);
        assert(all_hashes(a) =~= match a[0].image_hashes {
            Some(hashes) => hashes@,
            None => seq![],
        });
    }
}

/// The grids lie one after the other, each in the order of time, height and width.
proof fn lemma_grid_in_list(images: Seq<PreparedImage>, i: int)
    requires
        0 <= i < images.len(),
    ensures
        all_grids(images).len() == 3 * images.len(),
        all_grids(images)[3 * i] == images[i].grid.0,
        all_grids(images)[3 * i + 1] == images[i].grid.1,
        all_grids(images)[3 * i + 2] == images[i].grid.2,
    decreases images.len(),
{
    lemma_grid_count(images);
    lemma_grid_count(images.drop_last());
    if i < images.len() - 1 {
        lemma_grid_in_list(images.drop_last(), i);
    }
}

/// The model is told the grid of each image in a row of its own, in the order of time, height and
/// width: row `i` is that of image `i` of the batch.
pub proof fn lemma_grid_of_each_image(
    before: Seq<Sequence>,
    lists: Seq<Vec<PreparedImage>>,
    merge_size: usize,
    meta: VisionEmbeddingMeta,
    i: int,
)
    requires
        meta.describes(before, lists, merge_size),
        0 <= i < all_images(lists).len() <= usize::MAX,
    ensures
        tensor_shape(meta.image_grid_thw).len() == 2,
        tensor_shape(meta.image_grid_thw)[0] == all_images(lists).len(),
        tensor_shape(meta.image_grid_thw)[1] == 3,
        tensor_type(meta.image_grid_thw) == ElemType::U32,
        tensor_elems(meta.image_grid_thw).len() == 3 * all_images(lists).len(),
        tensor_elems(meta.image_grid_thw)[3 * i] == all_images(lists)[i].grid.0,
        tensor_elems(meta.image_grid_thw)[3 * i + 1] == all_images(lists)[i].grid.1,
        tensor_elems(meta.image_grid_thw)[3 * i + 2] == all_images(lists)[i].grid.2,
        at(meta.image_grid_thw, seq![i, 0]) == all_images(lists)[i].grid.0,
        at(meta.image_grid_thw, seq![i, 1]) == all_images(lists)[i].grid.1,
        at(meta.image_grid_thw, seq![i, 2]) == all_images(lists)[i].grid.2,
{
    let n = all_images(lists).len() as usize;
    lemma_grid_in_list(all_images(lists), i);
    lemma_rank_2(n, 3, i, 0);
    lemma_rank_2(n, 3, i, 1);
    lemma_rank_2(n, 3, i, 2);
}

/// The model is told the length of each token stream with its placeholders, the one span that they
/// make at its head, and the hashes of all the sequences in order.
pub proof fn lemma_lengths_and_spans_of_each_stream(
    before: Seq<Sequence>,
    lists: Seq<Vec<PreparedImage>>,
    merge_size: usize,
    meta: VisionEmbeddingMeta,
    k: int,
)
    requires
        meta.describes(before, lists, merge_size),
        0 <= k < before.len(),
        sequence_tokens(lists[k]@, merge_size) <= usize::MAX,
    ensures
        meta.seqlens@.len() == before.len(),
        meta.continuous_img_pad@.len() == before.len(),
        meta.seqlens@[k] == before[k].toks@.len() + sequence_tokens(lists[k]@, merge_size),
        sequence_tokens(lists[k]@, merge_size) == 0 ==> meta.continuous_img_pad@[k]@.len() == 0,
        sequence_tokens(lists[k]@, merge_size) > 0 ==> {
            &&& meta.continuous_img_pad@[k]@.len() == 1
            &&& meta.continuous_img_pad@[k]@[0].0 == 0
            &&& meta.continuous_img_pad@[k]@[0].1 == sequence_tokens(lists[k]@, merge_size)
        },
        meta.image_hashes@ == all_hashes(before),
{
}

/// The patches of each image are handed to the model in its place: those of image `i` follow on the
/// elements of the images before it.
pub proof fn lemma_patches_of_each_image(
    before: Seq<Sequence>,
    lists: Seq<Vec<PreparedImage>>,
    merge_size: usize,
    meta: VisionEmbeddingMeta,
    i: int,
    x: int,
)
    requires
        meta.describes(before, lists, merge_size),
        0 <= i < all_images(lists).len(),
        0 <= x < tensor_elems(all_images(lists)[i].pixels).len(),
    ensures
        tensor_type(meta.pixel_values) == tensor_type(all_images(lists)[0].pixels),
        tensor_device(meta.pixel_values) == tensor_device(all_images(lists)[0].pixels),
        all_images(lists).len() == 1 ==> meta.pixel_values == all_images(lists)[0].pixels,
        all_images(lists).len() > 1 ==> tensor_shape(meta.pixel_values).skip(1) == tensor_shape(
            all_images(lists)[0].pixels,
        ).skip(1),
        all_images(lists).len() > 1 && cat_rows(all_pixels(all_images(lists))) <= usize::MAX
            ==> tensor_shape(meta.pixel_values)[0] == cat_rows(all_pixels(all_images(lists))),
        all_pixels(all_images(lists)).len() == all_images(lists).len(),
        all_pixels(all_images(lists))[i] == all_images(lists)[i].pixels,
        tensor_elems(meta.pixel_values)[cat_elems(all_pixels(all_images(lists)).take(i)).len() + x]
            == tensor_elems(all_images(lists)[i].pixels)[x],
        i == all_images(lists).len() - 1 ==> tensor_elems(meta.pixel_values).len() == cat_elems(
            all_pixels(all_images(lists)).take(i),
        ).len() + tensor_elems(all_images(lists)[i].pixels).len(),
{
    let pixels = all_pixels(all_images(lists));
    lemma_cat_elems_at(pixels, i, x);
    if i == pixels.len() - 1 {
        assert(pixels.take(i) =~= pixels.drop_last());
    }
    if pixels.len() == 1 {
        assert(cat_elems(pixels.drop_last()) =~= seq![]);
        assert(cat_elems(pixels) =~= tensor_elems(pixels[0]));
    } else {
        let first = tensor_shape(pixels[0]).skip(1);
        assert((seq![cat_rows(pixels) as usize] + first).skip(1) =~= first);
    }
}

/// The first images of a sequence need no more tokens than all of them.
proof fn lemma_tokens_monotone(images: Seq<PreparedImage>, merge_size: usize, n: int)
    requires
        0 <= n <= images.len(),
    ensures
        sequence_tokens(images.take(n), merge_size) <= sequence_tokens(images, merge_size),
    decreases images.len(),
{
    if n == images.len() {
        assert(images.take(n) =~= images);
    } else {
        lemma_tokens_monotone(images.drop_last(), merge_size, n);
        assert(images.drop_last().take(n) =~= images.take(n));
    }
}

/// A token stream with `n` placeholders in front.
fn prepend_placeholders(toks: &Vec<u32>, token: u32, n: usize) -> (res: Vec<u32>)
    requires
        toks@.len() + n <= usize::MAX,
    ensures
        res@ == with_placeholders(toks@, token, n as nat),
{
    let mut res: Vec<u32> = Vec::with_capacity(n);
    for i in 0..n
        invariant
            res@ == Seq::new(i as nat, |k: int| token),
    {
        res.push(token);
        assert(res@ =~= Seq::new((i + 1) as nat, |k: int| token));
    }
    for i in 0..toks.len()
        invariant
            res@ == with_placeholders(toks@.take(i as int), token, n as nat),
    {
        res.push(toks[i]);
        assert(res@ =~= with_placeholders(toks@.take(i + 1), token, n as nat));
    }
    assert(toks@.take(toks@.len() as int) =~= toks@);
    res
}

/// The images of several sequences, laid out one after the other, and their placeholders.
struct Layout {
    pixels: Vec<Tensor>,
    grids: Vec<u32>,
    hashes: Vec<u64>,
    spans: Vec<Vec<(usize, usize)>>,
    seqlens: Vec<usize>,
}

impl Layout {
    /// Describes the images of the sequences `before`, of which each gets placeholders for its own.
    spec fn describes(
        self,
        before: Seq<Sequence>,
        lists: Seq<Vec<PreparedImage>>,
        merge_size: usize,
    ) -> bool {
        &&& self.pixels@ == all_pixels(all_images(lists))
        &&& self.grids@ == all_grids(all_images(lists))
        &&& self.hashes@ == all_hashes(before)
        &&& lengths_and_spans(self.seqlens@, self.spans@, before, lists, merge_size)
    }
}

/// The lengths of the token streams and the spans of the placeholders in them, where each of the
/// sequences `before` gets placeholders for its own images.
pub open spec fn lengths_and_spans(
    seqlens: Seq<usize>,
    spans: Seq<Vec<(usize, usize)>>,
    before: Seq<Sequence>,
    lists: Seq<Vec<PreparedImage>>,
    merge_size: usize,
) -> bool {
    &&& seqlens.len() == before.len()
    &&& spans.len() == before.len()
    &&& forall|k: int|
        0 <= k < before.len() ==> #[trigger] seqlens[k] == before[k].toks@.len() + sequence_tokens(
            lists[k]@,
            merge_size,
        )
    &&& forall|k: int|
        0 <= k < before.len() ==> (#[trigger] spans[k])@ == placeholder_spans(
            sequence_tokens(lists[k]@, merge_size),
        )
}

/// The placeholders for the images of each sequence, and the streams that hold them, can be counted
/// in `usize`.
pub open spec fn placeholders_fit(
    seqs: Seq<Sequence>,
    lists: Seq<Vec<PreparedImage>>,
    merge_size: usize,
) -> bool {
    &&& lists.len() <= seqs.len()
    &&& forall|k: int|
        0 <= k < lists.len() ==> tokens_fit((#[trigger] lists[k])@, merge_size)
            && seqs[k].toks@.len() + sequence_tokens(lists[k]@, merge_size) <= usize::MAX
}

/// Every sequence for which there are images has got placeholders for them, and the others are as
/// they were.
pub open spec fn placeholders_placed(
    before: Seq<Sequence>,
    after: Seq<Sequence>,
    lists: Seq<Vec<PreparedImage>>,
    token: u32,
    merge_size: usize,
) -> bool {
    &&& after.len() == before.len()
    &&& forall|k: int|
        0 <= k < lists.len() ==> placeholders_added(
            before[k],
            #[trigger] after[k],
            token,
            sequence_tokens(lists[k]@, merge_size),
        )
    &&& forall|k: int| lists.len() <= k < before.len() ==> #[trigger] after[k] == before[k]
}

/// Puts placeholders for its images in front of each sequence and lays the images out.
fn place_images(
    input_seqs: &mut Vec<Sequence>,
    lists: &Vec<Vec<PreparedImage>>,
    token: u32,
    merge_size: usize,
) -> (res: Layout)
    requires
        placeholders_fit(old(input_seqs)@, lists@, merge_size),
    ensures
        placeholders_placed(old(input_seqs)@, final(input_seqs)@, lists@, token, merge_size),
        res.describes(old(input_seqs)@.take(lists@.len() as int), lists@, merge_size),
{
    let mut pixels: Vec<Tensor> = Vec::new();
    let mut grids: Vec<u32> = Vec::new();
    let mut hashes: Vec<u64> = Vec::new();
    let mut spans: Vec<Vec<(usize, usize)>> = Vec::with_capacity(lists.len());
    let mut seqlens: Vec<usize> = Vec::with_capacity(lists.len());
    let ghost before = input_seqs@;
    for i in 0..lists.len()
        invariant
            placeholders_fit(before, lists@, merge_size),
            placeholders_placed(before, input_seqs@, lists@.take(i as int), token, merge_size),
            pixels@ == all_pixels(all_images(lists@.take(i as int))),
            grids@ == all_grids(all_images(lists@.take(i as int))),
            hashes@ == all_hashes(before.take(i as int)),
            lengths_and_spans(
                seqlens@,
                spans@,
                before.take(i as int),
                lists@.take(i as int),
                merge_size,
            ),
    {
        let ghost done = lists@.take(i as int);
        let ghost next = lists@.take(i + 1);
        assert(next.drop_last() =~= done);
        assert(before.take(i + 1).drop_last() =~= before.take(i as int));
        assert(input_seqs@[i as int] == before[i as int]);
        assert(tokens_fit(lists@[i as int]@, merge_size));

        let n = count_tokens(&lists[i], merge_size).unwrap();
        append_images(&lists[i], &mut pixels, &mut grids, Ghost(all_images(done)));

        let new_toks = prepend_placeholders(&input_seqs[i].toks, token, n);
        seqlens.push(new_toks.len());
        input_seqs[i].toks = new_toks;
        let mut seq_spans: Vec<(usize, usize)> = Vec::new();
        if n > 0 {
            seq_spans.push((0, n));
        }
        spans.push(seq_spans);
        match &input_seqs[i].image_hashes {
            Some(seq_hashes) => {
                hashes.extend_from_slice(seq_hashes.as_slice());
            },
            None => {},
        }
    }
    assert(lists@.take(lists@.len() as int) =~= lists@);
    Layout { pixels, grids, hashes, spans, seqlens }
}

/// Adds the patches and the grids of further images.
fn append_images(
    images: &Vec<PreparedImage>,
    pixels: &mut Vec<Tensor>,
    grids: &mut Vec<u32>,
    Ghost(done): Ghost<Seq<PreparedImage>>,
)
    requires
        old(pixels)@ == all_pixels(done),
        old(grids)@ == all_grids(done),
    ensures
        final(pixels)@ == all_pixels(done + images@),
        final(grids)@ == all_grids(done + images@),
{
    assert(done + images@.take(0) =~= done);
    for i in 0..images.len()
        invariant
            pixels@ == all_pixels(done + images@.take(i as int)),
            grids@ == all_grids(done + images@.take(i as int)),
    {
        let ghost next = done + images@.take(i + 1);
        assert(next.drop_last() =~= done + images@.take(i as int));
        pixels.push(images[i].pixels.clone());
        assert(pixels@ =~= all_pixels(next));
        let grid = images[i].grid;
        grids.push(grid.0);
        grids.push(grid.1);
        grids.push(grid.2);
        assert(grids@ =~= all_grids(next));
    }
    assert(images@.take(images@.len() as int) =~= images@);
}

/// Three numbers are kept of each grid.
proof fn lemma_grid_count(images: Seq<PreparedImage>)
    ensures
        all_grids(images).len() == 3 * images.len(),
    decreases images.len(),
{
    if images.len() > 0 {
        lemma_grid_count(images.drop_last());
    }
}

/// Where no sequence has an image, no token stream changes.
pub proof fn lemma_no_image_no_placeholder(
    before: Seq<Sequence>,
    after: Seq<Sequence>,
    lists: Seq<Vec<PreparedImage>>,
    token: u32,
    merge_size: usize,
)
    requires
        lists.len() <= before.len(),
        placeholders_placed(before, after, lists, token, merge_size),
        all_images(lists).len() == 0,
    ensures
        after.len() == before.len(),
        forall|k: int| 0 <= k < before.len() ==> (#[trigger] after[k]).toks@ == before[k].toks@,
{
    assert forall|k: int| 0 <= k < before.len() implies (#[trigger] after[k]).toks@
        == before[k].toks@ by {
        if k < lists.len() {
            lemma_no_image(lists, k);
            assert(after[k].toks@ =~= before[k].toks@);
        }
    }
}

/// Where there is no image at all, each sequence has none.
proof fn lemma_no_image(lists: Seq<Vec<PreparedImage>>, k: int)
    requires
        0 <= k < lists.len(),
        all_images(lists).len() == 0,
    ensures
        lists[k]@.len() == 0,
    decreases lists.len(),
{
    if k < lists.len() - 1 {
        lemma_no_image(lists.drop_last(), k);
    }
}

/// The spans that are handed to the model cover exactly the placeholders: a stream of the stated
/// length holds the placeholder token on each of its spans, and behind them the tokens that it held
/// before.
pub proof fn lemma_spans_cover_placeholders(
    before: Seq<Sequence>,
    after: Seq<Sequence>,
    lists: Seq<Vec<PreparedImage>>,
    token: u32,
    merge_size: usize,
    meta: VisionEmbeddingMeta,
    k: int,
)
    requires
        lists.len() == before.len(),
        placeholders_placed(before, after, lists, token, merge_size),
        meta.describes(before, lists, merge_size),
        placeholders_fit(before, lists, merge_size),
        0 <= k < before.len(),
    ensures
        meta.seqlens@[k] == after[k].toks@.len(),
        forall|j: int|
            #[trigger] covered(meta.continuous_img_pad@[k]@, j) <==> 0 <= j < sequence_tokens(
                lists[k]@,
                merge_size,
            ),
        forall|j: int|
            #[trigger] covered(meta.continuous_img_pad@[k]@, j) ==> after[k].toks@[j] == token,
        after[k].toks@.skip(sequence_tokens(lists[k]@, merge_size) as int) == before[k].toks@,
{
    assert(meta.seqlens@[k] == before[k].toks@.len() + sequence_tokens(lists[k]@, merge_size));
    assert(meta.continuous_img_pad@[k]@ == placeholder_spans(
        sequence_tokens(lists[k]@, merge_size),
    ));
    assert(placeholders_added(
        before[k],
        after[k],
        token,
        sequence_tokens(lists[k]@, merge_size),
    ));
    assert(tokens_fit(lists[k]@, merge_size));
    assert(after[k].toks@.skip(sequence_tokens(lists[k]@, merge_size) as int)
        =~= before[k].toks@);
    let spans = meta.continuous_img_pad@[k]@;
    assert forall|j: int| 0 <= j < sequence_tokens(lists[k]@, merge_size) implies #[trigger] covered(
        spans,
        j,
    ) by {
        assert(spans[0].0 <= j < spans[0].1);
    }
}

impl VisionEmbeddingMeta {
    /// Describes the images of the sequences `before`, of which each gets placeholders for its own.
    pub open spec fn describes(
        self,
        before: Seq<Sequence>,
        lists: Seq<Vec<PreparedImage>>,
        merge_size: usize,
    ) -> bool {
        let images = all_images(lists);
        &&& is_cat(self.pixel_values, all_pixels(images))
        &&& tensor_shape(self.image_grid_thw) == seq![images.len() as usize, 3]
        &&& tensor_elems(self.image_grid_thw) == all_grids(images).map_values(|x: u32| x as u64)
        &&& tensor_type(self.image_grid_thw) == ElemType::U32
        &&& lengths_and_spans(
            self.seqlens@,
            self.continuous_img_pad@,
            before,
            lists,
            merge_size,
        )
        &&& self.image_hashes@ == all_hashes(before)
    }
}

impl EmbeddingInputsProcessor {
    /// The merge size of the image preprocessing: two where none is configured.
    pub open spec fn merge_size(self) -> usize {
        match self.vision_preprocessor_config {
            Some(config) => match config.merge_size {
                Some(merge_size) => merge_size,
                None => 2,
            },
            None => 2,
        }
    }

    /// Vision is configured, and a sequence was made with images.
    pub open spec fn wants_vision(self, seqs: Seq<Sequence>) -> bool {
        &&& self.vision_image_token_id is Some
        &&& exists|i: int| 0 <= i < seqs.len() && (#[trigger] seqs[i]).has_images
    }

    /// Images are wanted as soon as vision is configured and one sequence was made with images,
    /// wherever it stands and whatever the others are, and not otherwise.
    pub proof fn lemma_one_sequence_with_images_is_enough(self, seqs: Seq<Sequence>)
        ensures
            forall|k: int|
                0 <= k < seqs.len() && (#[trigger] seqs[k]).has_images && self.vision_image_token_id
                    is Some ==> self.wants_vision(seqs),
            (forall|k: int| 0 <= k < seqs.len() ==> !(#[trigger] seqs[k]).has_images)
                ==> !self.wants_vision(seqs),
            self.vision_image_token_id is None ==> !self.wants_vision(seqs),
    {
    }

    /// The merge size is the configured one, and two where none is.
    pub proof fn lemma_merge_size(self)
        ensures
            self.vision_preprocessor_config is None ==> self.merge_size() == 2,
            self.vision_preprocessor_config matches Some(config) ==> (config.merge_size is None
                ==> self.merge_size() == 2),
            self.vision_preprocessor_config matches Some(config) ==> (config.merge_size matches Some(
                m,
            ) ==> self.merge_size() == m),
    {
    }

    /// What the preprocessing gave fits the sequences, and what is made of it fits in `usize`.
    pub open spec fn accepts(self, seqs: Seq<Sequence>, prepared: PreparedImages) -> bool {
        let lists = prepared.per_sequence@;
        &&& placeholders_fit(seqs, lists, self.merge_size())
        &&& prepared.failure is Some ==> lists.len() < seqs.len()
        &&& prepared.failure is None ==> lists.len() == seqs.len() && cat_sized(
            all_pixels(all_images(lists)),
        )
    }

    /// What comes out for the sequences `before`, which are afterwards `after`.
    ///
    /// Without vision there is nothing to describe, and nothing changes. With it, every sequence
    /// that was preprocessed gets its placeholders. A failure of the preprocessing is handed on.
    /// Where there is no image at all there is nothing to describe; otherwise the images are
    /// described, unless their patches do not fit together or the device gives up.
    pub open spec fn vision_outcome(
        self,
        before: Seq<Sequence>,
        after: Seq<Sequence>,
        prepared: PreparedImages,
        device: Device,
        res: Result<Option<VisionEmbeddingMeta>, EmbeddingError>,
    ) -> bool {
        let lists = prepared.per_sequence@;
        let pixels = all_pixels(all_images(lists));
        if !self.wants_vision(before) {
            res == Ok::<_, EmbeddingError>(None::<VisionEmbeddingMeta>) && after == before
        } else {
            &&& placeholders_placed(
                before,
                after,
                lists,
                self.vision_image_token_id->0,
                self.merge_size(),
            )
            &&& match prepared.failure {
                Some(e) => res == Err::<Option<VisionEmbeddingMeta>, _>(
                    EmbeddingError::Preprocess(e),
                ),
                None => if pixels.len() == 0 {
                    res == Ok::<_, EmbeddingError>(None::<VisionEmbeddingMeta>)
                } else {
                    match res {
                        Ok(Some(meta)) => {
                            &&& meta.describes(before, lists, self.merge_size())
                            &&& can_cat(pixels)
                            &&& tensor_device(meta.image_grid_thw) == device
                        },
                        Ok(None) => false,
                        Err(e) => {
                            &&& e is Tensor
                            &&& !(can_cat(pixels) && all_plain_on_cpu(pixels) && device_on_cpu(
                                device,
                            ))
                        },
                    }
                },
            }
        }
    }

    /// Whether vision is configured and a sequence was made with images: whether there is anything
    /// to preprocess.
    pub fn needs_images(&self, input_seqs: &Vec<Sequence>) -> (res: bool)
        ensures
            res == self.wants_vision(input_seqs@),
    {
        if self.vision_image_token_id.is_none() {
            return false;
        }
        for i in 0..input_seqs.len()
            invariant
                self.vision_image_token_id is Some,
                forall|k: int| 0 <= k < i ==> !(#[trigger] input_seqs@[k]).has_images,
        {
            if input_seqs[i].has_images {
                assert(input_seqs@[i as int].has_images);
                return true;
            }
        }
        false
    }

    /// Whether what the preprocessing gave fits the sequences, and what is made of it fits in `usize`.
    pub(crate) fn does_accept(&self, input_seqs: &Vec<Sequence>, prepared: &PreparedImages) -> (res:
        bool)
        ensures
            res == self.accepts(input_seqs@, *prepared),
    {
        let lists = &prepared.per_sequence;
        if lists.len() > input_seqs.len() {
            return false;
        }
        let merge_size = self.configured_merge_size();
        let mut pixels: Vec<Tensor> = Vec::new();
        let mut grids: Vec<u32> = Vec::new();
        for i in 0..lists.len()
            invariant
                *lists == prepared.per_sequence,
                lists@.len() <= input_seqs@.len(),
                merge_size == self.merge_size(),
                placeholders_fit(input_seqs@, lists@.take(i as int), merge_size),
                pixels@ == all_pixels(all_images(lists@.take(i as int))),
                grids@ == all_grids(all_images(lists@.take(i as int))),
        {
            let ghost done = lists@.take(i as int);
            assert(lists@.take(i + 1).drop_last() =~= done);
            let n = match count_tokens(&lists[i], merge_size) {
                Some(n) => n,
                None => {
                    assert(!tokens_fit(lists@[i as int]@, merge_size));
                    return false;
                },
            };
            if input_seqs[i].toks.len().checked_add(n).is_none() {
                assert(input_seqs@[i as int].toks@.len() + sequence_tokens(
                    lists@[i as int]@,
                    merge_size,
                ) > usize::MAX);
                return false;
            }
            append_images(&lists[i], &mut pixels, &mut grids, Ghost(all_images(done)));
        }
        assert(lists@.take(lists@.len() as int) =~= lists@);
        if prepared.failure.is_some() {
            lists.len() < input_seqs.len()
        } else {
            lists.len() == input_seqs.len() && cat_fits(&pixels)
        }
    }

    /// The merge size of the image preprocessing: two where none is configured.
    pub(crate) fn configured_merge_size(&self) -> (res: usize)
        ensures
            res == self.merge_size(),
    {
        match &self.vision_preprocessor_config {
            Some(config) => match config.merge_size {
                Some(merge_size) => merge_size,
                None => 2,
            },
            None => 2,
        }
    }

    /// Puts placeholder tokens for its images at the head of each token stream, so that there is
    /// room for the rows that the vision tower gives, and describes the images to the model. There
    /// is nothing to describe, and nothing changes, where vision is not configured or no sequence
    /// has images. Where the preprocessing of a sequence failed, the sequences before it have got
    /// their placeholders.
    pub fn build_vision_meta(
        &self,
        input_seqs: &mut Vec<Sequence>,
        prepared: PreparedImages,
        device: &Device,
    ) -> (res: Result<Option<VisionEmbeddingMeta>, EmbeddingError>)
        requires
            self.wants_vision(old(input_seqs)@) ==> self.accepts(old(input_seqs)@, prepared),
        ensures
            self.vision_outcome(old(input_seqs)@, final(input_seqs)@, prepared, *device, res),
    {
        if !self.needs_images(input_seqs) {
            return Ok(None);
        }
        let image_token_id = match self.vision_image_token_id {
            Some(token) => token,
            None => return Ok(None),
        };
        let merge_size = self.configured_merge_size();
        let ghost before = input_seqs@;
        let layout = place_images(input_seqs, &prepared.per_sequence, image_token_id, merge_size);
        let ghost images = all_images(prepared.per_sequence@);
        if let Some(e) = prepared.failure {
            return Err(EmbeddingError::Preprocess(e));
        }
        assert(before.take(before.len() as int) =~= before);
        if layout.pixels.len() == 0 {
            return Ok(None);
        }
        let pixel_values = match join(&layout.pixels) {
            Ok(t) => t,
            Err(e) => return Err(EmbeddingError::Tensor(e)),
        };
        let shape: Vec<usize> = vec![layout.pixels.len(), 3];
        proof {
            lemma_grid_count(images);
            assert(layout.grids.len() <= usize::MAX);
            lemma_rank_2(images.len() as usize, 3, 0, 0);
            assert(shape@ =~= seq![images.len() as usize, 3]);
        }
        let image_grid_thw = match from_vec(layout.grids, shape, device) {
            Ok(t) => t,
            Err(e) => return Err(EmbeddingError::Tensor(e)),
        };
        Ok(
            Some(
                VisionEmbeddingMeta {
                    pixel_values,
                    image_grid_thw,
                    seqlens: layout.seqlens,
                    continuous_img_pad: layout.spans,
                    image_hashes: layout.hashes,
                },
            ),
        )
    }
}

} // verus!
