//! Positions and attention lengths as the text model takes them.

use candle_core::{Device, Tensor};
use vstd::prelude::*;

use crate::error::EmbeddingError;
use crate::shape::{
    count, fits, in_shape, lemma_count_last, lemma_offset_2, lemma_rank_1, lemma_rank_2,
    lemma_rank_3, repeated_index, sized, span,
};
use crate::tensor::{
    arange, at, broadcast_as, cat_elems, contiguous, device, device_on_cpu, dim, dims, dims2,
    dtype, elem_type, fits_as, lemma_cat_elems, new_row, reshape, reshape_rows, stack,
    starts_in_storage, tensor_device, tensor_elems, tensor_on_cpu, tensor_shape, tensor_type,
    to_dtype, ElemType,
};

verus! {

/// The number of channels in which rotary embeddings take positions: time, height and width.
pub const POSITION_CHANNELS: usize = 3;

/// Position ids that count the tokens of each stream from zero, alike in every channel.
pub open spec fn counts_tokens(t: Tensor, batch_size: usize, seq_len: usize) -> bool {
    &&& tensor_shape(t) == seq![POSITION_CHANNELS, batch_size, seq_len]
    &&& tensor_type(t) == ElemType::I64
    &&& forall|idx: Seq<int>|
        in_shape(tensor_shape(t), idx) ==> #[trigger] at(t, idx) == idx[2] as u64
}

/// The position ids of a matrix of token ids can be addressed.
pub open spec fn positions_sized(input_ids: Tensor) -> bool {
    tensor_shape(input_ids).len() == 2 ==> sized(
        seq![POSITION_CHANNELS, tensor_shape(input_ids)[0], tensor_shape(input_ids)[1]],
        8,
    )
}

/// What comes out for the position ids of a batch without images.
pub open spec fn positions_outcome(
    input_ids: Tensor,
    res: Result<Tensor, EmbeddingError>,
) -> bool {
    match res {
        Ok(t) => {
            &&& tensor_shape(input_ids).len() == 2
            &&& counts_tokens(t, tensor_shape(input_ids)[0], tensor_shape(input_ids)[1])
            &&& tensor_device(t) == tensor_device(input_ids)
        },
        Err(e) => e is Tensor && (tensor_shape(input_ids).len() != 2 || !tensor_on_cpu(input_ids)),
    }
}

/// The position ids of a batch without images: there is no image span to shift positions around.
/// The token ids have to be a matrix.
pub fn text_position_ids(input_ids: &Tensor) -> (res: Result<Tensor, EmbeddingError>)
    requires
        positions_sized(*input_ids),
    ensures
        positions_outcome(*input_ids, res),
{
    let (bs, seq_len) = match dims2(input_ids) {
        Ok(d) => d,
        Err(e) => return Err(EmbeddingError::Tensor(e)),
    };
    proof {
        lemma_rank_3(POSITION_CHANNELS, bs, seq_len, 0, 0, 0);
        lemma_rank_3(1, 1, seq_len, 0, 0, 0);
        lemma_rank_1(seq_len, 0);
        let (b, s) = (
            if bs == 0 {
                1
            } else {
                bs as int
            },
            if seq_len == 0 {
                1
            } else {
                seq_len as int
            },
        );
        assert(s * 8 <= (3 * (b * s)) * 8) by (nonlinear_arith)
            requires
                b >= 1,
                s >= 1,
        ;
    }
    let row = match arange(seq_len, &device(input_ids)) {
        Ok(t) => t,
        Err(e) => return Err(EmbeddingError::Tensor(e)),
    };
    let shaped = match reshape(&row, 1, 1, seq_len) {
        Ok(t) => t,
        Err(e) => return Err(EmbeddingError::Tensor(e)),
    };
    let repeated = match broadcast_as(&shaped, POSITION_CHANNELS, bs, seq_len) {
        Ok(t) => t,
        Err(e) => return Err(EmbeddingError::Tensor(e)),
    };
    match contiguous(&repeated) {
        Ok(t) => {
            proof {
                assert forall|idx: Seq<int>| in_shape(tensor_shape(t), idx) implies #[trigger] at(
                    t,
                    idx,
                ) == idx[2] as u64 by {
                    assert(at(t, idx) == at(repeated, idx));
                    assert(0 <= idx[2] < tensor_shape(t)[2]);
                    let from = repeated_index(tensor_shape(shaped), idx);
                    assert(from =~= seq![0, 0, if seq_len == 1 { 0 } else { idx[2] }]);
                    lemma_rank_3(1, 1, seq_len, 0, 0, from[2]);
                    assert(0 * (1 * seq_len) + (0 * seq_len + from[2]) == from[2]);
                }
            }
            Ok(t)
        },
        Err(e) => Err(EmbeddingError::Tensor(e)),
    }
}

/// As [`text_position_ids`], or nothing where the position ids cannot be addressed.
pub fn text_position_ids_checked(input_ids: &Tensor) -> (res: Option<
    Result<Tensor, EmbeddingError>,
>)
    ensures
        match res {
            Some(r) => positions_sized(*input_ids) && positions_outcome(*input_ids, r),
            None => !positions_sized(*input_ids),
        },
{
    let ids = dims(input_ids);
    if ids.len() == 2 {
        let shape: Vec<usize> = vec![POSITION_CHANNELS, ids[0], ids[1]];
        assert(shape@ =~= seq![POSITION_CHANNELS, ids@[0], ids@[1]]);
        if !fits(&shape, 8) {
            return None;
        }
    }
    Some(text_position_ids(input_ids))
}

/// The largest of several lengths.
pub open spec fn widest(lens: Seq<usize>) -> nat
    decreases lens.len(),
{
    if lens.len() == 0 {
        0
    } else if lens.last() > widest(lens.drop_last()) {
        lens.last() as nat
    } else {
        widest(lens.drop_last())
    }
}

/// No length exceeds the largest.
pub proof fn lemma_widest(lens: Seq<usize>, i: int)
    requires
        0 <= i < lens.len(),
    ensures
        lens[i] <= widest(lens),
    decreases lens.len(),
{
    if i < lens.len() - 1 {
        lemma_widest(lens.drop_last(), i);
    }
}

/// The largest of several lengths is one of them: the one at the position that comes back.
pub proof fn lemma_widest_is_attained(lens: Seq<usize>) -> (res: int)
    requires
        lens.len() > 0,
    ensures
        0 <= res < lens.len(),
        lens[res] == widest(lens),
    decreases lens.len(),
{
    let n = lens.len() - 1;
    if lens[n] > widest(lens.drop_last()) || n == 0 {
        n
    } else {
        lemma_widest_is_attained(lens.drop_last())
    }
}

/// Position ids count the tokens of each stream from zero, in each of the channels alike.
pub proof fn lemma_positions_count(
    t: Tensor,
    batch_size: usize,
    seq_len: usize,
    channel: int,
    stream: int,
    token: int,
)
    requires
        counts_tokens(t, batch_size, seq_len),
        0 <= channel < 3,
        0 <= stream < batch_size,
        0 <= token < seq_len,
    ensures
        tensor_shape(t) == seq![3usize, batch_size, seq_len],
        tensor_type(t) == ElemType::I64,
        tensor_elems(t)[channel * (batch_size * seq_len) + (stream * seq_len + token)] == token,
{
    let idx = seq![channel, stream, token];
    assert(in_shape(tensor_shape(t), idx));
    lemma_rank_3(POSITION_CHANNELS, batch_size, seq_len, channel, stream, token);
    assert(at(t, idx) == idx[2] as u64);
}

/// The mask of lengths is one on the tokens of each stream and zero behind them, and as wide as the
/// longest stream.
pub proof fn lemma_mask_marks_lengths(t: Tensor, lens: Seq<usize>, i: int, j: int)
    requires
        marks_lengths(t, lens),
        lens.len() <= usize::MAX,
        0 <= i < lens.len(),
        0 <= j < widest(lens),
    ensures
        tensor_shape(t).len() == 2,
        tensor_shape(t)[0] == lens.len(),
        tensor_shape(t)[1] == widest(lens),
        tensor_type(t) == ElemType::F32,
        j < lens[i] ==> tensor_elems(t)[i * widest(lens) + j] == ElemType::F32.one(),
        j >= lens[i] ==> tensor_elems(t)[i * widest(lens) + j] == 0,
{
    let k = lemma_widest_is_attained(lens);
    let idx = seq![i, j];
    assert(in_shape(tensor_shape(t), idx));
    lemma_rank_2(lens.len() as usize, widest(lens) as usize, i, j);
    assert(at(t, idx) == tensor_elems(t)[i * widest(lens) + j]);
}

/// The attention lengths can be addressed as a matrix of 32-bit numbers.
pub open spec fn lengths_sized(lens: Seq<usize>) -> bool {
    sized(seq![lens.len() as usize, widest(lens) as usize], 4)
}

/// Whether the attention lengths can be addressed as a matrix of 32-bit numbers.
pub(crate) fn lengths_fit_memory(lens: &Vec<usize>) -> (res: bool)
    ensures
        res == lengths_sized(lens@),
{
    let shape: Vec<usize> = vec![lens.len(), max_len(lens)];
    assert(shape@ =~= seq![lens@.len() as usize, widest(lens@) as usize]);
    fits(&shape, 4)
}

/// A matrix with one row per stream that is one on the tokens of the stream and zero behind them.
pub open spec fn marks_lengths(t: Tensor, lens: Seq<usize>) -> bool {
    &&& tensor_shape(t) == seq![lens.len() as usize, widest(lens) as usize]
    &&& tensor_type(t) == ElemType::F32
    &&& forall|idx: Seq<int>|
        in_shape(tensor_shape(t), idx) ==> #[trigger] at(t, idx) == if idx[1] < lens[idx[0]] {
            ElemType::F32.one()
        } else {
            0
        }
}

/// The largest of several lengths.
fn max_len(lens: &Vec<usize>) -> (res: usize)
    ensures
        res == widest(lens@),
{
    let mut res: usize = 0;
    for i in 0..lens.len()
        invariant
            res == widest(lens@.take(i as int)),
    {
        assert(lens@.take(i + 1).drop_last() =~= lens@.take(i as int));
        if lens[i] > res {
            res = lens[i];
        }
    }
    assert(lens@.take(lens@.len() as int) =~= lens@);
    res
}

/// A row of `len` ones followed by zeros.
fn length_row(len: usize, width: usize) -> (res: Vec<u32>)
    requires
        len <= width,
    ensures
        res@ == Seq::new(
            width as nat,
            |j: int|
                if j < len {
                    1u32
                } else {
                    0u32
                },
        ),
{
    let mut res: Vec<u32> = Vec::with_capacity(width);
    for j in 0..width
        invariant
            res@.len() == j,
            forall|k: int| 0 <= k < j ==> res@[k] == if k < len { 1u32 } else { 0u32 },
    {
        res.push(
            if j < len {
                1
            } else {
                0
            },
        );
    }
    res
}

/// The attention lengths of a batch as a matrix: a row of ones for each stream, filled up with zeros
/// to the longest. There has to be a stream.
pub fn length_mask(seqlens: &Vec<usize>, ids_device: &Device) -> (res: Result<
    Tensor,
    EmbeddingError,
>)
    requires
        lengths_sized(seqlens@),
    ensures
        match res {
            Ok(t) => {
                &&& seqlens@.len() > 0
                &&& marks_lengths(t, seqlens@)
                &&& tensor_device(t) == *ids_device
            },
            Err(e) => e is Tensor && (seqlens@.len() == 0 || !device_on_cpu(*ids_device)),
        },
{
    let width = max_len(seqlens);
    let mut rows: Vec<Tensor> = Vec::with_capacity(seqlens.len());
    proof {
        lemma_rank_1(width, 0);
        lemma_rank_2(seqlens@.len() as usize, width, 0, 0);
    }
    let ghost row_span = span(seq![width]);
    for i in 0..seqlens.len()
        invariant
            width == widest(seqlens@),
            row_span == span(seq![width]),
            seqlens@.len() * row_span * 4 <= isize::MAX,
            rows@.len() == i,
            forall|k: int|
                0 <= k < i ==> {
                    &&& tensor_shape(#[trigger] rows@[k]) == seq![width]
                    &&& tensor_elems(rows@[k]).len() == width
                    &&& forall|j: int|
                        0 <= j < width ==> #[trigger] tensor_elems(rows@[k])[j] == if j < seqlens@[k] {
                            ElemType::F32.one()
                        } else {
                            0
                        }
                    &&& tensor_type(rows@[k]) == ElemType::F32
                    &&& tensor_device(rows@[k]) == *ids_device
                    &&& starts_in_storage(rows@[k])
                },
    {
        proof {
            lemma_widest(seqlens@, i as int);
            assert(row_span * 4 <= seqlens@.len() * row_span * 4) by (nonlinear_arith)
                requires
                    seqlens@.len() >= 1,
            ;
        }
        let flags = match new_row(length_row(seqlens[i], width), ids_device) {
            Ok(t) => t,
            Err(e) => return Err(EmbeddingError::Tensor(e)),
        };
        match to_dtype(&flags, dtype(ElemType::F32)) {
            Ok(t) => rows.push(t),
            Err(e) => return Err(EmbeddingError::Tensor(e)),
        }
    }
    proof {
        assert forall|i: int| 0 <= i < rows@.len() implies sized(
            tensor_shape(#[trigger] rows@[i]),
            tensor_type(rows@[i]).bytes(),
        ) by {
            assert(row_span * 4 <= seqlens@.len() * row_span * 4) by (nonlinear_arith)
                requires
                    seqlens@.len() >= 1,
            ;
        }
        lemma_cat_elems(rows@, width as nat);
    }
    match stack(&rows) {
        Ok(t) => {
            proof {
                let n = seqlens@.len() as usize;
                assert(tensor_shape(t) =~= seq![n, width]);
                assert forall|idx: Seq<int>| in_shape(tensor_shape(t), idx) implies #[trigger] at(
                    t,
                    idx,
                ) == if idx[1] < seqlens@[idx[0]] {
                    ElemType::F32.one()
                } else {
                    0
                } by {
                    lemma_offset_2(n, width, idx);
                    assert(cat_elems(rows@)[idx[0] * width + idx[1]] == tensor_elems(
                        rows@[idx[0]],
                    )[idx[1]]);
                }
            }
            Ok(t)
        },
        Err(e) => Err(EmbeddingError::Tensor(e)),
    }
}

/// Patches as the rows of a matrix.
pub open spec fn is_flattened(t: Tensor, pixels: Tensor) -> bool {
    if tensor_shape(pixels).len() <= 2 {
        t == pixels
    } else {
        &&& tensor_shape(t) == seq![
            count(tensor_shape(pixels).drop_last()) as usize,
            tensor_shape(pixels).last(),
        ]
        &&& tensor_elems(t) == tensor_elems(pixels)
        &&& tensor_type(t) == tensor_type(pixels)
        &&& tensor_device(t) == tensor_device(pixels)
    }
}

/// Folding keeps every patch: the rows are as long as the patches were, there are as many of them as
/// elements allow, and the elements stay in order. Up to two dimensions nothing changes.
pub proof fn lemma_folding_keeps_patches(t: Tensor, pixels: Tensor)
    requires
        is_flattened(t, pixels),
        count(tensor_shape(pixels)) <= usize::MAX,
    ensures
        tensor_elems(t) == tensor_elems(pixels),
        tensor_type(t) == tensor_type(pixels),
        tensor_device(t) == tensor_device(pixels),
        tensor_shape(pixels).len() <= 2 ==> t == pixels,
        tensor_shape(pixels).len() > 2 && tensor_shape(pixels).last() > 0 ==> {
            &&& tensor_shape(t).len() == 2
            &&& tensor_shape(t)[1] == tensor_shape(pixels).last()
            &&& tensor_shape(t)[0] * tensor_shape(t)[1] == count(tensor_shape(pixels))
        },
{
    let shape = tensor_shape(pixels);
    if shape.len() > 2 && shape.last() > 0 {
        lemma_count_last(shape);
        let (rows, last) = (count(shape.drop_last()) as int, shape.last() as int);
        assert(rows <= rows * last) by (nonlinear_arith)
            requires
                rows >= 0,
                last >= 1,
        ;
    }
}

/// What comes out of folding the dimensions of the patches.
pub open spec fn flatten_outcome(pixels: Tensor, res: Result<Tensor, EmbeddingError>) -> bool {
    match res {
        Ok(t) => {
            &&& is_flattened(t, pixels)
            &&& tensor_shape(pixels).len() > 2 ==> tensor_shape(pixels).last() > 0
        },
        Err(e) => {
            &&& e is Tensor
            &&& tensor_shape(pixels).len() > 2
            &&& tensor_shape(pixels).last() == 0 || !(tensor_on_cpu(pixels) && tensor_type(
                pixels,
            ).is_plain())
        },
    }
}

/// Folds all the dimensions of the patches but the last into one. Up to two dimensions nothing
/// changes. Patches of size zero cannot be told apart any more, so they are refused.
pub fn flatten_pixels(pixel_values: &Tensor) -> (res: Result<Tensor, EmbeddingError>)
    requires
        sized(tensor_shape(*pixel_values), tensor_type(*pixel_values).bytes()),
    ensures
        flatten_outcome(*pixel_values, res),
{
    let ndim = dims(pixel_values).len();
    if ndim <= 2 {
        return Ok(pixel_values.clone());
    }
    let last = match dim(pixel_values, ndim - 1) {
        Ok(d) => d,
        Err(e) => return Err(EmbeddingError::Tensor(e)),
    };
    proof {
        let shape = tensor_shape(*pixel_values);
        lemma_count_last(shape);
        if last > 0 {
            vstd::arithmetic::div_mod::lemma_mod_multiples_basic(
                count(shape.drop_last()) as int,
                last as int,
            );
            vstd::arithmetic::div_mod::lemma_div_multiples_vanish(
                count(shape.drop_last()) as int,
                last as int,
            );
            assert(count(shape.drop_last()) * last == last * count(shape.drop_last()))
                by (nonlinear_arith);
        }
    }
    match reshape_rows(pixel_values, last) {
        Ok(t) => Ok(t),
        Err(e) => Err(EmbeddingError::Tensor(e)),
    }
}

/// As [`flatten_pixels`], or nothing where the patches cannot be addressed.
pub fn flatten_pixels_checked(pixel_values: &Tensor) -> (res: Option<
    Result<Tensor, EmbeddingError>,
>)
    ensures
        match res {
            Some(r) => sized(tensor_shape(*pixel_values), tensor_type(*pixel_values).bytes())
                && flatten_outcome(*pixel_values, r),
            None => !sized(tensor_shape(*pixel_values), tensor_type(*pixel_values).bytes()),
        },
{
    if fits_as(pixel_values, elem_type(pixel_values)) {
        Some(flatten_pixels(pixel_values))
    } else {
        None
    }
}

} // verus!
