//! Prompt tokens of several sequences as one rectangular tensor.

use candle_core::{Device, Tensor};
use vstd::prelude::*;

use crate::error::EmbeddingError;
use crate::sequence::Sequence;
use crate::shape::{in_shape, lemma_rank_1, lemma_rank_2, span};
use crate::tensor::{
    at, can_cat, cat, cat_elems, cat_rows, cat_sized, device_on_cpu, from_vec, is_cat,
    lemma_cat_elems, new_row, rows, starts_in_storage, tensor_device, tensor_elems, tensor_shape,
    tensor_type, unsqueeze, ElemType,
};

verus! {

/// What attention kernels with variable sequence lengths have to be told of a batch.
#[derive(Clone, Debug)]
pub enum FlashParams {
    /// Such kernels are not in use.
    Empty { causal: bool },
    /// The lengths of the queries and of the keys, each list led by a zero.
    Lengths {
        seqlens_q: Vec<u32>,
        seqlens_k: Vec<u32>,
        sliding_window: Option<usize>,
        causal: bool,
    },
}

/// A batch of token ids and what the attention kernels have to be told of it.
pub struct InputMetadata {
    pub input: Tensor,
    pub flash_meta: FlashParams,
}

/// A batch together with the positions of its sequences.
pub struct InnerInputProcessorOutput {
    pub inputs: InputMetadata,
    pub seq_indices: Vec<usize>,
}

/// The token lists behind a vector of slices.
pub open spec fn token_rows(toks: Seq<&[u32]>) -> Seq<Seq<u32>> {
    Seq::new(toks.len(), |i: int| toks[i]@)
}

/// The length of the longest of several lists.
pub open spec fn longest(lists: Seq<Seq<u32>>) -> nat
    decreases lists.len(),
{
    if lists.len() == 0 {
        0
    } else if lists.last().len() > longest(lists.drop_last()) {
        lists.last().len()
    } else {
        longest(lists.drop_last())
    }
}

/// The lists, filled up to the length of the longest, can be addressed as one batch of 32-bit items.
pub open spec fn batch_fits(lists: Seq<Seq<u32>>) -> bool {
    lists.len() * (if longest(lists) == 0 {
        1
    } else {
        longest(lists)
    }) * 4 <= isize::MAX
}

/// A list filled up with `pad` to a given length.
pub open spec fn padded(list: Seq<u32>, len: nat, pad: u32) -> Seq<u32> {
    Seq::new(
        len,
        |j: int|
            if j < list.len() {
                list[j]
            } else {
                pad
            },
    )
}

/// A matrix of token ids with one list per row, each filled up with zeros to the same width.
pub open spec fn is_padded_batch(t: Tensor, lists: Seq<Seq<u32>>, width: nat) -> bool {
    &&& tensor_shape(t) == seq![lists.len() as usize, width as usize]
    &&& tensor_elems(t).len() == lists.len() * width
    &&& tensor_type(t) == ElemType::U32
    &&& forall|idx: Seq<int>|
        in_shape(tensor_shape(t), idx) ==> #[trigger] at(t, idx) == padded(
            lists[idx[0]],
            width,
            0,
        )[idx[1]]
}

/// The lengths that are reported for `n` rows of one length: a zero, then that length for each row.
pub open spec fn row_lengths(n: nat, len: u32) -> Seq<u32> {
    Seq::new(
        n + 1,
        |i: int|
            if i == 0 {
                0
            } else {
                len
            },
    )
}

/// What is reported of a batch of `n` rows of width `width`, of which each row follows on
/// `offset_toks` earlier tokens.
pub open spec fn describes_batch(
    meta: FlashParams,
    flash_attn: bool,
    n: nat,
    width: nat,
    offset_toks: usize,
    window: Option<usize>,
    is_causal: bool,
) -> bool {
    match meta {
        FlashParams::Empty { causal } => !flash_attn && causal == is_causal,
        FlashParams::Lengths { seqlens_q, seqlens_k, sliding_window, causal } => {
            &&& flash_attn
            &&& seqlens_q@ == row_lengths(n, (width as usize) as u32)
            &&& seqlens_k@ == row_lengths(n, ((width + offset_toks) as usize) as u32)
            &&& sliding_window == window
            &&& causal == is_causal
        },
    }
}

/// No list is longer than the longest.
pub proof fn lemma_longest(lists: Seq<Seq<u32>>, i: int)
    requires
        0 <= i < lists.len(),
    ensures
        lists[i].len() <= longest(lists),
    decreases lists.len(),
{
    if i < lists.len() - 1 {
        lemma_longest(lists.drop_last(), i);
    }
}

/// The longest of several lists is as long as one of them: the one at the position that comes back.
pub proof fn lemma_longest_is_attained(lists: Seq<Seq<u32>>) -> (res: int)
    requires
        lists.len() > 0,
    ensures
        0 <= res < lists.len(),
        lists[res].len() == longest(lists),
    decreases lists.len(),
{
    let n = lists.len() - 1;
    if lists[n].len() > longest(lists.drop_last()) || n == 0 {
        n
    } else {
        lemma_longest_is_attained(lists.drop_last())
    }
}

/// The token lists of a batch are those that are handed in, all of them and each as it is.
pub proof fn lemma_token_rows(toks: Seq<&[u32]>, i: int)
    requires
        0 <= i < toks.len(),
    ensures
        token_rows(toks).len() == toks.len(),
        token_rows(toks)[i] == toks[i]@,
{
}

/// A list that is filled up keeps its items in front and holds nothing but padding behind them.
pub proof fn lemma_padded(list: Seq<u32>, len: nat, pad: u32, j: int)
    requires
        0 <= j < len,
    ensures
        padded(list, len, pad).len() == len,
        j < list.len() ==> padded(list, len, pad)[j] == list[j],
        j >= list.len() ==> padded(list, len, pad)[j] == pad,
{
}

/// A batch holds every token of every list, each list in its own row from the front on, and zeros
/// behind it. The row of list `i` starts at `i` times the length of the longest list.
pub proof fn lemma_batch_holds_every_token(t: Tensor, lists: Seq<Seq<u32>>, i: int, j: int)
    requires
        is_padded_batch(t, lists, longest(lists)),
        lists.len() <= usize::MAX,
        longest(lists) <= usize::MAX,
        0 <= i < lists.len(),
        0 <= j < longest(lists),
    ensures
        tensor_shape(t).len() == 2,
        tensor_shape(t)[0] == lists.len(),
        tensor_shape(t)[1] == longest(lists),
        tensor_type(t) == ElemType::U32,
        tensor_elems(t).len() == lists.len() * longest(lists),
        j < lists[i].len() ==> tensor_elems(t)[i * longest(lists) + j] == lists[i][j],
        j >= lists[i].len() ==> tensor_elems(t)[i * longest(lists) + j] == 0,
{
    let width = longest(lists) as usize;
    let idx = seq![i, j];
    assert(in_shape(tensor_shape(t), idx));
    lemma_rank_2(lists.len() as usize, width, i, j);
    assert(at(t, idx) == tensor_elems(t)[i * width + j]);
}

/// Lists of at most `len` items make a batch wherever so many rows of one item more can be addressed.
pub proof fn lemma_short_lists_fit(lists: Seq<Seq<u32>>, len: nat)
    requires
        forall|i: int| 0 <= i < lists.len() ==> (#[trigger] lists[i]).len() <= len,
        lists.len() * (len + 1) * 4 <= isize::MAX,
    ensures
        batch_fits(lists),
{
    if lists.len() > 0 {
        let i = lemma_longest_is_attained(lists);
        let width = if longest(lists) == 0 {
            1
        } else {
            longest(lists)
        };
        assert(lists.len() * width * 4 <= lists.len() * (len + 1) * 4) by (nonlinear_arith)
            requires
                width <= len + 1,
        ;
    }
}

/// What attention kernels are told of a batch: a zero in front, then for each row its length as
/// queries, and that length with what the row follows on as keys.
pub proof fn lemma_kernels_are_told_lengths(
    meta: FlashParams,
    n: nat,
    width: nat,
    offset_toks: usize,
    window: Option<usize>,
    is_causal: bool,
    i: int,
)
    requires
        describes_batch(meta, true, n, width, offset_toks, window, is_causal),
        width + offset_toks <= u32::MAX,
        0 <= i < n,
    ensures
        meta matches FlashParams::Lengths { seqlens_q, seqlens_k, sliding_window, causal } && {
            &&& seqlens_q@.len() == n + 1
            &&& seqlens_k@.len() == n + 1
            &&& seqlens_q@[0] == 0
            &&& seqlens_k@[0] == 0
            &&& seqlens_q@[i + 1] == width
            &&& seqlens_k@[i + 1] == width + offset_toks
            &&& sliding_window == window
            &&& causal == is_causal
        },
{
}

/// Attention kernels that are not in use are told only whether attention is causal.
pub proof fn lemma_unused_kernels_are_told_nothing(
    meta: FlashParams,
    n: nat,
    width: nat,
    offset_toks: usize,
    window: Option<usize>,
    is_causal: bool,
)
    requires
        describes_batch(meta, false, n, width, offset_toks, window, is_causal),
    ensures
        meta == (FlashParams::Empty { causal: is_causal }),
{
}

/// Tensors with equally many rows.
proof fn lemma_cat_rows(ts: Seq<Tensor>, each: nat)
    requires
        forall|i: int| 0 <= i < ts.len() ==> rows(#[trigger] ts[i]) == each,
    ensures
        cat_rows(ts) == ts.len() * each,
    decreases ts.len(),
{
    if ts.len() > 0 {
        lemma_cat_rows(ts.drop_last(), each);
        assert(ts.len() * each == (ts.len() - 1) * each + each) by (nonlinear_arith);
    }
}

/// Tensors that hold one filled-up list each.
spec fn hold_padded_rows(ts: Seq<Tensor>, lists: Seq<Seq<u32>>, width: usize) -> bool {
    &&& ts.len() == lists.len() > 0
    &&& forall|k: int|
        0 <= k < ts.len() ==> {
            &&& tensor_shape(#[trigger] ts[k]) == seq![1usize, width]
            &&& tensor_elems(ts[k]) == padded(lists[k], width as nat, 0).map_values(
                |x: u32| x as u64,
            )
            &&& tensor_type(ts[k]) == ElemType::U32
        }
}

/// Filled-up lists can be put one below the other.
proof fn lemma_batch(ts: Seq<Tensor>, lists: Seq<Seq<u32>>, width: usize)
    requires
        hold_padded_rows(ts, lists, width),
        batch_fits(lists),
        width == longest(lists),
    ensures
        can_cat(ts),
        cat_sized(ts),
{
    lemma_cat_rows(ts, 1);
    lemma_rank_1(width, 0);
    lemma_rank_2(1, width, 0, 0);
    assert(seq![1usize, width].skip(1) =~= seq![width]);
    assert(ts.len() * 1 == ts.len());
    let row = span(seq![width]);
    assert(1 * row * 4 <= ts.len() * row * 4) by (nonlinear_arith)
        requires
            ts.len() >= 1,
    ;
    assert(cat_rows(ts) * row * 4 <= isize::MAX);
}

/// Filled-up lists, put one below the other, are a batch.
proof fn lemma_batch_result(ts: Seq<Tensor>, lists: Seq<Seq<u32>>, width: usize, t: Tensor)
    requires
        hold_padded_rows(ts, lists, width),
        ts.len() <= usize::MAX,
        is_cat(t, ts),
    ensures
        is_padded_batch(t, lists, width as nat),
{
    lemma_cat_elems(ts, width as nat);
    lemma_cat_rows(ts, 1);
    assert(seq![1usize, width].skip(1) =~= seq![width]);
    if ts.len() == 1 {
        assert(cat_elems(ts.drop_last()) =~= seq![]);
        assert(cat_elems(ts) =~= tensor_elems(ts[0]));
    }
    assert(tensor_shape(t) =~= seq![ts.len() as usize, width]);
    assert forall|idx: Seq<int>| in_shape(tensor_shape(t), idx) implies #[trigger] at(t, idx)
        == padded(lists[idx[0]], width as nat, 0)[idx[1]] by {
        let (i, j) = (idx[0], idx[1]);
        assert(idx =~= seq![i, j]);
        assert(0 <= idx[0] < tensor_shape(t)[0] && 0 <= idx[1] < tensor_shape(t)[1]);
        lemma_rank_2(ts.len() as usize, width, i, j);
        assert(cat_elems(ts)[i * width + j] == tensor_elems(ts[i])[j]);
    }
}

/// The length of the longest slice.
fn longest_len(toks: &Vec<&[u32]>) -> (res: usize)
    ensures
        res == longest(token_rows(toks@)),
{
    let mut res: usize = 0;
    let ghost lists = token_rows(toks@);
    for i in 0..toks.len()
        invariant
            lists == token_rows(toks@),
            res == longest(lists.take(i as int)),
    {
        assert(lists.take(i + 1).drop_last() =~= lists.take(i as int));
        assert(lists.take(i + 1).last() == toks@[i as int]@);
        if toks[i].len() > res {
            res = toks[i].len();
        }
    }
    assert(lists.take(lists.len() as int) =~= lists);
    res
}

/// A copy of a list, filled up with `pad` to a given length.
fn pad_row(list: &[u32], len: usize, pad: u32) -> (res: Vec<u32>)
    requires
        list@.len() <= len,
    ensures
        res@ == padded(list@, len as nat, pad),
{
    let mut res: Vec<u32> = Vec::with_capacity(len);
    for j in 0..len
        invariant
            res@.len() == j,
            forall|k: int| 0 <= k < j ==> res@[k] == padded(list@, len as nat, pad)[k],
    {
        if j < list.len() {
            res.push(list[j]);
        } else {
            res.push(pad);
        }
    }
    res
}

/// Fills each list up with `pad` to `max_len` items and puts them one after the other into a tensor
/// with one dimension. There has to be a list.
pub fn _make_tensor_with_pad(x: Vec<Vec<u32>>, max_len: usize, pad: u32, device: &Device) -> (res:
    Result<Tensor, EmbeddingError>)
    requires
        forall|i: int| 0 <= i < x@.len() ==> (#[trigger] x@[i])@.len() <= max_len,
        x@.len() * max_len * 4 <= isize::MAX,
    ensures
        res is Ok ==> x@.len() > 0,
        x@.len() > 0 && device_on_cpu(*device) ==> res is Ok,
        res matches Ok(r) ==> {
            &&& tensor_shape(r) == seq![(x@.len() * max_len) as usize]
            &&& tensor_elems(r).len() == x@.len() * max_len
            &&& forall|i: int, j: int|
                0 <= i < x@.len() && 0 <= j < max_len ==> tensor_elems(r)[i * max_len + j]
                    == #[trigger] padded(x@[i]@, max_len as nat, pad)[j]
            &&& tensor_type(r) == ElemType::U32
            &&& tensor_device(r) == *device
        },
        res matches Err(e) ==> e is Tensor,
{
    let mut padded_x: Vec<Tensor> = Vec::new();
    for i in 0..x.len()
        invariant
            forall|i: int| 0 <= i < x@.len() ==> (#[trigger] x@[i])@.len() <= max_len,
            padded_x@.len() == i,
            forall|k: int|
                0 <= k < i ==> {
                    &&& tensor_shape(#[trigger] padded_x@[k]) == seq![max_len]
                    &&& tensor_elems(padded_x@[k]) == padded(x@[k]@, max_len as nat, pad).map_values(
                        |x: u32| x as u64,
                    )
                    &&& tensor_type(padded_x@[k]) == ElemType::U32
                    &&& tensor_device(padded_x@[k]) == *device
                    &&& starts_in_storage(padded_x@[k])
                },
    {
        let row = pad_row(x[i].as_slice(), max_len, pad);
        let shape: Vec<usize> = vec![max_len];
        proof {
            lemma_rank_1(max_len, 0);
            assert(shape@ =~= seq![max_len]);
        }
        match from_vec(row, shape, device) {
            Ok(t) => padded_x.push(t),
            Err(e) => return Err(EmbeddingError::Tensor(e)),
        }
    }
    proof {
        lemma_cat_elems(padded_x@, max_len as nat);
        lemma_cat_rows(padded_x@, max_len as nat);
        assert(seq![max_len].skip(1) =~= seq![]);
        lemma_rank_1(max_len, 0);
        assert(span(Seq::<usize>::empty()) == 1);
        assert(cat_rows(padded_x@) * 1 == cat_rows(padded_x@));
        assert forall|i: int, j: int| 0 <= i < x@.len() && 0 <= j < max_len implies cat_elems(
            padded_x@,
        )[i * max_len + j] == #[trigger] padded(x@[i]@, max_len as nat, pad)[j] by {
            assert(cat_elems(padded_x@)[i * max_len + j] == tensor_elems(padded_x@[i])[j]);
        }
        if padded_x@.len() == 1 {
            assert(cat_elems(padded_x@.drop_last()) =~= seq![]);
            assert(cat_elems(padded_x@) =~= tensor_elems(padded_x@[0]));
        }
    }
    match cat(&padded_x) {
        Ok(t) => {
            assert(tensor_shape(t) =~= seq![(x@.len() * max_len) as usize]);
            Ok(t)
        },
        Err(e) => Err(EmbeddingError::Tensor(e)),
    }
}

/// Makes one batch out of the tokens of several sequences: one row per sequence, each filled up
/// with zeros to the length of the longest. `chunk_offset_toks` is the number of tokens by which
/// the chunk is offset. There has to be a sequence.
pub fn make_prompt_chunk(
    chunk_offset_toks: usize,
    toks: Vec<&[u32]>,
    device: &Device,
    flash_attn: bool,
    has_causal_attention: bool,
    sliding_window: Option<usize>,
) -> (res: Result<InputMetadata, EmbeddingError>)
    requires
        toks@.len() > 0,
        batch_fits(token_rows(toks@)),
        flash_attn ==> longest(token_rows(toks@)) + chunk_offset_toks <= usize::MAX,
    ensures
        device_on_cpu(*device) ==> res is Ok,
        res matches Ok(m) ==> {
            &&& is_padded_batch(m.input, token_rows(toks@), longest(token_rows(toks@)))
            &&& tensor_device(m.input) == *device
            &&& describes_batch(
                m.flash_meta,
                flash_attn,
                toks@.len(),
                longest(token_rows(toks@)),
                chunk_offset_toks,
                sliding_window,
                has_causal_attention,
            )
        },
        res matches Err(e) ==> e is Tensor,
{
    let max_len = longest_len(&toks);
    let ghost lists = token_rows(toks@);
    let mut seqs_tensors: Vec<Tensor> = Vec::new();
    let mut seqlens_q: Vec<u32> = Vec::new();
    let mut seqlens_k: Vec<u32> = Vec::new();
    if flash_attn {
        seqlens_q.push(0);
        seqlens_k.push(0);
    }
    for i in 0..toks.len()
        invariant
            lists == token_rows(toks@),
            max_len == longest(lists),
            flash_attn ==> max_len + chunk_offset_toks <= usize::MAX,
            seqs_tensors@.len() == i,
            forall|k: int|
                0 <= k < i ==> {
                    &&& tensor_shape(#[trigger] seqs_tensors@[k]) == seq![1usize, max_len]
                    &&& tensor_elems(seqs_tensors@[k]) == padded(
                        lists[k],
                        max_len as nat,
                        0,
                    ).map_values(|x: u32| x as u64)
                    &&& tensor_type(seqs_tensors@[k]) == ElemType::U32
                    &&& tensor_device(seqs_tensors@[k]) == *device
                    &&& starts_in_storage(seqs_tensors@[k])
                },
            flash_attn ==> seqlens_q@ == row_lengths(i as nat, max_len as u32),
            flash_attn ==> seqlens_k@ == row_lengths(
                i as nat,
                ((max_len + chunk_offset_toks) as usize) as u32,
            ),
    {
        proof {
            lemma_longest(lists, i as int);
        }
        let ctxt = pad_row(toks[i], max_len, 0);
        if flash_attn {
            seqlens_q.push(ctxt.len() as u32);
            seqlens_k.push((ctxt.len() + chunk_offset_toks) as u32);
            assert(seqlens_q@ =~= row_lengths((i + 1) as nat, max_len as u32));
            assert(seqlens_k@ =~= row_lengths(
                (i + 1) as nat,
                ((max_len + chunk_offset_toks) as usize) as u32,
            ));
        }
        let row = match new_row(ctxt, device) {
            Ok(t) => t,
            Err(e) => return Err(EmbeddingError::Tensor(e)),
        };
        match unsqueeze(&row) {
            Ok(t) => {
                assert(tensor_shape(t) =~= seq![1usize, max_len]);
                seqs_tensors.push(t)
            },
            Err(e) => return Err(EmbeddingError::Tensor(e)),
        }
    }
    let flash_meta = if flash_attn {
        FlashParams::Lengths { seqlens_q, seqlens_k, sliding_window, causal: has_causal_attention }
    } else {
        FlashParams::Empty { causal: has_causal_attention }
    };
    proof {
        lemma_batch(seqs_tensors@, lists, max_len);
    }
    match cat(&seqs_tensors) {
        Ok(input) => {
            proof {
                lemma_batch_result(seqs_tensors@, lists, max_len, input);
            }
            Ok(InputMetadata { input, flash_meta })
        },
        Err(e) => Err(EmbeddingError::Tensor(e)),
    }
}

/// Makes one batch out of the tokens of all the sequences, offset by what the first of them has
/// already consumed. There has to be a sequence.
pub fn get_prompt_input(
    toks: Vec<&[u32]>,
    input_seqs: &Vec<Sequence>,
    device: &Device,
    flash_attn: bool,
    has_causal_attention: bool,
    sliding_window: Option<usize>,
) -> (res: Result<InnerInputProcessorOutput, EmbeddingError>)
    requires
        input_seqs@.len() > 0,
        toks@.len() > 0,
        batch_fits(token_rows(toks@)),
        flash_attn ==> longest(token_rows(toks@)) + input_seqs@[0].token_offset <= usize::MAX,
    ensures
        device_on_cpu(*device) ==> res is Ok,
        res matches Ok(out) ==> {
            &&& is_padded_batch(out.inputs.input, token_rows(toks@), longest(token_rows(toks@)))
            &&& tensor_device(out.inputs.input) == *device
            &&& describes_batch(
                out.inputs.flash_meta,
                flash_attn,
                toks@.len(),
                longest(token_rows(toks@)),
                input_seqs@[0].token_offset,
                sliding_window,
                has_causal_attention,
            )
            &&& out.seq_indices@ == Seq::new(input_seqs@.len(), |i: int| i as usize)
        },
        res matches Err(e) ==> e is Tensor,
{
    let chunk_offset = input_seqs[0].token_offset;
    let inputs = match make_prompt_chunk(
        chunk_offset,
        toks,
        device,
        flash_attn,
        has_causal_attention,
        sliding_window,
    ) {
        Ok(inputs) => inputs,
        Err(e) => return Err(e),
    };
    let mut seq_indices: Vec<usize> = Vec::with_capacity(input_seqs.len());
    for i in 0..input_seqs.len()
        invariant
            seq_indices@ == Seq::new(i as nat, |k: int| k as usize),
    {
        seq_indices.push(i);
        assert(seq_indices@ =~= Seq::new((i + 1) as nat, |k: int| k as usize));
    }
    Ok(InnerInputProcessorOutput { inputs, seq_indices })
}

} // verus!
