//! Rows of image embeddings in the place of placeholder tokens.

use core::ops::Range;

use candle_core::{Device, Tensor};
use vstd::prelude::*;

use crate::error::EmbeddingError;
use crate::shape::{
    block_index, count, in_block, in_shape, lemma_offset_2, lemma_rank_1, lemma_rank_2,
    lemma_rank_3, sized, span,
};
use crate::tensor::{
    at, device_on_cpu, dim, dims, dims3, dtype, narrow, ones, slice_assign, starts_in_storage,
    tensor_device, tensor_elems, tensor_on_cpu, tensor_shape, tensor_type, to_dtype, unsqueeze,
    zeros, ElemType,
};

verus! {

/// A span of placeholder tokens in one of the token streams of a batch.
pub ghost struct Span {
    pub batch: int,
    pub start: int,
    pub end: int,
}

/// The spans of one token stream.
pub open spec fn stream_spans(batch: int, spans: Seq<(usize, usize)>) -> Seq<Span> {
    Seq::new(
        spans.len(),
        |j: int| Span { batch, start: spans[j].0 as int, end: spans[j].1 as int },
    )
}

/// The spans of all the token streams of a batch, stream by stream.
pub open spec fn all_spans(pads: Seq<Vec<(usize, usize)>>) -> Seq<Span>
    decreases pads.len(),
{
    if pads.len() == 0 {
        seq![]
    } else {
        all_spans(pads.drop_last()) + stream_spans(pads.len() - 1, pads.last()@)
    }
}

/// The number of placeholder tokens on several spans.
pub open spec fn placeholder_count(spans: Seq<Span>) -> int
    decreases spans.len(),
{
    if spans.len() == 0 {
        0
    } else {
        placeholder_count(spans.drop_last()) + (spans.last().end - spans.last().start)
    }
}

/// The row of the image embeddings that lands on a position: rows are dealt out in order, and where
/// spans overlap the last one wins.
pub open spec fn row_for(spans: Seq<Span>, batch: int, pos: int) -> Option<int>
    decreases spans.len(),
{
    if spans.len() == 0 {
        None
    } else {
        let last = spans.last();
        if batch == last.batch && last.start <= pos < last.end {
            Some(placeholder_count(spans.drop_last()) + (pos - last.start))
        } else {
            row_for(spans.drop_last(), batch, pos)
        }
    }
}

/// No span ends before it starts, and all the placeholders can be counted in `usize`.
pub open spec fn countable(spans: Seq<Span>) -> bool {
    &&& forall|i: int| 0 <= i < spans.len() ==> 0 <= (#[trigger] spans[i]).start <= spans[i].end
    &&& placeholder_count(spans) <= usize::MAX
}

/// The span holds a position, and lies in a batch of `batch_size` streams of `seq_len` positions.
pub open spec fn span_fits(span: Span, batch_size: int, seq_len: int) -> bool {
    0 <= span.batch < batch_size && 0 <= span.start < span.end <= seq_len
}

/// Every span holds a position and lies in the batch.
pub open spec fn spans_fit(spans: Seq<Span>, batch_size: int, seq_len: int) -> bool {
    forall|i: int| 0 <= i < spans.len() ==> span_fits(#[trigger] spans[i], batch_size, seq_len)
}

/// The first of several spans that is empty or does not lie in the batch.
pub open spec fn is_first_misfit(
    span: Span,
    spans: Seq<Span>,
    batch_size: int,
    seq_len: int,
) -> bool {
    exists|i: int|
        {
            &&& 0 <= i < spans.len()
            &&& #[trigger] spans[i] == span
            &&& !span_fits(span, batch_size, seq_len)
            &&& spans_fit(spans.take(i), batch_size, seq_len)
        }
}

/// The token embeddings have three dimensions, and the rows of images can be counted.
pub open spec fn ranks_fit(embeds: Tensor, rows: Tensor) -> bool {
    tensor_shape(embeds).len() == 3 && tensor_shape(rows).len() > 0
}

/// There is one row for each placeholder.
pub open spec fn lengths_fit(rows: Tensor, spans: Seq<Span>) -> bool {
    tensor_shape(rows)[0] == placeholder_count(spans)
}

/// The rows are as wide as the token embeddings, and not of width zero, unless there is nothing to
/// splice.
pub open spec fn widths_fit(embeds: Tensor, rows: Tensor, spans: Seq<Span>) -> bool {
    spans.len() > 0 ==> tensor_shape(rows).len() == 2 && tensor_shape(rows)[1] == tensor_shape(
        embeds,
    )[2] && tensor_shape(embeds)[2] > 0
}

/// The rows can be spliced into the token embeddings.
pub open spec fn splice_fits(embeds: Tensor, rows: Tensor, spans: Seq<Span>) -> bool {
    &&& ranks_fit(embeds, rows)
    &&& lengths_fit(rows, spans)
    &&& widths_fit(embeds, rows, spans)
    &&& spans_fit(spans, tensor_shape(embeds)[0] as int, tensor_shape(embeds)[1] as int)
}

/// Main memory holds all that takes part in splicing, and the elements can be moved.
pub open spec fn splice_on_cpu(
    embeds: Tensor,
    rows: Tensor,
    spans: Seq<Span>,
    ids_device: Device,
) -> bool {
    &&& device_on_cpu(ids_device)
    &&& spans.len() > 0 ==> {
        &&& tensor_on_cpu(embeds)
        &&& tensor_on_cpu(rows)
        &&& tensor_type(embeds).is_plain()
        &&& tensor_type(embeds) == tensor_type(rows)
    }
}

/// The embeddings, and the mask of their positions, can be addressed.
pub open spec fn splice_sized(embeds: Tensor, rows: Tensor) -> bool {
    &&& sized(tensor_shape(embeds), tensor_type(embeds).bytes())
    &&& sized(tensor_shape(embeds), tensor_type(rows).bytes())
    &&& tensor_shape(embeds).len() == 3 ==> sized(tensor_shape(embeds).take(2), 4)
}

/// The embeddings `spliced` are `embeds` with the rows of `rows` on the spans.
pub open spec fn is_spliced(spliced: Tensor, embeds: Tensor, rows: Tensor, spans: Seq<Span>) -> bool {
    &&& tensor_shape(spliced) == tensor_shape(embeds)
    &&& tensor_type(spliced) == tensor_type(embeds)
    &&& tensor_device(rows) == tensor_device(embeds) ==> tensor_device(spliced) == tensor_device(
        embeds,
    )
    &&& forall|idx: Seq<int>|
        in_shape(tensor_shape(embeds), idx) ==> #[trigger] at(spliced, idx) == match row_for(
            spans,
            idx[0],
            idx[1],
        ) {
            Some(row) => at(rows, seq![row, idx[2]]),
            None => at(embeds, idx),
        }
}

/// A matrix that marks the positions on the spans by one and all others by zero.
pub open spec fn is_mark(
    mask: Tensor,
    batch_size: usize,
    seq_len: usize,
    spans: Seq<Span>,
    elem: ElemType,
) -> bool {
    &&& tensor_shape(mask) == seq![batch_size, seq_len]
    &&& tensor_type(mask) == elem
    &&& forall|idx: Seq<int>|
        in_shape(seq![batch_size, seq_len], idx) ==> #[trigger] at(mask, idx) == if row_for(
            spans,
            idx[0],
            idx[1],
        ) is Some {
            elem.one()
        } else {
            0
        }
}

/// The placeholders of the first spans are not more than those of all.
proof fn lemma_count_monotone(spans: Seq<Span>, n: int)
    requires
        countable(spans),
        0 <= n <= spans.len(),
    ensures
        0 <= placeholder_count(spans.take(n)) <= placeholder_count(spans),
    decreases spans.len(),
{
    if n == spans.len() {
        assert(spans.take(n) =~= spans);
        if n > 0 {
            assert(spans[n - 1].start <= spans[n - 1].end);
            lemma_countable_prefix(spans);
            lemma_count_monotone(spans.drop_last(), n - 1);
            assert(spans.drop_last().take(n - 1) =~= spans.drop_last());
        }
    } else {
        lemma_countable_prefix(spans);
        lemma_count_monotone(spans.drop_last(), n);
        assert(spans.drop_last().take(n) =~= spans.take(n));
        assert(spans.last() == spans[spans.len() - 1]);
    }
}

/// What holds of all the spans holds of all but the last.
proof fn lemma_countable_prefix(spans: Seq<Span>)
    requires
        countable(spans),
        spans.len() > 0,
    ensures
        countable(spans.drop_last()),
{
    assert(spans.last() == spans[spans.len() - 1]);
    assert forall|i: int| 0 <= i < spans.drop_last().len() implies 0 <= (
    #[trigger] spans.drop_last()[i]).start <= spans.drop_last()[i].end by {
        assert(spans.drop_last()[i] == spans[i]);
    }
}

/// The spans behind a list of stream, start and end.
spec fn span_list(list: Seq<(usize, usize, usize)>) -> Seq<Span> {
    Seq::new(
        list.len(),
        |i: int| Span { batch: list[i].0 as int, start: list[i].1 as int, end: list[i].2 as int },
    )
}

/// The spans of all the token streams, as one list.
fn list_spans(pads: &Vec<Vec<(usize, usize)>>) -> (res: Vec<(usize, usize, usize)>)
    ensures
        span_list(res@) == all_spans(pads@),
{
    let mut res: Vec<(usize, usize, usize)> = Vec::new();
    for b in 0..pads.len()
        invariant
            span_list(res@) == all_spans(pads@.take(b as int)),
    {
        let ghost before = all_spans(pads@.take(b as int));
        assert(pads@.take(b + 1).drop_last() =~= pads@.take(b as int));
        assert(before + stream_spans(b as int, pads@[b as int]@.take(0)) =~= before);
        let stream = &pads[b];
        for j in 0..stream.len()
            invariant
                b < pads@.len(),
                *stream == pads@[b as int],
                span_list(res@) == before + stream_spans(b as int, pads@[b as int]@.take(j as int)),
        {
            let (start, end) = stream[j];
            let ghost added = Span { batch: b as int, start: start as int, end: end as int };
            let ghost listed = span_list(res@);
            res.push((b, start, end));
            assert(span_list(res@) =~= listed.push(added));
            assert(stream_spans(b as int, stream@.take(j + 1)) =~= stream_spans(
                b as int,
                stream@.take(j as int),
            ).push(added));
        }
        assert(pads@[b as int]@.take(pads@[b as int]@.len() as int) =~= pads@[b as int]@);
    }
    assert(pads@.take(pads@.len() as int) =~= pads@);
    res
}

/// Whether no span of a list ends before it starts, and all the placeholders can be counted.
fn can_count(list: &Vec<(usize, usize, usize)>) -> (res: bool)
    ensures
        res == countable(span_list(list@)),
{
    let ghost spans = span_list(list@);
    let mut total: usize = 0;
    for i in 0..list.len()
        invariant
            spans == span_list(list@),
            forall|k: int| 0 <= k < i ==> 0 <= (#[trigger] spans[k]).start <= spans[k].end,
            total == placeholder_count(spans.take(i as int)),
    {
        let (_, start, end) = list[i];
        assert(spans[i as int].start == start && spans[i as int].end == end);
        if start > end {
            return false;
        }
        proof {
            assert(spans.take(i + 1).drop_last() =~= spans.take(i as int));
            if countable(spans) {
                lemma_count_monotone(spans, i + 1);
            }
        }
        total = match total.checked_add(end - start) {
            Some(total) => total,
            None => return false,
        };
    }
    assert(spans.take(spans.len() as int) =~= spans);
    true
}

/// Whether no span ends before it starts, and all the placeholders can be counted.
pub(crate) fn spans_countable(pads: &Vec<Vec<(usize, usize)>>) -> (res: bool)
    ensures
        res == countable(all_spans(pads@)),
{
    can_count(&list_spans(pads))
}

/// The number of placeholder tokens on the spans of a list.
fn count_placeholders(list: &Vec<(usize, usize, usize)>) -> (res: usize)
    requires
        countable(span_list(list@)),
    ensures
        res == placeholder_count(span_list(list@)),
{
    let ghost spans = span_list(list@);
    let mut total: usize = 0;
    for i in 0..list.len()
        invariant
            spans == span_list(list@),
            countable(spans),
            total == placeholder_count(spans.take(i as int)),
    {
        let (_, start, end) = list[i];
        proof {
            assert(spans.take(i + 1).drop_last() =~= spans.take(i as int));
            assert(spans[i as int].start <= spans[i as int].end);
            lemma_count_monotone(spans, i + 1);
        }
        total = total + (end - start);
    }
    assert(spans.take(spans.len() as int) =~= spans);
    total
}

/// Rows cut out of a matrix and given a leading dimension: row `j` of what is cut out is row
/// `start + j` of the matrix.
proof fn lemma_chunk(rows: Tensor, chunk: Tensor, start: usize, len: usize, j: int, k: int)
    requires
        tensor_shape(rows).len() == 2,
        tensor_elems(rows).len() == count(tensor_shape(rows)),
        start + len <= tensor_shape(rows)[0],
        tensor_shape(chunk) == seq![1usize, len, tensor_shape(rows)[1]],
        tensor_elems(chunk) == tensor_elems(rows).subrange(
            start * count(tensor_shape(rows).skip(1)),
            (start + len) * count(tensor_shape(rows).skip(1)),
        ),
        0 <= j < len,
        0 <= k < tensor_shape(rows)[1],
    ensures
        at(chunk, seq![0, j, k]) == at(rows, seq![start + j, k]),
{
    let (n, w) = (tensor_shape(rows)[0], tensor_shape(rows)[1]);
    assert(tensor_shape(rows) =~= seq![n, w]);
    assert(tensor_shape(rows).skip(1) =~= seq![w]);
    lemma_rank_1(w, 0);
    lemma_rank_2(n, w, start + j, k);
    lemma_rank_3(1, len, w, 0, j, k);
    assert(0 <= start * w && (start + len) * w <= n * w && 0 <= j * w + k < len * w) by (
        nonlinear_arith)
        requires
            start + len <= n,
            0 <= j < len,
            0 <= k < w,
            0 <= start,
    ;
    assert((start + len) * w == start * w + len * w && (start + j) * w == start * w + j * w) by (
        nonlinear_arith);
    assert(0 * (len * w) == 0);
}

/// The first span of a list that is empty or does not lie in the batch.
fn first_misfit(list: &Vec<(usize, usize, usize)>, batch_size: usize, seq_len: usize) -> (res:
    Option<usize>)
    ensures
        match res {
            None => spans_fit(span_list(list@), batch_size as int, seq_len as int),
            Some(i) => {
                &&& i < list@.len()
                &&& !span_fits(span_list(list@)[i as int], batch_size as int, seq_len as int)
                &&& spans_fit(
                    span_list(list@).take(i as int),
                    batch_size as int,
                    seq_len as int,
                )
            },
        },
{
    for i in 0..list.len()
        invariant
            forall|k: int|
                0 <= k < i ==> span_fits(
                    #[trigger] span_list(list@)[k],
                    batch_size as int,
                    seq_len as int,
                ),
    {
        let (batch, start, end) = list[i];
        if batch >= batch_size || start >= end || end > seq_len {
            return Some(i);
        }
    }
    None
}

/// Splices `end - start` rows, from row `first` on, into one token stream.
fn splice_span(
    embeds: &Tensor,
    rows: &Tensor,
    first: usize,
    batch: usize,
    start: usize,
    end: usize,
) -> (res: Result<Tensor, EmbeddingError>)
    requires
        splice_sized(*embeds, *rows),
        tensor_shape(*embeds).len() == 3,
        tensor_shape(*rows).len() == 2,
        tensor_shape(*rows)[1] == tensor_shape(*embeds)[2] > 0,
        tensor_elems(*rows).len() == count(tensor_shape(*rows)),
        first + (end - start) <= tensor_shape(*rows)[0],
        batch < tensor_shape(*embeds)[0],
        start < end <= tensor_shape(*embeds)[1],
    ensures
        res matches Ok(r) ==> {
            &&& tensor_type(*embeds) == tensor_type(*rows)
            &&& tensor_shape(r) == tensor_shape(*embeds)
            &&& tensor_type(r) == tensor_type(*embeds)
            &&& tensor_device(*rows) == tensor_device(*embeds) ==> tensor_device(r)
                == tensor_device(*embeds)
            &&& tensor_on_cpu(*rows) && tensor_on_cpu(*embeds) ==> tensor_on_cpu(r)
            &&& forall|idx: Seq<int>|
                in_shape(tensor_shape(*embeds), idx) ==> #[trigger] at(r, idx) == if idx[0] == batch
                    && start <= idx[1] < end {
                    at(*rows, seq![first + (idx[1] - start), idx[2]])
                } else {
                    at(*embeds, idx)
                }
        },
        tensor_on_cpu(*embeds) && tensor_on_cpu(*rows) && tensor_type(*embeds).is_plain()
            && tensor_type(*embeds) == tensor_type(*rows) ==> res is Ok,
        res matches Err(e) ==> e is Tensor,
{
    let hidden = dims(embeds)[2];
    let len = end - start;
    proof {
        let (n, w) = (tensor_shape(*rows)[0], tensor_shape(*rows)[1]);
        assert(tensor_shape(*rows) =~= seq![n, w]);
        lemma_rank_2(n, w, 0, 0);
        assert(n * w > 0) by (nonlinear_arith)
            requires
                n > 0,
                w > 0,
        ;
    }
    let narrowed = match narrow(rows, first, len) {
        Ok(t) => t,
        Err(e) => return Err(EmbeddingError::Tensor(e)),
    };
    let chunk = match unsqueeze(&narrowed) {
        Ok(t) => t,
        Err(e) => return Err(EmbeddingError::Tensor(e)),
    };
    let ranges: Vec<Range<usize>> = vec![batch..batch + 1, start..end, 0..hidden];
    proof {
        assert(tensor_shape(chunk) =~= seq![1usize, len, hidden]);
        assert(ranges@.len() == 3);
        assert(ranges@[0].start == batch && ranges@[0].end == batch + 1);
        assert(ranges@[1].start == start && ranges@[1].end == end);
        assert(ranges@[2].start == 0 && ranges@[2].end == hidden);
    }
    match slice_assign(embeds, &ranges, &chunk) {
        Ok(t) => {
            proof {
                assert forall|idx: Seq<int>| in_shape(tensor_shape(*embeds), idx) implies #[trigger] at(
                    t,
                    idx,
                ) == if idx[0] == batch && start <= idx[1] < end {
                    at(*rows, seq![first + (idx[1] - start), idx[2]])
                } else {
                    at(*embeds, idx)
                } by {
                    assert(0 <= idx[0] && 0 <= idx[1] && 0 <= idx[2] < tensor_shape(*embeds)[2]);
                    if idx[0] == batch && start <= idx[1] < end {
                        assert(in_block(ranges@, idx));
                        assert(block_index(ranges@, idx) =~= seq![0, idx[1] - start, idx[2]]);
                        lemma_chunk(*rows, chunk, first, len, idx[1] - start, idx[2]);
                    } else {
                        assert(!in_block(ranges@, idx)) by {
                            let r0 = ranges@[0];
                            let r1 = ranges@[1];
                            if in_block(ranges@, idx) {
                                assert(r0.start <= idx[0] < r0.end);
                                assert(r1.start <= idx[1] < r1.end);
                            }
                        }
                    }
                }
            }
            Ok(t)
        },
        Err(e) => Err(EmbeddingError::Tensor(e)),
    }
}

/// Marks the positions of a span by one.
fn mark_span(mask: &Tensor, batch: usize, start: usize, end: usize, device: &Device) -> (res: Result<
    Tensor,
    EmbeddingError,
>)
    requires
        tensor_shape(*mask).len() == 2,
        sized(tensor_shape(*mask), 4),
        tensor_type(*mask) == ElemType::F32,
        batch < tensor_shape(*mask)[0],
        start < end <= tensor_shape(*mask)[1],
    ensures
        res matches Ok(r) ==> {
            &&& tensor_shape(r) == tensor_shape(*mask)
            &&& tensor_elems(r).len() == tensor_elems(*mask).len()
            &&& tensor_type(r) == ElemType::F32
            &&& tensor_device(*mask) == *device ==> tensor_device(r) == *device
            &&& starts_in_storage(r)
            &&& forall|idx: Seq<int>|
                in_shape(tensor_shape(*mask), idx) ==> #[trigger] at(r, idx) == if idx[0] == batch
                    && start <= idx[1] < end {
                    ElemType::F32.one()
                } else {
                    at(*mask, idx)
                }
        },
        tensor_on_cpu(*mask) && device_on_cpu(*device) ==> res is Ok,
        res matches Err(e) ==> e is Tensor,
{
    let len = end - start;
    let ghost (b, s) = (tensor_shape(*mask)[0], tensor_shape(*mask)[1]);
    proof {
        assert(tensor_shape(*mask) =~= seq![b, s]);
        lemma_rank_2(b, s, 0, 0);
        lemma_rank_2(1, len, 0, 0);
        assert(1 * len * 4 <= b * s * 4) by (nonlinear_arith)
            requires
                1 <= b,
                len <= s,
        ;
    }
    let marks = match ones(1, len, dtype(ElemType::F32), device) {
        Ok(t) => t,
        Err(e) => return Err(EmbeddingError::Tensor(e)),
    };
    let ranges: Vec<Range<usize>> = vec![batch..batch + 1, start..end];
    proof {
        assert(ranges@[0].start == batch && ranges@[0].end == batch + 1);
        assert(ranges@[1].start == start && ranges@[1].end == end);
    }
    match slice_assign(mask, &ranges, &marks) {
        Ok(t) => {
            proof {
                assert forall|idx: Seq<int>| in_shape(tensor_shape(*mask), idx) implies #[trigger] at(
                    t,
                    idx,
                ) == if idx[0] == batch && start <= idx[1] < end {
                    ElemType::F32.one()
                } else {
                    at(*mask, idx)
                } by {
                    if idx[0] == batch && start <= idx[1] < end {
                        assert(in_block(ranges@, idx));
                        assert(block_index(ranges@, idx) =~= seq![0, idx[1] - start]);
                        lemma_rank_2(1, len, 0, idx[1] - start);
                    } else {
                        assert(!in_block(ranges@, idx)) by {
                            let r0 = ranges@[0];
                            let r1 = ranges@[1];
                            if in_block(ranges@, idx) {
                                assert(r0.start <= idx[0] < r0.end);
                                assert(r1.start <= idx[1] < r1.end);
                            }
                        }
                    }
                }
            }
            Ok(t)
        },
        Err(e) => Err(EmbeddingError::Tensor(e)),
    }
}

/// What comes out of splicing: the embeddings and the mask of the positions that were replaced, or
/// the first reason, in the order of the reasons, for which there is nothing.
pub open spec fn splice_outcome(
    embeds: Tensor,
    rows: Tensor,
    spans: Seq<Span>,
    ids_device: Device,
    res: Result<(Tensor, Tensor), EmbeddingError>,
) -> bool {
    match res {
        Ok((spliced, mask)) => {
            &&& splice_fits(embeds, rows, spans)
            &&& spans.len() > 0 ==> tensor_type(embeds) == tensor_type(rows)
            &&& is_spliced(spliced, embeds, rows, spans)
            &&& is_mark(
                mask,
                tensor_shape(embeds)[0],
                tensor_shape(embeds)[1],
                spans,
                ElemType::U8,
            )
            &&& tensor_device(mask) == ids_device
        },
        Err(EmbeddingError::ImageLength { embeddings, placeholders }) => {
            &&& ranks_fit(embeds, rows)
            &&& !lengths_fit(rows, spans)
            &&& embeddings == tensor_shape(rows)[0]
            &&& placeholders == placeholder_count(spans)
        },
        Err(EmbeddingError::ImageWidth) => {
            &&& ranks_fit(embeds, rows)
            &&& lengths_fit(rows, spans)
            &&& !widths_fit(embeds, rows, spans)
        },
        Err(EmbeddingError::Span { batch, start, end }) => {
            let span = Span { batch: batch as int, start: start as int, end: end as int };
            &&& ranks_fit(embeds, rows)
            &&& lengths_fit(rows, spans)
            &&& widths_fit(embeds, rows, spans)
            &&& is_first_misfit(
                span,
                spans,
                tensor_shape(embeds)[0] as int,
                tensor_shape(embeds)[1] as int,
            )
        },
        Err(EmbeddingError::Tensor(_)) => {
            ||| !ranks_fit(embeds, rows)
            ||| splice_fits(embeds, rows, spans) && !splice_on_cpu(embeds, rows, spans, ids_device)
        },
        Err(EmbeddingError::Preprocess(_)) => false,
    }
}

/// Puts the rows of image embeddings in the place of the placeholder tokens, one row per
/// placeholder, in the order of the spans. The mask marks the positions that were replaced; it is
/// made on the device of the token ids.
pub fn splice_images(
    input_embeds: &Tensor,
    image_embeds: &Tensor,
    continuous_img_pad: &Vec<Vec<(usize, usize)>>,
    ids_device: &Device,
) -> (res: Result<(Tensor, Tensor), EmbeddingError>)
    requires
        countable(all_spans(continuous_img_pad@)),
        splice_sized(*input_embeds, *image_embeds),
    ensures
        splice_outcome(
            *input_embeds,
            *image_embeds,
            all_spans(continuous_img_pad@),
            *ids_device,
            res,
        ),
{
    let (batch_size, seq_len, hidden_dim) = match dims3(input_embeds) {
        Ok(d) => d,
        Err(e) => return Err(EmbeddingError::Tensor(e)),
    };
    let rows = match dim(image_embeds, 0) {
        Ok(d) => d,
        Err(e) => return Err(EmbeddingError::Tensor(e)),
    };
    let list = list_spans(continuous_img_pad);
    let ghost spans = all_spans(continuous_img_pad@);
    let total_expected = count_placeholders(&list);
    if rows != total_expected {
        return Err(
            EmbeddingError::ImageLength { embeddings: rows, placeholders: total_expected },
        );
    }
    let image_dims = dims(image_embeds);
    if list.len() > 0 && (image_dims.len() != 2 || image_dims[1] != hidden_dim || hidden_dim == 0) {
        return Err(EmbeddingError::ImageWidth);
    }
    if let Some(i) = first_misfit(&list, batch_size, seq_len) {
        let (batch, start, end) = list[i];
        assert(spans[i as int] == Span {
            batch: batch as int,
            start: start as int,
            end: end as int,
        });
        return Err(EmbeddingError::Span { batch, start, end });
    }
    proof {
        assert(tensor_shape(*input_embeds).take(2) =~= seq![batch_size, seq_len]);
    }
    let mut image_mask = match zeros(batch_size, seq_len, dtype(ElemType::F32), ids_device) {
        Ok(t) => t,
        Err(e) => return Err(EmbeddingError::Tensor(e)),
    };
    let mut embeds = input_embeds.clone();
    let mut first: usize = 0;
    proof {
        assert forall|idx: Seq<int>| in_shape(seq![batch_size, seq_len], idx) implies #[trigger] at(
            image_mask,
            idx,
        ) == 0 by {
            lemma_offset_2(batch_size, seq_len, idx);
        }
        assert(spans.take(0) =~= seq![]);
    }
    for i in 0..list.len()
        invariant
            spans == span_list(list@),
            spans == all_spans(continuous_img_pad@),
            countable(spans),
            splice_fits(*input_embeds, *image_embeds, spans),
            splice_sized(*input_embeds, *image_embeds),
            tensor_shape(*input_embeds) == seq![batch_size, seq_len, hidden_dim],
            sized(seq![batch_size, seq_len], 4),
            tensor_elems(*image_embeds).len() == count(tensor_shape(*image_embeds)),
            first == placeholder_count(spans.take(i as int)),
            is_spliced(embeds, *input_embeds, *image_embeds, spans.take(i as int)),
            is_mark(image_mask, batch_size, seq_len, spans.take(i as int), ElemType::F32),
            tensor_elems(image_mask).len() == batch_size * seq_len,
            tensor_device(image_mask) == *ids_device,
            starts_in_storage(image_mask),
            i > 0 ==> tensor_type(*input_embeds) == tensor_type(*image_embeds),
            spans.len() > 0 && splice_on_cpu(*input_embeds, *image_embeds, spans, *ids_device)
                ==> tensor_on_cpu(embeds),
    {
        let (batch, start, end) = list[i];
        let ghost before = spans.take(i as int);
        let ghost after = spans.take(i + 1);
        proof {
            assert(after.drop_last() =~= before);
            assert(after.last() == Span {
                batch: batch as int,
                start: start as int,
                end: end as int,
            });
            assert(span_fits(spans[i as int], batch_size as int, seq_len as int));
            lemma_count_monotone(spans, i + 1);
        }
        embeds = match splice_span(&embeds, image_embeds, first, batch, start, end) {
            Ok(t) => t,
            Err(e) => return Err(e),
        };
        image_mask = match mark_span(&image_mask, batch, start, end, ids_device) {
            Ok(t) => t,
            Err(e) => return Err(e),
        };
        first = first + (end - start);
    }
    assert(spans.take(spans.len() as int) =~= spans);
    assert(sized(seq![batch_size, seq_len], 1));
    let visual_pos_mask = match to_dtype(&image_mask, dtype(ElemType::U8)) {
        Ok(t) => t,
        Err(e) => return Err(EmbeddingError::Tensor(e)),
    };
    proof {
        assert forall|idx: Seq<int>| in_shape(seq![batch_size, seq_len], idx) implies #[trigger] at(
            visual_pos_mask,
            idx,
        ) == if row_for(spans, idx[0], idx[1]) is Some {
            ElemType::U8.one()
        } else {
            0
        } by {
            lemma_offset_2(batch_size, seq_len, idx);
            lemma_rank_2(batch_size, seq_len, 0, 0);
            assert(at(image_mask, idx) == tensor_elems(image_mask)[idx[0] * seq_len + idx[1]]);
            assert(at(visual_pos_mask, idx) == tensor_elems(visual_pos_mask)[idx[0] * seq_len
                + idx[1]]);
        }
    }
    Ok((embeds, visual_pos_mask))
}

/// A position that lies on a span.
pub open spec fn on_span(span: Span, batch: int, pos: int) -> bool {
    batch == span.batch && span.start <= pos < span.end
}

/// No position lies on two spans.
pub open spec fn disjoint(spans: Seq<Span>) -> bool {
    forall|i: int, j: int, batch: int, pos: int|
        0 <= i < j < spans.len() && #[trigger] on_span(spans[i], batch, pos) ==> !#[trigger] on_span(
            spans[j],
            batch,
            pos,
        )
}

/// A row lands on a position exactly where the position lies on a span: the mask marks the spans,
/// and no other embedding changes.
pub proof fn lemma_replaced_iff_on_span(spans: Seq<Span>, batch: int, pos: int)
    ensures
        row_for(spans, batch, pos) is Some <==> exists|i: int|
            0 <= i < spans.len() && #[trigger] on_span(spans[i], batch, pos),
    decreases spans.len(),
{
    if spans.len() > 0 {
        let init = spans.drop_last();
        lemma_replaced_iff_on_span(init, batch, pos);
        if on_span(spans.last(), batch, pos) {
            assert(on_span(spans[spans.len() - 1], batch, pos));
        } else if row_for(init, batch, pos) is Some {
            let i = choose|i: int| 0 <= i < init.len() && #[trigger] on_span(init[i], batch, pos);
            assert(on_span(spans[i], batch, pos));
        } else {
            assert forall|i: int| 0 <= i < spans.len() implies !#[trigger] on_span(
                spans[i],
                batch,
                pos,
            ) by {
                if i < init.len() {
                    assert(!on_span(init[i], batch, pos));
                }
            }
        }
    }
}

/// Only rows that there are land on a position.
pub proof fn lemma_row_in_range(spans: Seq<Span>, batch: int, pos: int)
    requires
        countable(spans),
        row_for(spans, batch, pos) is Some,
    ensures
        0 <= row_for(spans, batch, pos)->0 < placeholder_count(spans),
    decreases spans.len(),
{
    let init = spans.drop_last();
    lemma_countable_prefix(spans);
    lemma_count_monotone(spans, spans.len() - 1);
    assert(spans.take(spans.len() - 1) =~= init);
    if !on_span(spans.last(), batch, pos) {
        lemma_row_in_range(init, batch, pos);
    }
}

/// No row lands on two positions.
pub proof fn lemma_row_lands_once(spans: Seq<Span>, b1: int, p1: int, b2: int, p2: int)
    requires
        countable(spans),
        row_for(spans, b1, p1) is Some,
        row_for(spans, b1, p1) == row_for(spans, b2, p2),
    ensures
        b1 == b2,
        p1 == p2,
    decreases spans.len(),
{
    let init = spans.drop_last();
    lemma_countable_prefix(spans);
    let (first, second) = (on_span(spans.last(), b1, p1), on_span(spans.last(), b2, p2));
    if !first && !second {
        lemma_row_lands_once(init, b1, p1, b2, p2);
    } else if !first {
        lemma_row_in_range(init, b1, p1);
    } else if !second {
        lemma_row_in_range(init, b2, p2);
    }
}

/// Where no spans overlap, every row lands: the position is the one that comes back.
pub proof fn lemma_every_row_lands(spans: Seq<Span>, row: int) -> (res: (int, int))
    requires
        countable(spans),
        disjoint(spans),
        0 <= row < placeholder_count(spans),
    ensures
        row_for(spans, res.0, res.1) == Some(row),
    decreases spans.len(),
{
    let init = spans.drop_last();
    let last = spans.last();
    lemma_countable_prefix(spans);
    let dealt = placeholder_count(init);
    if row >= dealt {
        (last.batch, last.start + (row - dealt))
    } else {
        assert(disjoint(init)) by {
            assert forall|i: int, j: int, batch: int, pos: int|
                0 <= i < j < init.len() && #[trigger] on_span(
                    init[i],
                    batch,
                    pos,
                ) implies !#[trigger] on_span(init[j], batch, pos) by {
                assert(on_span(spans[i], batch, pos));
                assert(!on_span(spans[j], batch, pos));
            }
        }
        let (batch, pos) = lemma_every_row_lands(init, row);
        lemma_replaced_iff_on_span(init, batch, pos);
        let i = choose|i: int| 0 <= i < init.len() && #[trigger] on_span(init[i], batch, pos);
        assert(on_span(spans[i], batch, pos));
        assert(!on_span(spans[spans.len() - 1], batch, pos));
        (batch, pos)
    }
}

} // verus!
