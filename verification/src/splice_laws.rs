//! What holds of the embeddings that the text block is given, said of spans, rows and elements
//! themselves.

use candle_core::{Device, Tensor};
use vstd::prelude::*;

use crate::error::EmbeddingError;
use crate::model::{is_converted, Model, VisionInputs};
use crate::positions::{
    counts_tokens, flatten_outcome, is_flattened, lemma_mask_marks_lengths, positions_outcome,
    positions_sized, widest,
};
use crate::shape::{in_shape, lemma_rank_2, lemma_rank_3, sized, span};
use crate::splice::{
    all_spans, placeholder_count, row_for, span_fits, spans_fit, splice_outcome, Span,
};
use crate::tensor::{
    at, cast_bits, device_on_cpu, tensor_device, tensor_elems, tensor_on_cpu, tensor_shape,
    tensor_type, ElemType,
};

verus! {

/// The spans of a batch are those of its streams one after the other: those of stream `b` follow on
/// the spans of the streams before it, in their order.
pub proof fn lemma_spans_of_stream(pads: Seq<Vec<(usize, usize)>>, b: int, j: int)
    requires
        0 <= b < pads.len(),
        0 <= j < pads[b]@.len(),
    ensures
        0 <= all_spans(pads.take(b)).len() + j < all_spans(pads).len(),
        all_spans(pads)[all_spans(pads.take(b)).len() + j] == (Span {
            batch: b,
            start: pads[b]@[j].0 as int,
            end: pads[b]@[j].1 as int,
        }),
    decreases pads.len(),
{
    let init = pads.drop_last();
    if b == pads.len() - 1 {
        assert(pads.take(b) =~= init);
    } else {
        assert(init.take(b) =~= pads.take(b));
        lemma_spans_of_stream(init, b, j);
    }
}

/// A batch has no other spans than those of its streams.
pub proof fn lemma_number_of_spans(pads: Seq<Vec<(usize, usize)>>)
    ensures
        pads.len() == 0 ==> all_spans(pads).len() == 0,
        pads.len() > 0 ==> all_spans(pads).len() == all_spans(pads.drop_last()).len()
            + pads.last()@.len(),
{
}

/// The placeholders of several spans: a span holds one per position, and two groups of spans hold the
/// sum.
pub proof fn lemma_placeholders_of_spans(a: Seq<Span>, b: Seq<Span>)
    ensures
        placeholder_count(a + b) == placeholder_count(a) + placeholder_count(b),
        a.len() == 0 ==> placeholder_count(a) == 0,
        a.len() == 1 ==> placeholder_count(a) == a[0].end - a[0].start,
    decreases b.len(),
{
    if b.len() == 0 {
        assert(a + b =~= a);
    } else {
        lemma_placeholders_of_spans(a, b.drop_last());
        assert((a + b).drop_last() =~= a + b.drop_last());
    }
    if a.len() == 1 {
        assert(placeholder_count(a.drop_last()) == 0);
    }
}

/// The row that lands on a position is counted from the first row of the last span that holds the
/// position, and that row follows on the rows of the spans before.
pub proof fn lemma_row_of_span(spans: Seq<Span>, i: int, batch: int, pos: int)
    requires
        0 <= i < spans.len(),
        spans[i].batch == batch,
        spans[i].start <= pos < spans[i].end,
        forall|k: int|
            #![trigger spans[k]]
            i < k < spans.len() ==> !(spans[k].batch == batch && spans[k].start <= pos
                < spans[k].end),
    ensures
        row_for(spans, batch, pos) == Some(placeholder_count(spans.take(i)) + (pos - spans[i].start)),
    decreases spans.len(),
{
    let init = spans.drop_last();
    if i == spans.len() - 1 {
        assert(spans.take(i) =~= init);
    } else {
        assert(init.take(i) =~= spans.take(i));
        assert(!(spans[spans.len() - 1].batch == batch && spans[spans.len() - 1].start <= pos
            < spans[spans.len() - 1].end));
        assert forall|k: int| #![trigger init[k]] i < k < init.len() implies !(init[k].batch == batch
            && init[k].start <= pos < init[k].end) by {
            assert(init[k] == spans[k]);
        }
        lemma_row_of_span(init, i, batch, pos);
    }
}

/// No row lands on a position that no span holds.
pub proof fn lemma_no_row_off_spans(spans: Seq<Span>, batch: int, pos: int)
    requires
        forall|k: int|
            #![trigger spans[k]]
            0 <= k < spans.len() ==> !(spans[k].batch == batch && spans[k].start <= pos
                < spans[k].end),
    ensures
        row_for(spans, batch, pos) is None,
    decreases spans.len(),
{
    if spans.len() > 0 {
        let init = spans.drop_last();
        assert(!(spans[spans.len() - 1].batch == batch && spans[spans.len() - 1].start <= pos
            < spans[spans.len() - 1].end));
        assert forall|k: int| #![trigger init[k]] 0 <= k < init.len() implies !(init[k].batch
            == batch && init[k].start <= pos < init[k].end) by {
            assert(init[k] == spans[k]);
        }
        lemma_no_row_off_spans(init, batch, pos);
    }
}

/// On a span the embedding of a position is the row of its image, element by element, and the position
/// is marked. Where spans overlap this holds of the last one.
pub proof fn lemma_span_holds_its_rows(
    embeds: Tensor,
    rows: Tensor,
    spans: Seq<Span>,
    ids_device: Device,
    spliced: Tensor,
    mask: Tensor,
    i: int,
    pos: int,
    h: int,
)
    requires
        splice_outcome(embeds, rows, spans, ids_device, Ok((spliced, mask))),
        0 <= i < spans.len(),
        spans[i].start <= pos < spans[i].end,
        forall|k: int|
            #![trigger spans[k]]
            i < k < spans.len() ==> !(spans[k].batch == spans[i].batch && spans[k].start <= pos
                < spans[k].end),
        0 <= h < tensor_shape(embeds)[2],
    ensures
        ({
            let (s, w) = (tensor_shape(embeds)[1], tensor_shape(embeds)[2]);
            let row = placeholder_count(spans.take(i)) + (pos - spans[i].start);
            &&& tensor_shape(spliced) == tensor_shape(embeds)
            &&& tensor_type(spliced) == tensor_type(embeds)
            &&& tensor_elems(spliced)[spans[i].batch * (s * w) + (pos * w + h)] == tensor_elems(
                rows,
            )[row * w + h]
            &&& tensor_elems(mask)[spans[i].batch * s + pos] == 1
        }),
{
    let b = spans[i].batch;
    let shape = tensor_shape(embeds);
    let (n, s, w) = (shape[0], shape[1], shape[2]);
    assert(0 <= spans[i].batch < n && 0 <= spans[i].start && spans[i].end <= s);
    lemma_row_of_span(spans, i, b, pos);
    let row = placeholder_count(spans.take(i)) + (pos - spans[i].start);
    let idx = seq![b, pos, h];
    assert(shape =~= seq![n, s, w]);
    assert(in_shape(shape, idx));
    lemma_rank_3(n, s, w, b, pos, h);
    assert(at(spliced, idx) == at(rows, seq![row, h]));
    let r = tensor_shape(rows);
    assert(r =~= seq![r[0], r[1]]);
    lemma_rank_2(r[0], r[1], row, h);
    let place = seq![b, pos];
    assert(in_shape(seq![n, s], place));
    lemma_rank_2(n, s, b, pos);
    assert(at(mask, place) == 1);
}

/// Off all spans the embedding of a position stays as it was, element by element, and the position is
/// not marked.
pub proof fn lemma_other_positions_stay(
    embeds: Tensor,
    rows: Tensor,
    spans: Seq<Span>,
    ids_device: Device,
    spliced: Tensor,
    mask: Tensor,
    b: int,
    pos: int,
    h: int,
)
    requires
        splice_outcome(embeds, rows, spans, ids_device, Ok((spliced, mask))),
        0 <= b < tensor_shape(embeds)[0],
        0 <= pos < tensor_shape(embeds)[1],
        0 <= h < tensor_shape(embeds)[2],
        forall|k: int|
            #![trigger spans[k]]
            0 <= k < spans.len() ==> !(spans[k].batch == b && spans[k].start <= pos < spans[k].end),
    ensures
        ({
            let (s, w) = (tensor_shape(embeds)[1], tensor_shape(embeds)[2]);
            &&& tensor_elems(spliced)[b * (s * w) + (pos * w + h)] == tensor_elems(embeds)[b * (s
                * w) + (pos * w + h)]
            &&& tensor_elems(mask)[b * s + pos] == 0
            &&& tensor_shape(mask) == seq![tensor_shape(embeds)[0], s]
            &&& tensor_type(mask) == ElemType::U8
            &&& tensor_device(mask) == ids_device
            &&& tensor_device(rows) == tensor_device(embeds) ==> tensor_device(spliced)
                == tensor_device(embeds)
        }),
{
    let shape = tensor_shape(embeds);
    let (n, s, w) = (shape[0], shape[1], shape[2]);
    lemma_no_row_off_spans(spans, b, pos);
    let idx = seq![b, pos, h];
    assert(shape =~= seq![n, s, w]);
    assert(in_shape(shape, idx));
    lemma_rank_3(n, s, w, b, pos, h);
    assert(at(spliced, idx) == at(embeds, idx));
    let place = seq![b, pos];
    assert(in_shape(seq![n, s], place));
    lemma_rank_2(n, s, b, pos);
    assert(at(mask, place) == 0);
}

/// Each row is spliced or the whole is refused: the number of rows has to be that of the placeholders,
/// and a refusal tells both numbers.
pub proof fn lemma_wrong_number_of_rows_is_refused(
    embeds: Tensor,
    rows: Tensor,
    spans: Seq<Span>,
    ids_device: Device,
    res: Result<(Tensor, Tensor), EmbeddingError>,
)
    requires
        splice_outcome(embeds, rows, spans, ids_device, res),
        tensor_shape(embeds).len() == 3,
        tensor_shape(rows).len() > 0,
    ensures
        tensor_shape(rows)[0] != placeholder_count(spans) ==> (res matches Err(
            EmbeddingError::ImageLength { embeddings, placeholders },
        ) && embeddings == tensor_shape(rows)[0] && placeholders == placeholder_count(spans)),
        tensor_shape(rows)[0] == placeholder_count(spans) ==> !(res matches Err(
            EmbeddingError::ImageLength { embeddings, placeholders },
        )),
{
}

/// Rows that are not as wide as the embeddings are refused.
pub proof fn lemma_wrong_width_is_refused(
    embeds: Tensor,
    rows: Tensor,
    spans: Seq<Span>,
    ids_device: Device,
    res: Result<(Tensor, Tensor), EmbeddingError>,
)
    requires
        splice_outcome(embeds, rows, spans, ids_device, res),
        tensor_shape(embeds).len() == 3,
        tensor_shape(rows).len() > 0,
        tensor_shape(rows)[0] == placeholder_count(spans),
        spans.len() > 0,
    ensures
        tensor_shape(rows).len() != 2 || tensor_shape(rows)[1] != tensor_shape(embeds)[2]
            || tensor_shape(embeds)[2] == 0 <==> (res matches Err(e) && e is ImageWidth),
{
}

/// A span that is empty or leaves the batch is refused, and the first such span is told.
pub proof fn lemma_wrong_span_is_refused(
    embeds: Tensor,
    rows: Tensor,
    spans: Seq<Span>,
    ids_device: Device,
    res: Result<(Tensor, Tensor), EmbeddingError>,
    i: int,
)
    requires
        splice_outcome(embeds, rows, spans, ids_device, res),
        tensor_shape(embeds).len() == 3,
        tensor_shape(rows).len() == 2,
        tensor_shape(rows)[0] == placeholder_count(spans),
        tensor_shape(rows)[1] == tensor_shape(embeds)[2] > 0,
        0 <= i < spans.len(),
        !(0 <= spans[i].batch < tensor_shape(embeds)[0] && 0 <= spans[i].start < spans[i].end
            <= tensor_shape(embeds)[1]),
        forall|k: int|
            #![trigger spans[k]]
            0 <= k < i ==> 0 <= spans[k].batch < tensor_shape(embeds)[0] && 0 <= spans[k].start
                < spans[k].end <= tensor_shape(embeds)[1],
    ensures
        res matches Err(EmbeddingError::Span { batch, start, end }) && batch == spans[i].batch
            && start == spans[i].start && end == spans[i].end,
{
    if let Err(EmbeddingError::Span { batch, start, end }) = res {
        let found = Span { batch: batch as int, start: start as int, end: end as int };
        let shape = tensor_shape(embeds);
        let k = choose|k: int|
            {
                &&& 0 <= k < spans.len()
                &&& #[trigger] spans[k] == found
                &&& !span_fits(found, shape[0] as int, shape[1] as int)
                &&& spans_fit(spans.take(k), shape[0] as int, shape[1] as int)
            };
        if k < i {
            assert(0 <= spans[k].batch < shape[0]);
        } else if k > i {
            assert(spans.take(k)[i] == spans[i]);
        }
    }
}

/// In main memory, rows as many as the placeholders and as wide as the embeddings are spliced onto
/// spans that lie in the batch.
pub proof fn lemma_right_rows_are_spliced(
    embeds: Tensor,
    rows: Tensor,
    spans: Seq<Span>,
    ids_device: Device,
    res: Result<(Tensor, Tensor), EmbeddingError>,
)
    requires
        splice_outcome(embeds, rows, spans, ids_device, res),
        tensor_shape(embeds).len() == 3,
        tensor_shape(rows).len() == 2,
        tensor_shape(rows)[0] == placeholder_count(spans),
        tensor_shape(rows)[1] == tensor_shape(embeds)[2] > 0,
        forall|k: int|
            #![trigger spans[k]]
            0 <= k < spans.len() ==> 0 <= spans[k].batch < tensor_shape(embeds)[0] && 0
                <= spans[k].start < spans[k].end <= tensor_shape(embeds)[1],
        device_on_cpu(ids_device),
        tensor_on_cpu(embeds),
        tensor_on_cpu(rows),
        tensor_type(embeds).is_plain(),
        tensor_type(embeds) == tensor_type(rows),
    ensures
        res is Ok,
{
    if let Err(EmbeddingError::Span { batch, start, end }) = res {
        let found = Span { batch: batch as int, start: start as int, end: end as int };
        let shape = tensor_shape(embeds);
        let k = choose|k: int|
            {
                &&& 0 <= k < spans.len()
                &&& #[trigger] spans[k] == found
                &&& !span_fits(found, shape[0] as int, shape[1] as int)
                &&& spans_fit(spans.take(k), shape[0] as int, shape[1] as int)
            };
        assert(0 <= spans[k].batch < shape[0]);
    }
}

/// A tensor that is moved and cast keeps its shape. In its own type it keeps its elements; in main
/// memory each number is cast on its own.
pub proof fn lemma_conversion_keeps_elements(
    r: Tensor,
    t: Tensor,
    target: Device,
    elem: ElemType,
    i: int,
)
    requires
        is_converted(r, t, target, elem),
        0 <= i < tensor_elems(t).len(),
    ensures
        tensor_shape(r) == tensor_shape(t),
        tensor_type(r) == elem,
        tensor_device(r) == target,
        tensor_elems(r).len() == tensor_elems(t).len(),
        tensor_type(t) == elem ==> tensor_elems(r)[i] == tensor_elems(t)[i],
        tensor_type(t) != elem && device_on_cpu(target) && tensor_type(t).is_plain()
            && elem.is_plain() && tensor_type(t).casts_alike(elem) && !tensor_type(t).is_nan(
            tensor_elems(t)[i],
        ) ==> tensor_elems(r)[i] == cast_bits(tensor_elems(t)[i], tensor_type(t), elem),
{
}

/// What the text block is given for a batch with images. The rows are those of the images, moved to
/// the device of the embeddings and cast to the type of the text block, and they come back. Each
/// feature from inside the vision tower is moved and cast in its place. The tokens of each stream are
/// marked.
pub proof fn lemma_text_block_is_given(
    model: Model,
    input_ids: Tensor,
    input_embeds: Tensor,
    image_embeds: Tensor,
    deepstack: Seq<Tensor>,
    seqlens: Seq<usize>,
    spans: Seq<Span>,
    out: VisionInputs,
    k: int,
    i: int,
    j: int,
) -> (rows: Tensor)
    requires
        model.vision_inputs_outcome(
            input_ids,
            input_embeds,
            image_embeds,
            deepstack,
            seqlens,
            spans,
            Ok(out),
        ),
        seqlens.len() <= usize::MAX,
        0 <= i < seqlens.len(),
        0 <= j < widest(seqlens),
    ensures
        is_converted(rows, image_embeds, tensor_device(input_embeds), model.text_type),
        splice_outcome(
            input_embeds,
            rows,
            spans,
            tensor_device(input_ids),
            Ok((out.input_embeds, out.visual_pos_mask)),
        ),
        out.deepstack_image_embeds@.len() == deepstack.len(),
        0 <= k < deepstack.len() ==> is_converted(
            out.deepstack_image_embeds@[k],
            deepstack[k],
            tensor_device(input_embeds),
            model.text_type,
        ),
        tensor_device(out.length_mask) == tensor_device(input_ids),
        tensor_shape(out.length_mask)[0] == seqlens.len(),
        tensor_shape(out.length_mask)[1] == widest(seqlens),
        j < seqlens[i] ==> tensor_elems(out.length_mask)[i * widest(seqlens) + j]
            == ElemType::F32.one(),
        j >= seqlens[i] ==> tensor_elems(out.length_mask)[i * widest(seqlens) + j] == 0,
{
    lemma_mask_marks_lengths(out.length_mask, seqlens, i, j);
    choose|rows: Tensor|
        {
            &&& #[trigger] is_converted(
                rows,
                image_embeds,
                tensor_device(input_embeds),
                model.text_type,
            )
            &&& splice_outcome(
                input_embeds,
                rows,
                spans,
                tensor_device(input_ids),
                Ok((out.input_embeds, out.visual_pos_mask)),
            )
        }
}

/// In main memory, a batch with images gets its inputs wherever the rows are as many as the
/// placeholders and as wide as the embeddings, the spans lie in the batch, and there is a stream.
pub proof fn lemma_text_block_is_served(
    model: Model,
    input_ids: Tensor,
    input_embeds: Tensor,
    image_embeds: Tensor,
    deepstack: Seq<Tensor>,
    seqlens: Seq<usize>,
    spans: Seq<Span>,
    res: Result<VisionInputs, EmbeddingError>,
)
    requires
        model.vision_inputs_outcome(
            input_ids,
            input_embeds,
            image_embeds,
            deepstack,
            seqlens,
            spans,
            res,
        ),
        tensor_shape(input_embeds).len() == 3,
        tensor_shape(image_embeds).len() == 2,
        tensor_shape(image_embeds)[0] == placeholder_count(spans),
        tensor_shape(image_embeds)[1] == tensor_shape(input_embeds)[2] > 0,
        forall|k: int|
            #![trigger spans[k]]
            0 <= k < spans.len() ==> 0 <= spans[k].batch < tensor_shape(input_embeds)[0] && 0
                <= spans[k].start < spans[k].end <= tensor_shape(input_embeds)[1],
        seqlens.len() > 0,
        tensor_on_cpu(input_ids),
        tensor_on_cpu(input_embeds),
        tensor_on_cpu(image_embeds),
        tensor_type(input_embeds) == model.text_type,
        model.text_type.is_plain(),
        tensor_type(image_embeds).is_plain(),
        forall|i: int|
            #![trigger deepstack[i]]
            0 <= i < deepstack.len() ==> tensor_on_cpu(deepstack[i]) && tensor_type(
                deepstack[i],
            ).is_plain(),
    ensures
        res is Ok,
{
    if let Err(e) = res {
        let (target, ids_device) = (tensor_device(input_embeds), tensor_device(input_ids));
        assert(model.rows_outcome(input_embeds, image_embeds, spans, ids_device, Err(e)));
        let rows = choose|rows: Tensor|
            {
                &&& #[trigger] is_converted(rows, image_embeds, target, model.text_type)
                &&& splice_outcome(input_embeds, rows, spans, ids_device, Err(e))
            };
        lemma_right_rows_are_spliced(input_embeds, rows, spans, ids_device, Err(e));
    }
}

/// In main memory, a batch for which the vision tower did not give one row per placeholder is refused
/// with both numbers, whatever else is given.
pub proof fn lemma_text_block_is_not_served(
    model: Model,
    input_ids: Tensor,
    input_embeds: Tensor,
    image_embeds: Tensor,
    deepstack: Seq<Tensor>,
    seqlens: Seq<usize>,
    spans: Seq<Span>,
    res: Result<VisionInputs, EmbeddingError>,
)
    requires
        model.vision_inputs_outcome(
            input_ids,
            input_embeds,
            image_embeds,
            deepstack,
            seqlens,
            spans,
            res,
        ),
        tensor_shape(input_embeds).len() == 3,
        tensor_shape(image_embeds).len() > 0,
        tensor_shape(image_embeds)[0] != placeholder_count(spans),
        tensor_on_cpu(input_embeds),
        tensor_on_cpu(image_embeds),
        model.text_type.is_plain(),
        tensor_type(image_embeds).is_plain(),
        forall|i: int|
            #![trigger deepstack[i]]
            0 <= i < deepstack.len() ==> tensor_on_cpu(deepstack[i]) && tensor_type(
                deepstack[i],
            ).is_plain(),
    ensures
        res matches Err(EmbeddingError::ImageLength { embeddings, placeholders }) && embeddings
            == tensor_shape(image_embeds)[0] && placeholders == placeholder_count(spans),
{
}

/// Inputs are made for every batch whose spans do not end before they start and whose sizes, counted
/// with eight bytes per element, fit.
pub proof fn lemma_inputs_can_be_made(
    model: Model,
    input_embeds: Tensor,
    image_embeds: Tensor,
    deepstack: Seq<Tensor>,
    seqlens: Seq<usize>,
    spans: Seq<Span>,
)
    requires
        forall|k: int|
            #![trigger spans[k]]
            0 <= k < spans.len() ==> 0 <= spans[k].start <= spans[k].end,
        placeholder_count(spans) <= usize::MAX,
        span(tensor_shape(input_embeds)) * 8 <= isize::MAX,
        span(tensor_shape(input_embeds).take(2)) * 8 <= isize::MAX,
        span(tensor_shape(image_embeds)) * 8 <= isize::MAX,
        tensor_type(image_embeds) != ElemType::F8E4M3 || model.text_type != ElemType::F64,
        forall|i: int|
            #![trigger deepstack[i]]
            0 <= i < deepstack.len() ==> span(tensor_shape(deepstack[i])) * 8 <= isize::MAX
                && (tensor_type(deepstack[i]) != ElemType::F8E4M3 || model.text_type
                != ElemType::F64),
        seqlens.len() <= usize::MAX,
        (seqlens.len() + 1) * (widest(seqlens) + 1) * 4 <= isize::MAX,
        widest(seqlens) <= usize::MAX,
    ensures
        model.vision_inputs_sized(input_embeds, image_embeds, deepstack, seqlens, spans),
{
    let e = model.text_type;
    lemma_eight_bytes(tensor_shape(input_embeds), tensor_type(input_embeds));
    lemma_eight_bytes(tensor_shape(input_embeds), e);
    lemma_eight_bytes(tensor_shape(image_embeds), tensor_type(image_embeds));
    lemma_eight_bytes(tensor_shape(image_embeds), e);
    lemma_eight_bytes(tensor_shape(input_embeds).take(2), ElemType::F32);
    assert forall|i: int| #![trigger deepstack[i]] 0 <= i < deepstack.len() implies sized(
        tensor_shape(deepstack[i]),
        tensor_type(deepstack[i]).bytes(),
    ) && sized(tensor_shape(deepstack[i]), e.bytes()) by {
        lemma_eight_bytes(tensor_shape(deepstack[i]), tensor_type(deepstack[i]));
        lemma_eight_bytes(tensor_shape(deepstack[i]), e);
    }
    let (n, w) = (seqlens.len() as usize, widest(seqlens) as usize);
    lemma_rank_2(n, w, 0, 0);
    let (a, b) = (
        if n == 0 {
            1
        } else {
            n as int
        },
        if w == 0 {
            1
        } else {
            w as int
        },
    );
    assert(a * b * 4 <= (n + 1) * (w + 1) * 4) by (nonlinear_arith)
        requires
            1 <= a <= n + 1,
            1 <= b <= w + 1,
    ;
}

/// No element takes more than eight bytes.
proof fn lemma_eight_bytes(dims: Seq<usize>, elem: ElemType)
    requires
        span(dims) * 8 <= isize::MAX,
    ensures
        sized(dims, elem.bytes()),
{
    let (s, w) = (span(dims), elem.bytes());
    assert(s * w <= s * 8) by (nonlinear_arith)
        requires
            w <= 8,
    ;
}

/// In main memory a matrix of token ids gets its position ids, and nothing but a matrix does.
pub proof fn lemma_matrix_gets_positions(
    input_ids: Tensor,
    res: Result<Tensor, EmbeddingError>,
)
    requires
        positions_outcome(input_ids, res),
    ensures
        tensor_shape(input_ids).len() != 2 ==> res is Err,
        tensor_shape(input_ids).len() == 2 && tensor_on_cpu(input_ids) ==> res is Ok,
        res matches Ok(t) ==> counts_tokens(t, tensor_shape(input_ids)[0], tensor_shape(input_ids)[1])
            && tensor_device(t) == tensor_device(input_ids),
        res matches Err(e) ==> e is Tensor,
{
}

/// Position ids are made wherever three times eight bytes per token can be addressed.
pub proof fn lemma_positions_can_be_made(input_ids: Tensor)
    requires
        tensor_shape(input_ids).len() == 2 ==> (tensor_shape(input_ids)[0] + 1) * (tensor_shape(
            input_ids,
        )[1] + 1) * 24 <= isize::MAX,
    ensures
        positions_sized(input_ids),
{
    if tensor_shape(input_ids).len() == 2 {
        let (n, w) = (tensor_shape(input_ids)[0], tensor_shape(input_ids)[1]);
        lemma_rank_3(3, n, w, 0, 0, 0);
        let (a, b) = (
            if n == 0 {
                1
            } else {
                n as int
            },
            if w == 0 {
                1
            } else {
                w as int
            },
        );
        assert(3 * (a * b) * 8 <= (n + 1) * (w + 1) * 24) by (nonlinear_arith)
            requires
                1 <= a <= n + 1,
                1 <= b <= w + 1,
        ;
    }
}

/// In main memory patches are folded unless they are of size zero.
pub proof fn lemma_patches_are_folded(pixels: Tensor, res: Result<Tensor, EmbeddingError>)
    requires
        flatten_outcome(pixels, res),
    ensures
        tensor_shape(pixels).len() <= 2 ==> res is Ok,
        tensor_shape(pixels).len() > 2 && tensor_shape(pixels).last() == 0 ==> res is Err,
        tensor_shape(pixels).len() > 2 && tensor_shape(pixels).last() > 0 && tensor_on_cpu(pixels)
            && tensor_type(pixels).is_plain() ==> res is Ok,
        res matches Ok(t) ==> is_flattened(t, pixels),
        res matches Err(e) ==> e is Tensor,
{
}

} // verus!
