//! What holds across the preparation of inputs and the splicing of images.

use candle_core::{Device, Tensor};
use image::DynamicImage;
use vstd::prelude::*;

use crate::error::EmbeddingError;
use crate::model::{convertible_on_cpu, is_converted, Model, VisionInputs};
use crate::positions::widest;
use crate::processor::{token_streams, EmbeddingInputsProcessor};
use crate::prompt::{lemma_longest, longest};
use crate::resize::{are_capped, holds_capped, lemma_capped_images_are_kept};
use crate::sequence::Sequence;
use crate::splice::{
    all_spans, countable, disjoint, lengths_fit, on_span, placeholder_count, ranks_fit, row_for,
    span_fits, splice_fits, splice_on_cpu, splice_outcome, stream_spans, Span,
};
use crate::tensor::{
    alike, all_plain_on_cpu, device_on_cpu, tensor_device, tensor_on_cpu, tensor_shape,
    tensor_type,
};
use crate::vision_meta::{
    all_hashes, all_images, all_pixels, placeholder_spans, placeholders_added, placeholders_fit,
    placeholders_placed, sequence_tokens, PreparedImage, PreparedImages, VisionEmbeddingMeta,
};

verus! {

/// The number of tokens that stand for the images of several sequences.
pub open spec fn total_tokens(lists: Seq<Vec<PreparedImage>>, merge_size: usize) -> nat
    decreases lists.len(),
{
    if lists.len() == 0 {
        0
    } else {
        total_tokens(lists.drop_last(), merge_size) + sequence_tokens(lists.last()@, merge_size)
    }
}

/// Spans that stand at the head of each stream, one where there is a placeholder.
spec fn head_spans(
    pads: Seq<Vec<(usize, usize)>>,
    lists: Seq<Vec<PreparedImage>>,
    merge_size: usize,
) -> bool {
    &&& pads.len() == lists.len()
    &&& forall|k: int|
        0 <= k < lists.len() ==> (#[trigger] pads[k])@ == placeholder_spans(
            sequence_tokens(lists[k]@, merge_size),
        )
    &&& forall|k: int|
        0 <= k < lists.len() ==> sequence_tokens((#[trigger] lists[k])@, merge_size) <= usize::MAX
}

/// Spans at the heads of the streams: which they are, how many placeholders they hold, and which row
/// lands on which position.
proof fn lemma_head_spans(
    pads: Seq<Vec<(usize, usize)>>,
    lists: Seq<Vec<PreparedImage>>,
    merge_size: usize,
)
    requires
        head_spans(pads, lists, merge_size),
    ensures
        placeholder_count(all_spans(pads)) == total_tokens(lists, merge_size),
        forall|i: int|
            0 <= i < all_spans(pads).len() ==> {
                let s = #[trigger] all_spans(pads)[i];
                &&& 0 <= s.batch < lists.len()
                &&& s.start == 0
                &&& s.end == sequence_tokens(lists[s.batch]@, merge_size) > 0
            },
        forall|i: int, j: int|
            0 <= i < j < all_spans(pads).len() ==> (#[trigger] all_spans(pads)[i]).batch < (
            #[trigger] all_spans(pads)[j]).batch,
        forall|k: int, pos: int|
            0 <= k < lists.len() && 0 <= pos ==> #[trigger] row_for(all_spans(pads), k, pos)
                == if pos < sequence_tokens(lists[k]@, merge_size) {
                Some(total_tokens(lists.take(k), merge_size) + pos)
            } else {
                None
            },
        forall|k: int, pos: int|
            !(0 <= k < lists.len()) ==> #[trigger] row_for(all_spans(pads), k, pos) is None,
    decreases lists.len(),
{
    if lists.len() > 0 {
        let n = lists.len() - 1;
        let (p, l) = (pads.drop_last(), lists.drop_last());
        assert(head_spans(p, l, merge_size)) by {
            assert forall|k: int| 0 <= k < l.len() implies (#[trigger] p[k])@ == placeholder_spans(
                sequence_tokens(l[k]@, merge_size),
            ) by {
                assert(pads[k] == p[k]);
            }
            assert forall|k: int| 0 <= k < l.len() implies sequence_tokens(
                (#[trigger] l[k])@,
                merge_size,
            ) <= usize::MAX by {
                assert(lists[k] == l[k]);
            }
        }
        lemma_head_spans(p, l, merge_size);
        let tokens = sequence_tokens(lists[n]@, merge_size);
        assert(pads[n]@ == placeholder_spans(tokens));
        assert(lists.last() == lists[n] && pads.last() == pads[n]);
        assert forall|k: int| 0 <= k < n implies #[trigger] lists.take(k) == l.take(k) by {
            assert(lists.take(k) =~= l.take(k));
        }
        assert(lists.take(n) =~= l);
        let own = stream_spans(n, pads[n]@);
        if tokens > 0 {
            assert(own =~= seq![Span { batch: n, start: 0, end: tokens as int }]);
            assert(all_spans(pads).drop_last() =~= all_spans(p));
        } else {
            assert(own =~= seq![]);
            assert(all_spans(pads) =~= all_spans(p));
        }
        assert forall|k: int, pos: int| 0 <= k < lists.len() && 0 <= pos implies #[trigger] row_for(
            all_spans(pads),
            k,
            pos,
        ) == if pos < sequence_tokens(lists[k]@, merge_size) {
            Some(total_tokens(lists.take(k), merge_size) + pos)
        } else {
            None
        } by {
            if k < n {
                assert(l[k] == lists[k]);
                assert(row_for(all_spans(pads), k, pos) == row_for(all_spans(p), k, pos));
                assert(lists.take(k) == l.take(k));
            } else {
                assert(row_for(all_spans(p), k, pos) is None);
            }
        }
        assert forall|k: int, pos: int| !(0 <= k < lists.len()) implies #[trigger] row_for(
            all_spans(pads),
            k,
            pos,
        ) is None by {
            assert(row_for(all_spans(p), k, pos) is None);
        }
    }
}

/// Each row of the image embeddings lands in the sequence that its image came with: the rows are
/// dealt out sequence by sequence, and within a sequence from its first placeholder on. No row lands
/// behind the placeholders.
pub proof fn lemma_rows_land_in_their_sequence(
    before: Seq<Sequence>,
    lists: Seq<Vec<PreparedImage>>,
    merge_size: usize,
    meta: VisionEmbeddingMeta,
    k: int,
    pos: int,
)
    requires
        lists.len() == before.len(),
        placeholders_fit(before, lists, merge_size),
        meta.describes(before, lists, merge_size),
        0 <= k < before.len(),
        0 <= pos,
    ensures
        row_for(all_spans(meta.continuous_img_pad@), k, pos) == if pos < sequence_tokens(
            lists[k]@,
            merge_size,
        ) {
            Some(total_tokens(lists.take(k), merge_size) + pos)
        } else {
            None
        },
{
    lemma_meta_spans(before, lists, merge_size, meta);
    lemma_head_spans(meta.continuous_img_pad@, lists, merge_size);
}

/// The spans that are described stand at the heads of the streams.
proof fn lemma_meta_spans(
    before: Seq<Sequence>,
    lists: Seq<Vec<PreparedImage>>,
    merge_size: usize,
    meta: VisionEmbeddingMeta,
)
    requires
        lists.len() == before.len(),
        placeholders_fit(before, lists, merge_size),
        meta.describes(before, lists, merge_size),
    ensures
        head_spans(meta.continuous_img_pad@, lists, merge_size),
{
}

/// The width of the batch is the longest of the lengths that are described to the model.
pub proof fn lemma_lengths_match_batch(
    before: Seq<Sequence>,
    after: Seq<Sequence>,
    lists: Seq<Vec<PreparedImage>>,
    token: u32,
    merge_size: usize,
    meta: VisionEmbeddingMeta,
)
    requires
        lists.len() == before.len(),
        placeholders_placed(before, after, lists, token, merge_size),
        meta.describes(before, lists, merge_size),
    ensures
        widest(meta.seqlens@) == longest(token_streams(after)),
{
    assert forall|k: int| 0 <= k < before.len() implies #[trigger] meta.seqlens@[k]
        == token_streams(after)[k].len() by {
        assert(placeholders_added(
            before[k],
            after[k],
            token,
            sequence_tokens(lists[k]@, merge_size),
        ));
    }
    lemma_widest_is_longest(meta.seqlens@, token_streams(after));
}

/// The longest of several lists is as long as the largest of their lengths.
proof fn lemma_widest_is_longest(lens: Seq<usize>, lists: Seq<Seq<u32>>)
    requires
        lens.len() == lists.len(),
        forall|k: int| 0 <= k < lens.len() ==> #[trigger] lens[k] == lists[k].len(),
    ensures
        widest(lens) == longest(lists),
    decreases lens.len(),
{
    if lens.len() > 0 {
        lemma_widest_is_longest(lens.drop_last(), lists.drop_last());
    }
}

/// The placeholders that the preparation puts into the token streams give the rows of the images
/// room: where the token embeddings have one row for each token of the batch, and the vision tower
/// one row for each placeholder, the rows can be spliced, and no two of them meet.
pub proof fn lemma_rows_have_room(
    before: Seq<Sequence>,
    after: Seq<Sequence>,
    lists: Seq<Vec<PreparedImage>>,
    token: u32,
    merge_size: usize,
    meta: VisionEmbeddingMeta,
    embeds: Tensor,
    rows: Tensor,
    hidden: usize,
)
    requires
        lists.len() == before.len() <= usize::MAX,
        placeholders_fit(before, lists, merge_size),
        placeholders_placed(before, after, lists, token, merge_size),
        meta.describes(before, lists, merge_size),
        total_tokens(lists, merge_size) <= usize::MAX,
        longest(token_streams(after)) <= usize::MAX,
        hidden > 0,
        tensor_shape(embeds) == seq![
            before.len() as usize,
            longest(token_streams(after)) as usize,
            hidden,
        ],
        tensor_shape(rows) == seq![total_tokens(lists, merge_size) as usize, hidden],
    ensures
        countable(all_spans(meta.continuous_img_pad@)),
        disjoint(all_spans(meta.continuous_img_pad@)),
        splice_fits(embeds, rows, all_spans(meta.continuous_img_pad@)),
{
    let spans = all_spans(meta.continuous_img_pad@);
    lemma_meta_spans(before, lists, merge_size, meta);
    lemma_head_spans(meta.continuous_img_pad@, lists, merge_size);
    assert forall|i: int| 0 <= i < spans.len() implies span_fits(
        #[trigger] spans[i],
        before.len() as int,
        longest(token_streams(after)) as int,
    ) by {
        let k = spans[i].batch;
        assert(placeholders_added(
            before[k],
            after[k],
            token,
            sequence_tokens(lists[k]@, merge_size),
        ));
        lemma_longest(token_streams(after), k);
    }
    assert(disjoint(spans)) by {
        assert forall|i: int, j: int, batch: int, pos: int|
            0 <= i < j < spans.len() && #[trigger] on_span(
                spans[i],
                batch,
                pos,
            ) implies !#[trigger] on_span(spans[j], batch, pos) by {
            assert(spans[i].batch < spans[j].batch);
        }
    }
}

/// In main memory, rows that can be spliced are spliced: whatever comes out for a batch whose rows
/// fit is a success.
pub proof fn lemma_fitting_rows_are_spliced(
    model: Model,
    input_ids: Tensor,
    input_embeds: Tensor,
    image_embeds: Tensor,
    deepstack: Seq<Tensor>,
    seqlens: Seq<usize>,
    spans: Seq<Span>,
    res: Result<VisionInputs, EmbeddingError>,
)
    requires
        model.vision_inputs_outcome(
            input_ids,
            input_embeds,
            image_embeds,
            deepstack,
            seqlens,
            spans,
            res,
        ),
        splice_fits(input_embeds, image_embeds, spans),
        seqlens.len() > 0,
        tensor_on_cpu(input_ids),
        tensor_on_cpu(input_embeds),
        tensor_type(input_embeds) == model.text_type,
        convertible_on_cpu(image_embeds, tensor_device(input_embeds), model.text_type),
        forall|i: int|
            0 <= i < deepstack.len() ==> convertible_on_cpu(
                #[trigger] deepstack[i],
                tensor_device(input_embeds),
                model.text_type,
            ),
    ensures
        res is Ok,
{
    if let Err(e) = res {
        assert(model.rows_outcome(
            input_embeds,
            image_embeds,
            spans,
            tensor_device(input_ids),
            Err(e),
        ));
        let target = tensor_device(input_embeds);
        let ids_device = tensor_device(input_ids);
        let rows = choose|rows: Tensor|
            {
                &&& #[trigger] is_converted(rows, image_embeds, target, model.text_type)
                &&& splice_outcome(input_embeds, rows, spans, ids_device, Err(e))
            };
        assert(splice_fits(input_embeds, rows, spans));
        assert(splice_on_cpu(input_embeds, rows, spans, ids_device));
    }
}

/// In main memory, a batch for which the vision tower did not give one row per placeholder is refused
/// with both numbers.
pub proof fn lemma_row_mismatch_is_refused(
    model: Model,
    input_ids: Tensor,
    input_embeds: Tensor,
    image_embeds: Tensor,
    deepstack: Seq<Tensor>,
    seqlens: Seq<usize>,
    spans: Seq<Span>,
    res: Result<VisionInputs, EmbeddingError>,
)
    requires
        model.vision_inputs_outcome(
            input_ids,
            input_embeds,
            image_embeds,
            deepstack,
            seqlens,
            spans,
            res,
        ),
        ranks_fit(input_embeds, image_embeds),
        !lengths_fit(image_embeds, spans),
        convertible_on_cpu(image_embeds, tensor_device(input_embeds), model.text_type),
        forall|i: int|
            0 <= i < deepstack.len() ==> convertible_on_cpu(
                #[trigger] deepstack[i],
                tensor_device(input_embeds),
                model.text_type,
            ),
    ensures
        res matches Err(EmbeddingError::ImageLength { embeddings, placeholders }) && embeddings
            == tensor_shape(image_embeds)[0] && placeholders == placeholder_count(spans),
{
}

/// Sequences that differ at most in their images.
pub open spec fn same_but_images(a: Sequence, b: Sequence) -> bool {
    &&& a.toks@ == b.toks@
    &&& a.token_offset == b.token_offset
    &&& a.has_images == b.has_images
    &&& match (a.image_hashes, b.image_hashes) {
        (Some(x), Some(y)) => x@ == y@,
        (None, None) => true,
        _ => false,
    }
}

/// Descriptions that tell a model the same.
pub open spec fn same_meta(a: VisionEmbeddingMeta, b: VisionEmbeddingMeta) -> bool {
    &&& alike(a.pixel_values, b.pixel_values)
    &&& alike(a.image_grid_thw, b.image_grid_thw)
    &&& a.seqlens@ == b.seqlens@
    &&& a.continuous_img_pad@.len() == b.continuous_img_pad@.len()
    &&& forall|k: int|
        0 <= k < a.continuous_img_pad@.len() ==> (#[trigger] a.continuous_img_pad@[k])@
            == b.continuous_img_pad@[k]@
    &&& a.image_hashes@ == b.image_hashes@
}

/// Results that tell a model the same, or give the same reason for which there is none.
pub open spec fn same_result(
    a: Result<Option<VisionEmbeddingMeta>, EmbeddingError>,
    b: Result<Option<VisionEmbeddingMeta>, EmbeddingError>,
) -> bool {
    match (a, b) {
        (Ok(None), Ok(None)) => true,
        (Ok(Some(x)), Ok(Some(y))) => same_meta(x, y),
        (Err(EmbeddingError::Preprocess(x)), Err(EmbeddingError::Preprocess(y))) => x == y,
        (Err(EmbeddingError::Tensor(_)), Err(EmbeddingError::Tensor(_))) => true,
        _ => false,
    }
}

/// Sequences with the same hashes have the same hashes together.
proof fn lemma_same_hashes(a: Seq<Sequence>, b: Seq<Sequence>)
    requires
        a.len() == b.len(),
        forall|k: int| 0 <= k < a.len() ==> same_but_images(#[trigger] a[k], b[k]),
    ensures
        all_hashes(a) == all_hashes(b),
    decreases a.len(),
{
    if a.len() > 0 {
        let n = a.len() - 1;
        assert(same_but_images(a[n], b[n]));
        assert forall|k: int| 0 <= k < n implies same_but_images(
            #[trigger] a.drop_last()[k],
            b.drop_last()[k],
        ) by {
            assert(same_but_images(a[k], b[k]));
        }
        lemma_same_hashes(a.drop_last(), b.drop_last());
    }
}

/// Only the images under the cap matter. Take two runs on the same sequences, but for the images of
/// the second, which are those that the first hands to the preprocessing after the cap. Then both
/// hand the same images to the preprocessing, whatever it makes of them. The token streams come out
/// the same, and so does what the model is told, unless a device gives up in one run alone.
pub proof fn lemma_only_capped_images_matter(
    processor: EmbeddingInputsProcessor,
    device: Device,
    preprocess: spec_fn(Seq<Seq<DynamicImage>>) -> PreparedImages,
    before: Seq<Sequence>,
    handed: Seq<Seq<DynamicImage>>,
    after: Seq<Sequence>,
    res: Result<Option<VisionEmbeddingMeta>, EmbeddingError>,
    before_capped: Seq<Sequence>,
    handed_capped: Seq<Seq<DynamicImage>>,
    after_capped: Seq<Sequence>,
    res_capped: Result<Option<VisionEmbeddingMeta>, EmbeddingError>,
)
    requires
        before.len() == before_capped.len() == handed.len() == handed_capped.len(),
        forall|k: int|
            0 <= k < before.len() ==> same_but_images(#[trigger] before[k], before_capped[k])
                && holds_capped(before_capped[k], before[k], handed[k]) && are_capped(
                handed[k],
                before[k],
            ) && are_capped(handed_capped[k], before_capped[k]),
        processor.wants_vision(before) ==> processor.accepts(before, preprocess(handed)),
        processor.vision_outcome(before, after, preprocess(handed), device, res),
        processor.vision_outcome(
            before_capped,
            after_capped,
            preprocess(handed_capped),
            device,
            res_capped,
        ),
    ensures
        handed_capped == handed,
        token_streams(after_capped) == token_streams(after),
        res is Ok && res_capped is Ok || device_on_cpu(device) && all_plain_on_cpu(
            all_pixels(all_images(preprocess(handed).per_sequence@)),
        ) ==> same_result(res, res_capped),
{
    assert forall|k: int| 0 <= k < before.len() implies #[trigger] handed_capped[k]
        == handed[k] by {
        assert(same_but_images(before[k], before_capped[k]));
        lemma_capped_images_are_kept(before[k], handed[k], before_capped[k], handed_capped[k]);
    }
    assert(handed_capped =~= handed);
    lemma_same_hashes(before, before_capped);
    let wants = processor.wants_vision(before);
    assert(wants == processor.wants_vision(before_capped)) by {
        if wants {
            let i = choose|i: int| 0 <= i < before.len() && (#[trigger] before[i]).has_images;
            assert(before_capped[i].has_images);
        }
        if processor.wants_vision(before_capped) {
            let i = choose|i: int|
                0 <= i < before.len() && (#[trigger] before_capped[i]).has_images;
            assert(before[i].has_images);
        }
    }
    let lists = preprocess(handed).per_sequence@;
    assert forall|k: int| 0 <= k < before.len() implies #[trigger] token_streams(after_capped)[k]
        == token_streams(after)[k] by {
        assert(same_but_images(before[k], before_capped[k]));
        if wants && k < lists.len() {
            let n = sequence_tokens(lists[k]@, processor.merge_size());
            let token = processor.vision_image_token_id->0;
            assert(placeholders_added(before[k], after[k], token, n));
            assert(placeholders_added(before_capped[k], after_capped[k], token, n));
        }
    }
    assert(token_streams(after_capped) =~= token_streams(after));
    if let (Ok(Some(a)), Ok(Some(b))) = (res, res_capped) {
        assert forall|k: int| 0 <= k < before.len() implies a.seqlens@[k] == b.seqlens@[k] by {
            assert(same_but_images(before[k], before_capped[k]));
        }
        assert(a.seqlens@ =~= b.seqlens@);
        assert forall|k: int| 0 <= k < before.len() implies (#[trigger] a.continuous_img_pad@[k])@
            == b.continuous_img_pad@[k]@ by {
            let spans = placeholder_spans(sequence_tokens(lists[k]@, processor.merge_size()));
            assert(a.continuous_img_pad@[k]@ == spans);
            assert(b.continuous_img_pad@[k]@ == spans);
        }
    }
}

} // verus!
