//! What holds of the inputs that are made for a model, said of tokens, images and tensors themselves.

use candle_core::Device;
use vstd::prelude::*;

use crate::error::EmbeddingError;
use crate::laws::total_tokens;
use crate::processor::{token_streams, EmbeddingInputsProcessor, InputProcessorOutput};
use crate::prompt::{
    lemma_batch_holds_every_token, lemma_kernels_are_told_lengths, lemma_longest,
    lemma_longest_is_attained, lemma_short_lists_fit, lemma_unused_kernels_are_told_nothing,
    longest, FlashParams,
};
use crate::sequence::Sequence;
use crate::tensor::{
    cat_sized, device_on_cpu, lemma_matching_tensors_can_be_joined, tensor_device, tensor_elems,
    tensor_on_cpu, tensor_shape, tensor_type, ElemType,
};
use crate::vision_meta::{
    all_images, all_pixels, lemma_all_images, lemma_tokens_of_sequence, placeholders_added,
    sequence_tokens, tokens_fit, PreparedImage, PreparedImages, VisionEmbeddingMeta,
};

verus! {

/// The tokens of all the sequences together are those of all their images.
pub proof fn lemma_total_tokens(lists: Seq<Vec<PreparedImage>>, merge_size: usize)
    ensures
        total_tokens(lists, merge_size) == sequence_tokens(all_images(lists), merge_size),
    decreases lists.len(),
{
    if lists.len() > 0 {
        lemma_total_tokens(lists.drop_last(), merge_size);
        lemma_tokens_of_sequence(all_images(lists.drop_last()), lists.last()@, merge_size);
    }
}

/// A batch for which vision is not configured, or in which no sequence was made with images, is left
/// alone, and there is nothing to tell the model of images.
pub proof fn lemma_text_batch_is_left_alone(
    processor: EmbeddingInputsProcessor,
    before: Seq<Sequence>,
    after: Seq<Sequence>,
    prepared: PreparedImages,
    device: Device,
    res: Result<Option<VisionEmbeddingMeta>, EmbeddingError>,
)
    requires
        processor.vision_outcome(before, after, prepared, device, res),
        processor.vision_image_token_id is None || forall|k: int|
            0 <= k < before.len() ==> !(#[trigger] before[k]).has_images,
    ensures
        after == before,
        res is Ok,
        res->Ok_0 is None,
{
    processor.lemma_one_sequence_with_images_is_enough(before);
}

/// Where vision is configured and some sequence was made with images, each sequence that was
/// preprocessed gets one placeholder at its head for each token of its images, its own tokens follow,
/// and nothing else of it changes. The other sequences do not change at all.
pub proof fn lemma_placeholders_head_each_stream(
    processor: EmbeddingInputsProcessor,
    before: Seq<Sequence>,
    after: Seq<Sequence>,
    prepared: PreparedImages,
    device: Device,
    res: Result<Option<VisionEmbeddingMeta>, EmbeddingError>,
    token: u32,
    j: int,
    k: int,
)
    requires
        processor.vision_outcome(before, after, prepared, device, res),
        processor.vision_image_token_id == Some(token),
        0 <= j < before.len(),
        before[j].has_images,
        0 <= k < before.len(),
    ensures
        after.len() == before.len(),
        k >= prepared.per_sequence@.len() ==> after[k] == before[k],
        k < prepared.per_sequence@.len() ==> {
            let n = sequence_tokens(prepared.per_sequence@[k]@, processor.merge_size());
            &&& after[k].toks@.len() == n + before[k].toks@.len()
            &&& forall|x: int| 0 <= x < n ==> #[trigger] after[k].toks@[x] == token
            &&& forall|x: int|
                0 <= x < before[k].toks@.len() ==> after[k].toks@[n + x]
                    == #[trigger] before[k].toks@[x]
            &&& after[k].token_offset == before[k].token_offset
            &&& after[k].has_images == before[k].has_images
            &&& after[k].images == before[k].images
            &&& after[k].image_hashes == before[k].image_hashes
        },
{
    processor.lemma_one_sequence_with_images_is_enough(before);
    assert(processor.wants_vision(before));
    if k < prepared.per_sequence@.len() {
        let n = sequence_tokens(prepared.per_sequence@[k]@, processor.merge_size());
        assert(placeholders_added(before[k], after[k], token, n));
    }
}

/// An image that failed is reported as it failed, whatever became of the others.
pub proof fn lemma_failed_image_is_reported(
    processor: EmbeddingInputsProcessor,
    before: Seq<Sequence>,
    after: Seq<Sequence>,
    prepared: PreparedImages,
    device: Device,
    res: Result<Option<VisionEmbeddingMeta>, EmbeddingError>,
    j: int,
)
    requires
        processor.vision_outcome(before, after, prepared, device, res),
        processor.vision_image_token_id is Some,
        0 <= j < before.len(),
        before[j].has_images,
    ensures
        prepared.failure matches Some(e) ==> (res matches Err(EmbeddingError::Preprocess(f)) && f
            == e),
        prepared.failure is None ==> !(res matches Err(EmbeddingError::Preprocess(_))),
{
    processor.lemma_one_sequence_with_images_is_enough(before);
    assert(processor.wants_vision(before));
}

/// A sequence with an image adds an image to the batch.
proof fn lemma_some_image(lists: Seq<Vec<PreparedImage>>, k: int)
    requires
        0 <= k < lists.len(),
        lists[k]@.len() > 0,
    ensures
        all_images(lists).len() > 0,
{
    lemma_all_images(lists.take(k + 1), lists.skip(k + 1));
    assert(lists.take(k + 1) + lists.skip(k + 1) =~= lists);
    assert(lists.take(k + 1).drop_last() =~= lists.take(k));
}

/// The images of a batch are not dropped: where one sequence was made with images and the
/// preprocessing gave an image, the model is told of all the images. This is owed in main memory where
/// the patches agree in all but their number; elsewhere a tensor operation can fail, and nothing else.
pub proof fn lemma_images_are_told(
    processor: EmbeddingInputsProcessor,
    before: Seq<Sequence>,
    after: Seq<Sequence>,
    prepared: PreparedImages,
    device: Device,
    res: Result<Option<VisionEmbeddingMeta>, EmbeddingError>,
    j: int,
    k: int,
)
    requires
        processor.vision_outcome(before, after, prepared, device, res),
        processor.vision_image_token_id is Some,
        0 <= j < before.len(),
        before[j].has_images,
        prepared.failure is None,
        0 <= k < prepared.per_sequence@.len(),
        prepared.per_sequence@[k]@.len() > 0,
    ensures
        ({
            let images = all_images(prepared.per_sequence@);
            &&& res is Ok ==> {
                &&& res->Ok_0 is Some
                &&& (res->Ok_0->0).describes(
                    before,
                    prepared.per_sequence@,
                    processor.merge_size(),
                )
                &&& tensor_device((res->Ok_0->0).image_grid_thw) == device
            }
            &&& res is Err ==> res->Err_0 is Tensor
            &&& device_on_cpu(device) && (forall|i: int|
                #![trigger images[i]]
                0 <= i < images.len() ==> {
                    &&& tensor_on_cpu(images[i].pixels)
                    &&& tensor_type(images[i].pixels).is_plain()
                    &&& tensor_shape(images[i].pixels).len() == tensor_shape(images[0].pixels).len()
                        > 0
                    &&& tensor_type(images[i].pixels) == tensor_type(images[0].pixels)
                    &&& forall|x: int|
                        1 <= x < tensor_shape(images[0].pixels).len() ==> tensor_shape(
                            images[i].pixels,
                        )[x] == tensor_shape(images[0].pixels)[x]
                }) ==> res is Ok
        }),
{
    processor.lemma_one_sequence_with_images_is_enough(before);
    assert(processor.wants_vision(before));
    let images = all_images(prepared.per_sequence@);
    let pixels = all_pixels(images);
    lemma_some_image(prepared.per_sequence@, k);
    assert(pixels.len() == images.len());
    if device_on_cpu(device) && (forall|i: int|
        #![trigger images[i]]
        0 <= i < images.len() ==> {
            &&& tensor_on_cpu(images[i].pixels)
            &&& tensor_type(images[i].pixels).is_plain()
            &&& tensor_shape(images[i].pixels).len() == tensor_shape(images[0].pixels).len() > 0
            &&& tensor_type(images[i].pixels) == tensor_type(images[0].pixels)
            &&& forall|x: int|
                1 <= x < tensor_shape(images[0].pixels).len() ==> tensor_shape(images[i].pixels)[x]
                    == tensor_shape(images[0].pixels)[x]
        }) {
        assert forall|i: int| #![trigger pixels[i]] 0 <= i < pixels.len() implies {
            &&& tensor_on_cpu(pixels[i])
            &&& tensor_type(pixels[i]).is_plain()
            &&& tensor_shape(pixels[i]).len() == tensor_shape(pixels[0]).len() > 0
            &&& tensor_type(pixels[i]) == tensor_type(pixels[0])
            &&& forall|x: int|
                1 <= x < tensor_shape(pixels[0]).len() ==> tensor_shape(pixels[i])[x]
                    == tensor_shape(pixels[0])[x]
        } by {
            assert(pixels[i] == images[i].pixels && pixels[0] == images[0].pixels);
        }
        lemma_matching_tensors_can_be_joined(pixels);
    }
}

/// Where the preprocessing gave no image at all there is nothing to tell the model of images.
pub proof fn lemma_no_images_nothing_told(
    processor: EmbeddingInputsProcessor,
    before: Seq<Sequence>,
    after: Seq<Sequence>,
    prepared: PreparedImages,
    device: Device,
    res: Result<Option<VisionEmbeddingMeta>, EmbeddingError>,
)
    requires
        processor.vision_outcome(before, after, prepared, device, res),
        prepared.failure is None,
        forall|k: int|
            0 <= k < prepared.per_sequence@.len() ==> (
            #[trigger] prepared.per_sequence@[k])@.len() == 0,
    ensures
        res is Ok,
        res->Ok_0 is None,
{
    lemma_images_of_none(prepared.per_sequence@);
}

/// Sequences without images have none together.
proof fn lemma_images_of_none(lists: Seq<Vec<PreparedImage>>)
    requires
        forall|k: int| 0 <= k < lists.len() ==> (#[trigger] lists[k])@.len() == 0,
    ensures
        all_images(lists).len() == 0,
    decreases lists.len(),
{
    if lists.len() > 0 {
        let init = lists.drop_last();
        assert forall|k: int| 0 <= k < init.len() implies (#[trigger] init[k])@.len() == 0 by {
            assert(init[k] == lists[k]);
        }
        lemma_images_of_none(init);
        assert(lists[lists.len() - 1]@.len() == 0);
    }
}

/// What the preprocessing gave is accepted where it has one list per sequence, or stops at a failure
/// before the last, and all the sizes on the way fit.
pub proof fn lemma_accepted(
    processor: EmbeddingInputsProcessor,
    seqs: Seq<Sequence>,
    prepared: PreparedImages,
)
    requires
        prepared.failure is None ==> prepared.per_sequence@.len() == seqs.len() && cat_sized(
            all_pixels(all_images(prepared.per_sequence@)),
        ),
        prepared.failure is Some ==> prepared.per_sequence@.len() < seqs.len(),
        forall|k: int|
            #![trigger prepared.per_sequence@[k]]
            0 <= k < prepared.per_sequence@.len() ==> tokens_fit(
                prepared.per_sequence@[k]@,
                processor.merge_size(),
            ) && seqs[k].toks@.len() + sequence_tokens(
                prepared.per_sequence@[k]@,
                processor.merge_size(),
            ) <= usize::MAX,
    ensures
        processor.accepts(seqs, prepared),
{
}

/// A batch is made of every sequence that there is, wherever so many rows as there are sequences, one
/// token longer than the longest can get, can be addressed.
pub proof fn lemma_batch_can_be_made(
    processor: EmbeddingInputsProcessor,
    seqs: Seq<Sequence>,
    prepared: PreparedImages,
    flash_attn: bool,
    len: nat,
)
    requires
        seqs.len() > 0,
        processor.wants_vision(seqs) ==> processor.accepts(seqs, prepared),
        forall|k: int|
            #![trigger seqs[k]]
            0 <= k < seqs.len() ==> seqs[k].toks@.len() + (if processor.wants_vision(seqs) {
                sequence_tokens(prepared.per_sequence@[k]@, processor.merge_size())
            } else {
                0
            }) <= len,
        seqs.len() * (len + 1) * 4 <= isize::MAX,
        len + seqs[0].token_offset <= usize::MAX,
    ensures
        processor.can_process(seqs, prepared, flash_attn),
{
    let streams = processor.prompt_streams(seqs, prepared);
    assert forall|i: int| 0 <= i < streams.len() implies (#[trigger] streams[i]).len() <= len by {
        assert(seqs[i].toks@.len() <= len);
    }
    lemma_short_lists_fit(streams, len);
    let i = lemma_longest_is_attained(streams);
}

/// Where an image failed no batch is made, and so none has to fit.
pub proof fn lemma_failure_needs_no_batch(
    processor: EmbeddingInputsProcessor,
    seqs: Seq<Sequence>,
    prepared: PreparedImages,
    flash_attn: bool,
    j: int,
)
    requires
        processor.vision_image_token_id is Some,
        0 <= j < seqs.len(),
        seqs[j].has_images,
        prepared.failure is Some,
        processor.accepts(seqs, prepared),
    ensures
        processor.can_process(seqs, prepared, flash_attn),
{
    processor.lemma_one_sequence_with_images_is_enough(seqs);
    assert(processor.wants_vision(seqs));
}

/// The batch that comes out holds the tokens of each sequence as they stand afterwards, placeholders
/// included, each sequence in its own row with zeros behind it, and is as wide as the longest of
/// them. Every sequence is in the batch at its own position.
pub proof fn lemma_batch_holds_every_sequence(
    processor: EmbeddingInputsProcessor,
    before: Seq<Sequence>,
    after: Seq<Sequence>,
    prepared: PreparedImages,
    device: Device,
    flash_attn: bool,
    out: InputProcessorOutput,
    i: int,
    j: int,
)
    requires
        processor.can_process(before, prepared, flash_attn),
        processor.process_outcome(
            before,
            after,
            prepared,
            device,
            flash_attn,
            Ok(out),
        ),
        before.len() <= usize::MAX,
        0 <= i < before.len(),
        0 <= j < tensor_shape(out.inputs.input_ids)[1],
    ensures
        ({
            let ids = out.inputs.input_ids;
            let width = tensor_shape(ids)[1];
            &&& after.len() == before.len()
            &&& tensor_shape(ids).len() == 2
            &&& tensor_shape(ids)[0] == before.len()
            &&& tensor_type(ids) == ElemType::U32
            &&& tensor_device(ids) == device
            &&& after[i].toks@.len() <= width
            &&& exists|k: int| 0 <= k < after.len() && (#[trigger] after[k]).toks@.len() == width
            &&& j < after[i].toks@.len() ==> tensor_elems(ids)[i * width + j] == after[i].toks@[j]
            &&& j >= after[i].toks@.len() ==> tensor_elems(ids)[i * width + j] == 0
            &&& out.seq_indices@.len() == before.len()
            &&& out.seq_indices@[i] == i
        }),
{
    let streams = token_streams(after);
    assert(streams.len() == before.len());
    let k = lemma_longest_is_attained(streams);
    lemma_longest(streams, i);
    assert(after[k].toks@.len() == longest(streams));
    assert(longest(streams) <= usize::MAX) by {
        assert(streams.len() * longest(streams) * 4 <= isize::MAX || longest(streams) == 0);
        let (n, l) = (streams.len() as int, longest(streams) as int);
        assert(l <= n * l * 4) by (nonlinear_arith)
            requires
                n >= 1,
                l >= 0,
        ;
    }
    lemma_batch_holds_every_token(out.inputs.input_ids, streams, i, j);
}

/// What the attention kernels are told of the batch that comes out: the width of the batch for each
/// sequence, and as keys what the first sequence has already consumed besides. No window is set.
pub proof fn lemma_kernels_are_told_the_batch(
    processor: EmbeddingInputsProcessor,
    before: Seq<Sequence>,
    after: Seq<Sequence>,
    prepared: PreparedImages,
    device: Device,
    flash_attn: bool,
    out: InputProcessorOutput,
    i: int,
)
    requires
        processor.process_outcome(before, after, prepared, device, flash_attn, Ok(out)),
        longest(token_streams(after)) + before[0].token_offset <= u32::MAX,
        0 <= i < before.len(),
    ensures
        !flash_attn ==> out.inputs.flash_meta == (FlashParams::Empty {
            causal: processor.has_causal_attention,
        }),
        flash_attn ==> (out.inputs.flash_meta matches FlashParams::Lengths {
            seqlens_q,
            seqlens_k,
            sliding_window,
            causal,
        } && {
            &&& seqlens_q@.len() == before.len() + 1
            &&& seqlens_k@.len() == before.len() + 1
            &&& seqlens_q@[0] == 0
            &&& seqlens_k@[0] == 0
            &&& seqlens_q@[i + 1] == tensor_shape(out.inputs.input_ids)[1]
            &&& seqlens_k@[i + 1] == tensor_shape(out.inputs.input_ids)[1] + before[0].token_offset
            &&& sliding_window is None
            &&& causal == processor.has_causal_attention
        }),
{
    let width = longest(token_streams(after));
    assert(token_streams(after).len() == before.len());
    if flash_attn {
        lemma_kernels_are_told_lengths(
            out.inputs.flash_meta,
            before.len(),
            width,
            before[0].token_offset,
            None,
            processor.has_causal_attention,
            i,
        );
    } else {
        lemma_unused_kernels_are_told_nothing(
            out.inputs.flash_meta,
            before.len(),
            width,
            before[0].token_offset,
            None,
            processor.has_causal_attention,
        );
    }
}

/// In main memory, inputs come out wherever the images can be told to the model, and what is told is
/// what comes out with them.
pub proof fn lemma_inputs_come_out(
    processor: EmbeddingInputsProcessor,
    before: Seq<Sequence>,
    after: Seq<Sequence>,
    prepared: PreparedImages,
    device: Device,
    flash_attn: bool,
    res: Result<InputProcessorOutput, EmbeddingError>,
)
    requires
        processor.process_outcome(before, after, prepared, device, flash_attn, res),
        device_on_cpu(device),
    ensures
        res matches Ok(out) ==> processor.vision_outcome(
            before,
            after,
            prepared,
            device,
            Ok(out.inputs.vision),
        ),
        res matches Err(e) ==> processor.vision_outcome(before, after, prepared, device, Err(e)),
{
}

} // verus!
