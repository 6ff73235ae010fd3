//! The processors that turn sequences into model inputs.

use std::sync::Arc;

use candle_core::{Device, Tensor};
use vstd::prelude::*;

use crate::error::EmbeddingError;
use crate::prompt::{
    batch_fits, describes_batch, get_prompt_input, is_padded_batch, longest, token_rows,
    FlashParams,
};
use crate::sequence::Sequence;
use crate::shape::{fits, lemma_rank_2};
use crate::tensor::{device_on_cpu, tensor_device};
use crate::vision_meta::{
    count_tokens, placeholders_added, sequence_tokens, tokens_fit, with_placeholders,
    PreparedImages, VisionEmbeddingMeta,
};

verus! {

/// What the image preprocessing has to tell of itself.
#[derive(Debug)]
pub struct PreProcessorConfig {
    /// The number of patches along each edge of the square that becomes one token.
    pub merge_size: Option<usize>,
}

/// Everything that the model needs for one forward pass.
#[derive(Clone)]
pub struct ModelInputs {
    pub input_ids: Tensor,
    pub flash_meta: FlashParams,
    pub vision: Option<VisionEmbeddingMeta>,
}

/// Prepares the inputs of an embedding model.
pub struct EmbeddingInputsProcessor {
    pub has_causal_attention: bool,
    pub vision_image_token_id: Option<u32>,
    pub vision_preprocessor_config: Option<Arc<PreProcessorConfig>>,
}

/// Holds the settings from which input processors are made.
pub struct EmbeddingProcessor {
    pub has_causal_attention: bool,
    pub vision_image_token_id: Option<u32>,
    pub vision_preprocessor_config: Option<Arc<PreProcessorConfig>>,
}

/// Model inputs together with the positions of their sequences.
pub struct InputProcessorOutput {
    pub inputs: ModelInputs,
    pub seq_indices: Vec<usize>,
}

/// The kinds of input processors.
#[derive(Clone, Copy, Debug, PartialEq, Eq, Structural)]
pub enum InputsProcessorType {
    Text,
    Vision,
    Embedding,
}

/// What is done with the messages of a request before the chat template is applied.
#[derive(Clone, Copy, Debug, PartialEq, Eq, Structural)]
pub enum MessagesAction {
    Keep,
    FlattenOnlyText,
}

/// The token streams of several sequences.
pub open spec fn token_streams(seqs: Seq<Sequence>) -> Seq<Seq<u32>> {
    Seq::new(seqs.len(), |i: int| seqs[i].toks@)
}

impl EmbeddingInputsProcessor {
    /// The token streams from which the batch is made: with vision, those that have got their
    /// placeholders.
    pub open spec fn prompt_streams(self, seqs: Seq<Sequence>, prepared: PreparedImages) -> Seq<
        Seq<u32>,
    > {
        if self.wants_vision(seqs) {
            Seq::new(
                seqs.len(),
                |i: int|
                    with_placeholders(
                        seqs[i].toks@,
                        self.vision_image_token_id->0,
                        sequence_tokens(prepared.per_sequence@[i]@, self.merge_size()),
                    ),
            )
        } else {
            token_streams(seqs)
        }
    }

    /// The sequences get as far as a batch: no image of theirs failed.
    pub open spec fn reaches_batch(self, seqs: Seq<Sequence>, prepared: PreparedImages) -> bool {
        self.wants_vision(seqs) ==> prepared.failure is None
    }

    /// There is a sequence, what the preprocessing gave fits the sequences, and what is made of them
    /// can be counted and addressed.
    pub open spec fn can_process(
        self,
        seqs: Seq<Sequence>,
        prepared: PreparedImages,
        flash_attn: bool,
    ) -> bool {
        let streams = self.prompt_streams(seqs, prepared);
        &&& seqs.len() > 0
        &&& self.wants_vision(seqs) ==> self.accepts(seqs, prepared)
        &&& self.reaches_batch(seqs, prepared) ==> {
            &&& batch_fits(streams)
            &&& flash_attn ==> longest(streams) + seqs[0].token_offset <= usize::MAX
        }
    }

    /// What comes out for the sequences `before`, which are afterwards `after`: the description of
    /// the images together with the batch, or the reason for which the images could not be
    /// described. Other than that only a device can give up.
    pub open spec fn process_outcome(
        self,
        before: Seq<Sequence>,
        after: Seq<Sequence>,
        prepared: PreparedImages,
        device: Device,
        flash_attn: bool,
        res: Result<InputProcessorOutput, EmbeddingError>,
    ) -> bool {
        let streams = self.prompt_streams(before, prepared);
        match res {
            Ok(out) => {
                &&& self.vision_outcome(before, after, prepared, device, Ok(out.inputs.vision))
                &&& token_streams(after) == streams
                &&& is_padded_batch(out.inputs.input_ids, streams, longest(streams))
                &&& tensor_device(out.inputs.input_ids) == device
                &&& describes_batch(
                    out.inputs.flash_meta,
                    flash_attn,
                    streams.len(),
                    longest(streams),
                    before[0].token_offset,
                    None,
                    self.has_causal_attention,
                )
                &&& out.seq_indices@ == Seq::new(before.len(), |i: int| i as usize)
            },
            Err(e) => {
                ||| self.vision_outcome(before, after, prepared, device, Err(e))
                ||| !device_on_cpu(device) && e is Tensor && exists|vision|
                    #[trigger] self.vision_outcome(before, after, prepared, device, Ok(vision))
            },
        }
    }

    /// Makes the model inputs for one prompt: the description of the images, and the token ids of
    /// all the sequences as one batch. Placeholders for the images go into the token streams first,
    /// so that the batch has room for the rows that the vision tower gives. There has to be a
    /// sequence, and it has to be a prompt.
    pub fn process_inputs(
        &self,
        input_seqs: &mut Vec<Sequence>,
        prepared: PreparedImages,
        is_prompt: bool,
        device: &Device,
        flash_attn: bool,
    ) -> (res: Result<InputProcessorOutput, EmbeddingError>)
        requires
            is_prompt,
            self.can_process(old(input_seqs)@, prepared, flash_attn),
        ensures
            self.process_outcome(
                old(input_seqs)@,
                final(input_seqs)@,
                prepared,
                *device,
                flash_attn,
                res,
            ),
    {
        let ghost before = input_seqs@;
        let vision = match self.build_vision_meta(input_seqs, prepared, device) {
            Ok(vision) => vision,
            Err(e) => return Err(e),
        };
        proof {
            assert forall|i: int| 0 <= i < before.len() implies #[trigger] token_streams(
                input_seqs@,
            )[i] == self.prompt_streams(before, prepared)[i] by {
                if self.wants_vision(before) {
                    assert(placeholders_added(
                        before[i],
                        input_seqs@[i],
                        self.vision_image_token_id->0,
                        sequence_tokens(prepared.per_sequence@[i]@, self.merge_size()),
                    ));
                }
            }
            assert(token_streams(input_seqs@) =~= self.prompt_streams(before, prepared));
            if self.wants_vision(before) {
                assert(placeholders_added(
                    before[0],
                    input_seqs@[0],
                    self.vision_image_token_id->0,
                    sequence_tokens(prepared.per_sequence@[0]@, self.merge_size()),
                ));
            }
        }
        let mut toks: Vec<&[u32]> = Vec::with_capacity(input_seqs.len());
        let ghost placed = input_seqs@;
        for i in 0..input_seqs.len()
            invariant
                input_seqs@ == placed,
                toks@.len() == i,
                forall|k: int| 0 <= k < i ==> (#[trigger] toks@[k])@ == input_seqs@[k].toks@,
        {
            toks.push(input_seqs[i].toks.as_slice());
        }
        assert(token_rows(toks@) =~= token_streams(input_seqs@));
        let metadata = match get_prompt_input(
            toks,
            input_seqs,
            device,
            flash_attn,
            self.has_causal_attention,
            None,
        ) {
            Ok(metadata) => metadata,
            Err(e) => return Err(e),
        };
        Ok(
            InputProcessorOutput {
                inputs: ModelInputs {
                    input_ids: metadata.inputs.input,
                    flash_meta: metadata.inputs.flash_meta,
                    vision,
                },
                seq_indices: metadata.seq_indices,
            },
        )
    }

    /// The length of the longest of the token streams from which the batch is made.
    fn batch_width(&self, input_seqs: &Vec<Sequence>, prepared: &PreparedImages) -> (res: usize)
        requires
            self.wants_vision(input_seqs@) ==> self.accepts(input_seqs@, *prepared),
            self.reaches_batch(input_seqs@, *prepared),
        ensures
            res == longest(self.prompt_streams(input_seqs@, *prepared)),
    {
        let vision = self.needs_images(input_seqs);
        let merge_size = self.configured_merge_size();
        let ghost streams = self.prompt_streams(input_seqs@, *prepared);
        let mut res: usize = 0;
        for i in 0..input_seqs.len()
            invariant
                vision == self.wants_vision(input_seqs@),
                vision ==> self.accepts(input_seqs@, *prepared) && prepared.failure is None,
                merge_size == self.merge_size(),
                streams == self.prompt_streams(input_seqs@, *prepared),
                streams.len() == input_seqs@.len(),
                res == longest(streams.take(i as int)),
        {
            assert(streams.take(i + 1).drop_last() =~= streams.take(i as int));
            let mut len = input_seqs[i].toks.len();
            if vision {
                assert(tokens_fit(prepared.per_sequence@[i as int]@, merge_size));
                len = len + count_tokens(&prepared.per_sequence[i], merge_size).unwrap();
            }
            if len > res {
                res = len;
            }
        }
        assert(streams.take(streams.len() as int) =~= streams);
        res
    }

    /// As [`EmbeddingInputsProcessor::process_inputs`], or nothing, with the sequences as they were,
    /// where it is not a prompt, there is no sequence, what the preprocessing gave does not fit the
    /// sequences, or something cannot be counted or addressed.
    pub fn process_inputs_checked(
        &self,
        input_seqs: &mut Vec<Sequence>,
        prepared: PreparedImages,
        is_prompt: bool,
        device: &Device,
        flash_attn: bool,
    ) -> (res: Option<Result<InputProcessorOutput, EmbeddingError>>)
        ensures
            match res {
                Some(r) => {
                    &&& is_prompt
                    &&& self.can_process(old(input_seqs)@, prepared, flash_attn)
                    &&& self.process_outcome(
                        old(input_seqs)@,
                        final(input_seqs)@,
                        prepared,
                        *device,
                        flash_attn,
                        r,
                    )
                },
                None => {
                    &&& !(is_prompt && self.can_process(old(input_seqs)@, prepared, flash_attn))
                    &&& *final(input_seqs) == *old(input_seqs)
                },
            },
    {
        if !is_prompt || input_seqs.len() == 0 {
            return None;
        }
        let vision = self.needs_images(input_seqs);
        if vision && !self.does_accept(input_seqs, &prepared) {
            return None;
        }
        if !vision || prepared.failure.is_none() {
            let width = self.batch_width(input_seqs, &prepared);
            let shape: Vec<usize> = vec![input_seqs.len(), width];
            proof {
                lemma_rank_2(input_seqs@.len() as usize, width, 0, 0);
                assert(shape@ =~= seq![input_seqs@.len() as usize, width]);
            }
            if !fits(&shape, 4) {
                return None;
            }
            if flash_attn && width.checked_add(input_seqs[0].token_offset).is_none() {
                return None;
            }
        }
        Some(self.process_inputs(input_seqs, prepared, is_prompt, device, flash_attn))
    }

    /// The kind of this processor.
    pub fn get_type(&self) -> (res: InputsProcessorType)
        ensures
            res == InputsProcessorType::Embedding,
    {
        InputsProcessorType::Embedding
    }
}

impl EmbeddingProcessor {
    /// An input processor with the same settings.
    pub fn inputs_processor(&self) -> (res: Arc<EmbeddingInputsProcessor>)
        ensures
            res.has_causal_attention == self.has_causal_attention,
            res.vision_image_token_id == self.vision_image_token_id,
            res.vision_preprocessor_config == self.vision_preprocessor_config,
    {
        let vision_preprocessor_config = match &self.vision_preprocessor_config {
            Some(config) => Some(config.clone()),
            None => None,
        };
        Arc::new(
            EmbeddingInputsProcessor {
                has_causal_attention: self.has_causal_attention,
                vision_image_token_id: self.vision_image_token_id,
                vision_preprocessor_config,
            },
        )
    }

    /// The special tokens that this processor knows: none.
    pub fn get_special_tokens(&self) -> (res: &[&'static str])
        ensures
            res@.len() == 0,
    {
        &[]
    }

    /// Messages are kept as they are.
    pub fn template_action(&self) -> (res: MessagesAction)
        ensures
            res == MessagesAction::Keep,
    {
        MessagesAction::Keep
    }
}

} // verus!
