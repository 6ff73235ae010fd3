//! The embedding model around its text and vision blocks: which weights it loads, and what it hands
//! to the text block.
//!
//! The blocks themselves run elsewhere. What they give comes in as tensors, and what they are to be
//! given goes out as tensors.

use candle_core::{Device, Tensor};
use vstd::prelude::*;

use crate::error::EmbeddingError;
use crate::positions::{length_mask, lengths_fit_memory, lengths_sized, marks_lengths};
use crate::shape::{count, fits, sized};
use crate::splice::{all_spans, countable, spans_countable, splice_images, splice_outcome, Span};
use crate::tensor::{
    cast_bits, device, device_on_cpu, dims, dtype, elem_type, fits_as, grounded, has_elements,
    is_cpu, tensor_device, tensor_elems, tensor_on_cpu, tensor_shape, tensor_type, to_device,
    to_dtype, ElemType,
};

verus! {

/// The weight whose presence tells that the vision tower stands at the top of the checkpoint.
pub const VISION_TOWER_WEIGHT: &'static str = "vision_tower.patch_embed.proj.weight";

/// The settings of a model, with `Q` for the settings of quantization.
pub struct Config<Q> {
    pub spatial_merge_size: usize,
    pub image_token_id: u32,
    pub video_token_id: u32,
    pub vision_start_token_id: u32,
    pub vision_end_token_id: u32,
    /// How the text block says that it is quantized.
    pub text_quantization_config: Option<Q>,
    /// How the model as a whole says that it is quantized.
    pub quantization_config: Option<Q>,
}

impl<Q> Config<Q> {
    /// How the text block is quantized: what the whole model says comes first.
    pub fn text_quantization(&self) -> (res: &Option<Q>)
        ensures
            *res == if self.quantization_config is Some {
                self.quantization_config
            } else {
                self.text_quantization_config
            },
    {
        if self.quantization_config.is_some() {
            &self.quantization_config
        } else {
            &self.text_quantization_config
        }
    }
}

/// An embedding model without the weights of its blocks.
pub struct Model {
    /// The element type that the text block computes in.
    pub text_type: ElemType,
    pub spatial_merge_size: usize,
    pub image_token_id: u32,
    pub video_token_id: u32,
    pub vision_start_token_id: u32,
    pub vision_end_token_id: u32,
    pub device: Device,
}

/// What the text block is given for a batch with images.
pub struct VisionInputs {
    /// The token embeddings, with the rows of the images in the place of the placeholders.
    pub input_embeds: Tensor,
    /// Marks the positions that hold rows of images.
    pub visual_pos_mask: Tensor,
    /// The features of the images from inside the vision tower.
    pub deepstack_image_embeds: Vec<Tensor>,
    /// Marks the tokens of each stream, for the positions of the rotary embedding.
    pub length_mask: Tensor,
}

/// A tensor moved to a device and cast to an element type.
pub open spec fn is_converted(r: Tensor, t: Tensor, target: Device, elem: ElemType) -> bool {
    &&& tensor_shape(r) == tensor_shape(t)
    &&& tensor_type(r) == elem
    &&& tensor_device(r) == target
    &&& tensor_elems(r).len() == tensor_elems(t).len()
    &&& tensor_type(t) == elem ==> tensor_elems(r) == tensor_elems(t)
    &&& tensor_type(t).is_common() && elem.is_common() || device_on_cpu(target) && tensor_type(
        t,
    ).is_plain() && elem.is_plain() ==> forall|i: int|
        0 <= i < tensor_elems(t).len() ==> {
            &&& tensor_elems(t)[i] == 0 ==> #[trigger] tensor_elems(r)[i] == 0
            &&& tensor_elems(t)[i] == tensor_type(t).one() ==> tensor_elems(r)[i] == elem.one()
            &&& tensor_type(t) != elem && device_on_cpu(target) && tensor_type(t).casts_alike(elem)
                && !tensor_type(t).is_nan(tensor_elems(t)[i]) ==> tensor_elems(r)[i] == cast_bits(
                tensor_elems(t)[i],
                tensor_type(t),
                elem,
            )
        }
}

/// Main memory holds the tensor and is where it is to go, and its elements can be cast.
pub open spec fn convertible_on_cpu(t: Tensor, target: Device, elem: ElemType) -> bool {
    tensor_on_cpu(t) && device_on_cpu(target) && tensor_type(t).is_plain() && elem.is_plain()
}

/// The tensor can be addressed before and after the cast.
pub open spec fn convert_sized(t: Tensor, elem: ElemType) -> bool {
    sized(tensor_shape(t), tensor_type(t).bytes()) && sized(tensor_shape(t), elem.bytes())
}

/// The cast of the elements after the move comes to an end: there are none, another device casts
/// them, or main memory has that cast.
pub open spec fn convert_ends(t: Tensor, target: Device, elem: ElemType) -> bool {
    device_on_cpu(target) && count(tensor_shape(t)) > 0 ==> tensor_type(t).cast_ends(elem)
}

/// Whether the tensor can be addressed before and after the cast, and the cast comes to an end.
fn is_convertible(t: &Tensor, target: &Device, elem: ElemType) -> (res: bool)
    ensures
        res == (convert_sized(*t, elem) && convert_ends(*t, *target, elem)),
{
    let endless = elem_type(t) == ElemType::F8E4M3 && elem == ElemType::F64;
    convert_fits(t, elem) && !(endless && is_cpu(target) && has_elements(&dims(t)))
}

/// Whether the tensor can be addressed before and after the cast.
fn convert_fits(t: &Tensor, elem: ElemType) -> (res: bool)
    ensures
        res == convert_sized(*t, elem),
{
    fits_as(t, elem_type(t)) && fits_as(t, elem)
}

/// Each of the tensors can be addressed before and after the cast, and the casts come to an end.
pub open spec fn all_convertible(ts: Seq<Tensor>, target: Device, elem: ElemType) -> bool {
    forall|i: int|
        0 <= i < ts.len() ==> convert_sized(#[trigger] ts[i], elem) && convert_ends(
            ts[i],
            target,
            elem,
        )
}

/// Whether each of the tensors can be addressed before and after the cast, and the casts come to an
/// end.
fn are_convertible(ts: &Vec<Tensor>, target: &Device, elem: ElemType) -> (res: bool)
    ensures
        res == all_convertible(ts@, *target, elem),
{
    for i in 0..ts.len()
        invariant
            all_convertible(ts@.take(i as int), *target, elem),
    {
        if !is_convertible(&ts[i], target, elem) {
            assert(!all_convertible(ts@, *target, elem)) by {
                let t = ts@[i as int];
                assert(!(convert_sized(t, elem) && convert_ends(t, *target, elem)));
            }
            return false;
        }
        assert forall|k: int| 0 <= k < i + 1 implies convert_sized(
            #[trigger] ts@.take(i + 1)[k],
            elem,
        ) && convert_ends(ts@.take(i + 1)[k], *target, elem) by {
            if k < i {
                assert(ts@.take(i + 1)[k] == ts@.take(i as int)[k]);
            }
        }
    }
    assert(ts@.take(ts@.len() as int) =~= ts@);
    true
}

/// Moves a tensor to a device and casts it to an element type.
pub fn convert(t: &Tensor, target: &Device, elem: ElemType) -> (res: Result<Tensor, EmbeddingError>)
    requires
        convert_sized(*t, elem),
        convert_ends(*t, *target, elem),
    ensures
        match res {
            Ok(r) => is_converted(r, *t, *target, elem),
            Err(e) => e is Tensor && !convertible_on_cpu(*t, *target, elem),
        },
{
    let moved = match to_device(t, target) {
        Ok(t) => t,
        Err(e) => return Err(EmbeddingError::Tensor(e)),
    };
    let source = if elem_type(&moved) == elem {
        moved
    } else {
        match grounded(&moved) {
            Ok(t) => t,
            Err(e) => return Err(EmbeddingError::Tensor(e)),
        }
    };
    match to_dtype(&source, dtype(elem)) {
        Ok(t) => Ok(t),
        Err(e) => Err(EmbeddingError::Tensor(e)),
    }
}

/// Moves several tensors to a device and casts them to an element type.
pub fn convert_all(ts: &Vec<Tensor>, target: &Device, elem: ElemType) -> (res: Result<
    Vec<Tensor>,
    EmbeddingError,
>)
    requires
        all_convertible(ts@, *target, elem),
    ensures
        match res {
            Ok(rs) => all_converted(rs@, ts@, *target, elem),
            Err(e) => e is Tensor && exists|i: int|
                0 <= i < ts@.len() && !convertible_on_cpu(#[trigger] ts@[i], *target, elem),
        },
{
    let mut rs: Vec<Tensor> = Vec::with_capacity(ts.len());
    for i in 0..ts.len()
        invariant
            all_convertible(ts@, *target, elem),
            all_converted(rs@, ts@.take(i as int), *target, elem),
    {
        assert(convert_sized(ts@[i as int], elem) && convert_ends(ts@[i as int], *target, elem));
        match convert(&ts[i], target, elem) {
            Ok(r) => rs.push(r),
            Err(e) => {
                assert(!convertible_on_cpu(ts@[i as int], *target, elem));
                return Err(e);
            },
        }
    }
    assert(ts@.take(ts@.len() as int) =~= ts@);
    Ok(rs)
}

/// Each tensor moved to a device and cast to an element type.
pub open spec fn all_converted(
    rs: Seq<Tensor>,
    ts: Seq<Tensor>,
    target: Device,
    elem: ElemType,
) -> bool {
    &&& rs.len() == ts.len()
    &&& forall|i: int| 0 <= i < ts.len() ==> is_converted(#[trigger] rs[i], ts[i], target, elem)
}

impl Model {
    /// A model with these settings, whose text block computes in `text_type`.
    pub fn new<Q>(cfg: &Config<Q>, text_type: ElemType, device: Device) -> (res: Model)
        ensures
            res.text_type == text_type,
            res.spatial_merge_size == cfg.spatial_merge_size,
            res.image_token_id == cfg.image_token_id,
            res.video_token_id == cfg.video_token_id,
            res.vision_start_token_id == cfg.vision_start_token_id,
            res.vision_end_token_id == cfg.vision_end_token_id,
            res.device == device,
    {
        Model {
            text_type,
            spatial_merge_size: cfg.spatial_merge_size,
            image_token_id: cfg.image_token_id,
            video_token_id: cfg.video_token_id,
            vision_start_token_id: cfg.vision_start_token_id,
            vision_end_token_id: cfg.vision_end_token_id,
            device,
        }
    }

    /// Where the weights of the vision tower stand in the checkpoint, step by step.
    pub fn vision_path(has_vision_tower: bool) -> (res: Vec<&'static str>)
        ensures
            res@ == if has_vision_tower {
                seq!["vision_tower"]
            } else {
                seq!["model", "visual"]
            },
    {
        if has_vision_tower {
            vec!["vision_tower"]
        } else {
            vec!["model", "visual"]
        }
    }

    /// The device that the model computes on.
    pub fn device(&self) -> (res: &Device)
        ensures
            *res == self.device,
    {
        &self.device
    }

    /// The tensors that stay unquantized: those of the text block, then those of the vision tower.
    pub fn residual_tensors(
        text: Vec<(String, Tensor)>,
        vision: Vec<(String, Tensor)>,
    ) -> (res: Vec<(String, Tensor)>)
        ensures
            res@ == text@ + vision@,
    {
        let mut tensors = text;
        let mut rest = vision;
        tensors.append(&mut rest);
        tensors
    }

    /// What comes out of splicing the rows of the images after they were moved to the device of the
    /// token embeddings and cast to the type of the text block.
    pub open spec fn rows_outcome(
        self,
        input_embeds: Tensor,
        image_embeds: Tensor,
        spans: Seq<Span>,
        ids_device: Device,
        res: Result<(Tensor, Tensor), EmbeddingError>,
    ) -> bool {
        exists|rows: Tensor|
            {
                &&& #[trigger] is_converted(
                    rows,
                    image_embeds,
                    tensor_device(input_embeds),
                    self.text_type,
                )
                &&& splice_outcome(input_embeds, rows, spans, ids_device, res)
            }
    }

    /// All that is made for a batch with images can be counted and addressed, and the casts come to
    /// an end.
    pub open spec fn vision_inputs_sized(
        self,
        input_embeds: Tensor,
        image_embeds: Tensor,
        deepstack: Seq<Tensor>,
        seqlens: Seq<usize>,
        spans: Seq<Span>,
    ) -> bool {
        &&& countable(spans)
        &&& convert_sized(image_embeds, self.text_type)
        &&& convert_ends(image_embeds, tensor_device(input_embeds), self.text_type)
        &&& all_convertible(deepstack, tensor_device(input_embeds), self.text_type)
        &&& convert_sized(input_embeds, self.text_type)
        &&& tensor_shape(input_embeds).len() == 3 ==> sized(tensor_shape(input_embeds).take(2), 4)
        &&& lengths_sized(seqlens)
    }

    /// What comes out for a batch with images.
    ///
    /// The rows of the images and their inner features are moved to the device of the token
    /// embeddings and cast to the type of the text block. Then the rows take the place of the
    /// placeholders, and the attention lengths are laid out on the device of the token ids.
    pub open spec fn vision_inputs_outcome(
        self,
        input_ids: Tensor,
        input_embeds: Tensor,
        image_embeds: Tensor,
        deepstack: Seq<Tensor>,
        seqlens: Seq<usize>,
        spans: Seq<Span>,
        res: Result<VisionInputs, EmbeddingError>,
    ) -> bool {
        let target = tensor_device(input_embeds);
        let ids_device = tensor_device(input_ids);
        match res {
            Ok(out) => {
                &&& self.rows_outcome(
                    input_embeds,
                    image_embeds,
                    spans,
                    ids_device,
                    Ok((out.input_embeds, out.visual_pos_mask)),
                )
                &&& all_converted(
                    out.deepstack_image_embeds@,
                    deepstack,
                    target,
                    self.text_type,
                )
                &&& marks_lengths(out.length_mask, seqlens)
                &&& tensor_device(out.length_mask) == ids_device
                &&& seqlens.len() > 0
            },
            Err(e) => {
                ||| e is Tensor && !convertible_on_cpu(image_embeds, target, self.text_type)
                ||| e is Tensor && exists|i: int|
                    0 <= i < deepstack.len() && !convertible_on_cpu(
                        #[trigger] deepstack[i],
                        target,
                        self.text_type,
                    )
                ||| self.rows_outcome(input_embeds, image_embeds, spans, ids_device, Err(e))
                ||| {
                    &&& e is Tensor
                    &&& seqlens.len() == 0 || !device_on_cpu(ids_device)
                    &&& exists|spliced|
                        #[trigger] self.rows_outcome(
                            input_embeds,
                            image_embeds,
                            spans,
                            ids_device,
                            Ok(spliced),
                        )
                }
            },
        }
    }

    /// Makes what the text block is given for a batch with images out of the token embeddings and
    /// of what the vision tower gave.
    pub fn vision_inputs(
        &self,
        input_ids: &Tensor,
        input_embeds: &Tensor,
        image_embeds: &Tensor,
        deepstack_image_embeds: &Vec<Tensor>,
        seqlens: &Vec<usize>,
        continuous_img_pad: &Vec<Vec<(usize, usize)>>,
    ) -> (res: Result<VisionInputs, EmbeddingError>)
        requires
            self.vision_inputs_sized(
                *input_embeds,
                *image_embeds,
                deepstack_image_embeds@,
                seqlens@,
                all_spans(continuous_img_pad@),
            ),
        ensures
            self.vision_inputs_outcome(
                *input_ids,
                *input_embeds,
                *image_embeds,
                deepstack_image_embeds@,
                seqlens@,
                all_spans(continuous_img_pad@),
                res,
            ),
    {
        let target = device(input_embeds);
        let ids_device = device(input_ids);
        let rows = match convert(image_embeds, &target, self.text_type) {
            Ok(t) => t,
            Err(e) => return Err(e),
        };
        let deepstack = match convert_all(deepstack_image_embeds, &target, self.text_type) {
            Ok(ts) => ts,
            Err(e) => return Err(e),
        };
        let (spliced, mask) = match splice_images(
            input_embeds,
            &rows,
            continuous_img_pad,
            &ids_device,
        ) {
            Ok(out) => out,
            Err(e) => return Err(e),
        };
        assert(self.rows_outcome(
            *input_embeds,
            *image_embeds,
            all_spans(continuous_img_pad@),
            ids_device,
            Ok((spliced, mask)),
        ));
        let length_mask = match length_mask(seqlens, &ids_device) {
            Ok(t) => t,
            Err(e) => return Err(e),
        };
        Ok(
            VisionInputs {
                input_embeds: spliced,
                visual_pos_mask: mask,
                deepstack_image_embeds: deepstack,
                length_mask,
            },
        )
    }

    /// As [`Model::vision_inputs`], or nothing where a span ends before it starts, something cannot be
    /// counted or addressed, or a cast would not come to an end.
    pub fn vision_inputs_checked(
        &self,
        input_ids: &Tensor,
        input_embeds: &Tensor,
        image_embeds: &Tensor,
        deepstack_image_embeds: &Vec<Tensor>,
        seqlens: &Vec<usize>,
        continuous_img_pad: &Vec<Vec<(usize, usize)>>,
    ) -> (res: Option<Result<VisionInputs, EmbeddingError>>)
        ensures
            match res {
                Some(r) => {
                    &&& self.vision_inputs_sized(
                        *input_embeds,
                        *image_embeds,
                        deepstack_image_embeds@,
                        seqlens@,
                        all_spans(continuous_img_pad@),
                    )
                    &&& self.vision_inputs_outcome(
                        *input_ids,
                        *input_embeds,
                        *image_embeds,
                        deepstack_image_embeds@,
                        seqlens@,
                        all_spans(continuous_img_pad@),
                        r,
                    )
                },
                None => !self.vision_inputs_sized(
                    *input_embeds,
                    *image_embeds,
                    deepstack_image_embeds@,
                    seqlens@,
                    all_spans(continuous_img_pad@),
                ),
            },
    {
        let shape = dims(input_embeds);
        if shape.len() == 3 {
            let positions: Vec<usize> = vec![shape[0], shape[1]];
            assert(positions@ =~= shape@.take(2));
            if !fits(&positions, 4) {
                return None;
            }
        }
        let target = device(input_embeds);
        if !convert_fits(input_embeds, self.text_type) || !is_convertible(
            image_embeds,
            &target,
            self.text_type,
        ) || !are_convertible(deepstack_image_embeds, &target, self.text_type) || !spans_countable(
            continuous_img_pad,
        ) || !lengths_fit_memory(seqlens) {
            return None;
        }
        Some(
            self.vision_inputs(
                input_ids,
                input_embeds,
                image_embeds,
                deepstack_image_embeds,
                seqlens,
                continuous_img_pad,
            ),
        )
    }
}

} // verus!
