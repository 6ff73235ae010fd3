use std::sync::Arc;

use candle_core::{DType, Device, Tensor};
use embedding_models::error::EmbeddingError;
use embedding_models::processor::{
    EmbeddingInputsProcessor, EmbeddingProcessor, InputsProcessorType, MessagesAction,
    PreProcessorConfig,
};
use embedding_models::resize::{images_for_vision, resize_max_edge, MAX_IMAGE_EDGE};
use embedding_models::sequence::Sequence;
use embedding_models::vision_meta::{count_tokens, PreparedImage, PreparedImages};
use image::{DynamicImage, GrayImage};

fn sequence(toks: &[u32], has_images: bool, hashes: Option<Vec<u64>>) -> Sequence {
    Sequence {
        toks: toks.to_vec(),
        token_offset: 0,
        has_images,
        images: None,
        image_hashes: hashes,
    }
}

fn prepared(value: u32, rows: usize, grid: (u32, u32, u32)) -> PreparedImage {
    let pixels = Tensor::from_vec(vec![value; rows * 2], (rows, 2), &Device::Cpu).unwrap();
    PreparedImage { pixels, grid }
}

fn none() -> PreparedImages {
    PreparedImages { per_sequence: vec![], failure: None }
}

fn processor(token: Option<u32>, merge_size: Option<usize>) -> EmbeddingInputsProcessor {
    EmbeddingInputsProcessor {
        has_causal_attention: true,
        vision_image_token_id: token,
        vision_preprocessor_config: Some(Arc::new(PreProcessorConfig { merge_size })),
    }
}

#[test]
fn tokens_of_grids() {
    assert_eq!(count_tokens(&vec![], 0), Some(0));
    assert_eq!(count_tokens(&vec![prepared(0, 1, (1, 4, 4))], 2), Some(4));
    assert_eq!(count_tokens(&vec![prepared(0, 1, (1, 4, 4))], 0), Some(16));
    assert_eq!(count_tokens(&vec![prepared(0, 1, (1, 4, 4))], 1), Some(16));
    assert_eq!(
        count_tokens(&vec![prepared(0, 1, (1, 3, 3)), prepared(0, 1, (2, 4, 2))], 2),
        Some(2 + 4)
    );
    assert_eq!(count_tokens(&vec![prepared(0, 1, (u32::MAX, u32::MAX, u32::MAX))], 2), None);
    assert_eq!(count_tokens(&vec![prepared(0, 1, (1, 1, 1))], usize::MAX), None);
}

#[test]
fn nothing_without_configured_vision() {
    let mut seqs = vec![sequence(&[1, 2], true, None)];
    let p = processor(None, None);
    assert!(!p.needs_images(&seqs));
    assert!(matches!(p.build_vision_meta(&mut seqs, none(), &Device::Cpu), Ok(None)));
    assert_eq!(seqs[0].toks, vec![1, 2]);
}

#[test]
fn nothing_without_images() {
    let mut seqs = vec![sequence(&[1, 2], false, None)];
    let p = processor(Some(7), None);
    assert!(!p.needs_images(&seqs));
    assert!(matches!(p.build_vision_meta(&mut seqs, none(), &Device::Cpu), Ok(None)));
    assert_eq!(seqs[0].toks, vec![1, 2]);
}

#[test]
fn images_that_are_gone_change_nothing() {
    let mut seqs = vec![sequence(&[1, 2], true, Some(vec![5]))];
    let p = processor(Some(7), None);
    let images = PreparedImages { per_sequence: vec![vec![]], failure: None };
    assert!(p.needs_images(&seqs));
    assert!(matches!(p.build_vision_meta(&mut seqs, images, &Device::Cpu), Ok(None)));
    assert_eq!(seqs[0].toks, vec![1, 2]);
}

#[test]
fn placeholders_go_to_the_head_of_each_stream() {
    let mut seqs = vec![
        sequence(&[1, 2], true, Some(vec![11])),
        sequence(&[3], false, None),
        sequence(&[4, 5, 6], true, Some(vec![12, 13])),
    ];
    let p = processor(Some(7), None);
    let images = PreparedImages {
        per_sequence: vec![
            vec![prepared(1, 1, (1, 2, 2))],
            vec![],
            vec![prepared(2, 2, (1, 2, 2)), prepared(3, 1, (1, 2, 4))],
        ],
        failure: None,
    };
    let meta = p.build_vision_meta(&mut seqs, images, &Device::Cpu).unwrap().unwrap();
    assert_eq!(seqs[0].toks, vec![7, 1, 2]);
    assert_eq!(seqs[1].toks, vec![3]);
    assert_eq!(seqs[2].toks, vec![7, 7, 7, 4, 5, 6]);
    assert_eq!(meta.seqlens, vec![3, 1, 6]);
    assert_eq!(meta.continuous_img_pad, vec![vec![(0, 1)], vec![], vec![(0, 3)]]);
    assert_eq!(meta.image_hashes, vec![11, 12, 13]);
    assert_eq!(
        meta.image_grid_thw.to_vec2::<u32>().unwrap(),
        vec![vec![1, 2, 2], vec![1, 2, 2], vec![1, 2, 4]]
    );
    assert_eq!(
        meta.pixel_values.to_vec2::<u32>().unwrap(),
        vec![vec![1, 1], vec![2, 2], vec![2, 2], vec![3, 3]]
    );
}

#[test]
fn merge_size_is_taken_from_the_configuration() {
    let mut seqs = vec![sequence(&[1], true, None)];
    let p = processor(Some(7), Some(1));
    let images = PreparedImages { per_sequence: vec![vec![prepared(1, 1, (1, 2, 2))]], failure: None };
    let meta = p.build_vision_meta(&mut seqs, images, &Device::Cpu).unwrap().unwrap();
    assert_eq!(seqs[0].toks, vec![7, 7, 7, 7, 1]);
    assert_eq!(meta.continuous_img_pad, vec![vec![(0, 4)]]);
}

#[test]
fn image_too_small_for_a_token_has_no_span() {
    let mut seqs = vec![sequence(&[1], true, None)];
    let p = processor(Some(7), Some(2));
    let images = PreparedImages { per_sequence: vec![vec![prepared(1, 1, (1, 1, 3))]], failure: None };
    let meta = p.build_vision_meta(&mut seqs, images, &Device::Cpu).unwrap().unwrap();
    assert_eq!(seqs[0].toks, vec![1]);
    assert_eq!(meta.continuous_img_pad, vec![Vec::<(usize, usize)>::new()]);
}

#[test]
fn failed_preprocessing_is_handed_on() {
    let mut seqs = vec![sequence(&[1], true, None), sequence(&[2], true, None)];
    let p = processor(Some(7), None);
    let images = PreparedImages {
        per_sequence: vec![vec![prepared(1, 1, (1, 2, 2))]],
        failure: Some(candle_core::Error::Msg("no patches".to_string())),
    };
    let res = p.build_vision_meta(&mut seqs, images, &Device::Cpu);
    match res {
        Err(EmbeddingError::Preprocess(e)) => assert!(e.to_string().contains("no patches")),
        _ => panic!("a preprocessing error expected"),
    }
    assert_eq!(seqs[0].toks, vec![7, 1]);
    assert_eq!(seqs[1].toks, vec![2]);
}

#[test]
fn patches_of_different_width_do_not_fit() {
    let mut seqs = vec![sequence(&[1], true, None)];
    let p = processor(Some(7), None);
    let wide = PreparedImage {
        pixels: Tensor::zeros((1, 3), DType::U32, &Device::Cpu).unwrap(),
        grid: (1, 2, 2),
    };
    let images = PreparedImages {
        per_sequence: vec![vec![prepared(1, 1, (1, 2, 2)), wide]],
        failure: None,
    };
    let res = p.build_vision_meta(&mut seqs, images, &Device::Cpu);
    assert!(matches!(res, Err(EmbeddingError::Tensor(_))));
}

#[test]
fn batch_holds_the_placeholders() {
    let mut seqs = vec![sequence(&[1, 2], true, None), sequence(&[3], false, None)];
    let p = processor(Some(7), None);
    let images = PreparedImages {
        per_sequence: vec![vec![prepared(1, 1, (1, 2, 4))], vec![]],
        failure: None,
    };
    let out = p.process_inputs(&mut seqs, images, true, &Device::Cpu, false).unwrap();
    assert_eq!(
        out.inputs.input_ids.to_vec2::<u32>().unwrap(),
        vec![vec![7, 7, 1, 2], vec![3, 0, 0, 0]]
    );
    let meta = out.inputs.vision.unwrap();
    assert_eq!(meta.seqlens, vec![4, 1]);
    assert_eq!(meta.seqlens.iter().max(), Some(&out.inputs.input_ids.dims()[1]));
    assert_eq!(meta.continuous_img_pad, vec![vec![(0, 2)], vec![]]);
    assert_eq!(out.seq_indices, vec![0, 1]);
}

#[test]
fn batch_of_text_alone() {
    let mut seqs = vec![sequence(&[1, 2], false, None)];
    let p = processor(Some(7), None);
    let out = p.process_inputs(&mut seqs, none(), true, &Device::Cpu, false).unwrap();
    assert_eq!(out.inputs.input_ids.to_vec2::<u32>().unwrap(), vec![vec![1, 2]]);
    assert!(out.inputs.vision.is_none());
}

#[test]
fn processors_share_their_settings() {
    let config = Arc::new(PreProcessorConfig { merge_size: Some(4) });
    let p = EmbeddingProcessor {
        has_causal_attention: true,
        vision_image_token_id: Some(3),
        vision_preprocessor_config: Some(config.clone()),
    };
    let inputs = p.inputs_processor();
    assert!(inputs.has_causal_attention);
    assert_eq!(inputs.vision_image_token_id, Some(3));
    assert!(Arc::ptr_eq(inputs.vision_preprocessor_config.as_ref().unwrap(), &config));
    assert_eq!(inputs.get_type(), InputsProcessorType::Embedding);
    assert!(p.get_special_tokens().is_empty());
    assert_eq!(p.template_action(), MessagesAction::Keep);
}

#[test]
fn inputs_are_checked_before_they_are_changed() {
    let p = processor(Some(7), Some(usize::MAX));
    let image = || PreparedImages {
        per_sequence: vec![vec![prepared(1, 1, (1, 2, 2))]],
        failure: None,
    };
    let mut seqs = vec![sequence(&[1], true, None)];
    assert!(p.process_inputs_checked(&mut seqs, image(), true, &Device::Cpu, false).is_none());
    assert_eq!(seqs[0].toks, vec![1]);

    let p = processor(Some(7), Some(2));
    assert!(p.process_inputs_checked(&mut seqs, image(), false, &Device::Cpu, false).is_none());
    assert!(p.process_inputs_checked(&mut seqs, none(), true, &Device::Cpu, false).is_none());
    assert!(p.process_inputs_checked(&mut vec![], none(), true, &Device::Cpu, false).is_none());
    seqs[0].token_offset = usize::MAX;
    assert!(p.process_inputs_checked(&mut seqs, image(), true, &Device::Cpu, true).is_none());
    assert_eq!(seqs[0].toks, vec![1]);

    let out = p.process_inputs_checked(&mut seqs, image(), true, &Device::Cpu, false);
    let out = out.unwrap().unwrap();
    assert_eq!(out.inputs.input_ids.to_vec2::<u32>().unwrap(), vec![vec![7, 1]]);
    assert_eq!(seqs[0].toks, vec![7, 1]);
}

#[test]
fn patches_that_cannot_be_addressed_are_not_accepted() {
    let p = processor(Some(7), Some(2));
    let one = Tensor::zeros((1, 1), DType::F32, &Device::Cpu).unwrap();
    let wide = PreparedImage { pixels: one.broadcast_as((1, 1 << 62)).unwrap(), grid: (1, 2, 2) };
    let images = PreparedImages { per_sequence: vec![vec![wide]], failure: None };
    let mut seqs = vec![sequence(&[1], true, None)];
    assert!(p.process_inputs_checked(&mut seqs, images, true, &Device::Cpu, false).is_none());
    let tall = || PreparedImage { pixels: one.broadcast_as((1 << 60, 1)).unwrap(), grid: (1, 2, 2) };
    let images = PreparedImages { per_sequence: vec![vec![tall(), tall()]], failure: None };
    assert!(p.process_inputs_checked(&mut seqs, images, true, &Device::Cpu, false).is_none());
}

#[test]
fn failed_preprocessing_needs_no_batch() {
    let mut seqs = vec![sequence(&[1], true, None)];
    let p = processor(Some(7), None);
    let images = PreparedImages {
        per_sequence: vec![],
        failure: Some(candle_core::Error::Msg("no patches".to_string())),
    };
    let res = p.process_inputs_checked(&mut seqs, images, true, &Device::Cpu, false).unwrap();
    assert!(matches!(res, Err(EmbeddingError::Preprocess(_))));
}

fn empty_view(columns: usize) -> Tensor {
    let all = Tensor::zeros((0, columns + 4), DType::U32, &Device::Cpu).unwrap();
    all.narrow(1, 4, columns).unwrap()
}

#[test]
fn patches_without_elements_are_put_together() {
    let mut seqs = vec![sequence(&[1], true, None)];
    let p = processor(Some(7), None);
    let column = Tensor::from_vec(vec![5u32, 6], (2, 1), &Device::Cpu).unwrap();
    let image = |pixels| PreparedImage { pixels, grid: (1, 2, 2) };
    let images = PreparedImages {
        per_sequence: vec![vec![image(empty_view(1)), image(column), image(empty_view(1))]],
        failure: None,
    };
    let out = p.process_inputs_checked(&mut seqs, images, true, &Device::Cpu, false);
    let meta = out.unwrap().unwrap().inputs.vision.unwrap();
    assert_eq!(meta.pixel_values.to_vec2::<u32>().unwrap(), vec![vec![5], vec![6]]);
    assert_eq!(seqs[0].toks, vec![7, 7, 7, 1]);
}

#[test]
fn only_images_under_the_cap_matter() {
    let shade = |x: u32, y: u32| image::Luma([(x / 7 + y / 3) as u8]);
    let large = DynamicImage::ImageLuma8(GrayImage::from_fn(1300, 40, shade));
    let small = DynamicImage::ImageLuma8(GrayImage::from_fn(6, 9, shade));
    let preprocess = |seqs: &Vec<Sequence>| {
        let patch = |img: DynamicImage| {
            let grid = (1, img.height(), img.width());
            let shades: Vec<u32> = img.to_luma8().into_raw().iter().map(|s| *s as u32).collect();
            let rows = shades.len();
            let pixels = Tensor::from_vec(shades, (rows, 1), &Device::Cpu).unwrap();
            PreparedImage { pixels, grid }
        };
        let list = |seq: &Sequence| images_for_vision(seq).into_iter().map(patch).collect();
        PreparedImages { per_sequence: seqs.iter().map(list).collect(), failure: None }
    };
    let p = processor(Some(7), Some(2));
    let run = |images: Vec<DynamicImage>| {
        let mut seq = sequence(&[1, 2], true, Some(vec![3, 4]));
        seq.images = Some(images);
        let mut seqs = vec![seq];
        let images = preprocess(&seqs);
        let meta = p.build_vision_meta(&mut seqs, images, &Device::Cpu).unwrap().unwrap();
        (meta, seqs[0].toks.clone())
    };
    let capped = vec![
        resize_max_edge(&large, MAX_IMAGE_EDGE),
        resize_max_edge(&small, MAX_IMAGE_EDGE),
    ];
    let (a, a_toks) = run(vec![large, small]);
    let (b, b_toks) = run(capped);
    assert_eq!(a_toks, b_toks);
    assert_eq!(a.seqlens, b.seqlens);
    assert_eq!(a.continuous_img_pad, b.continuous_img_pad);
    assert_eq!(a.image_hashes, b.image_hashes);
    assert_eq!(
        a.pixel_values.to_vec2::<u32>().unwrap(),
        b.pixel_values.to_vec2::<u32>().unwrap()
    );
    assert_eq!(
        a.image_grid_thw.to_vec2::<u32>().unwrap(),
        b.image_grid_thw.to_vec2::<u32>().unwrap()
    );
}
