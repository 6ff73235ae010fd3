use candle_core::{DType, Device, Tensor};
use embedding_models::error::EmbeddingError;
use embedding_models::model::{convert, convert_all, Config, Model, VISION_TOWER_WEIGHT};
use embedding_models::positions::{
    flatten_pixels, flatten_pixels_checked, length_mask, text_position_ids,
    text_position_ids_checked,
};
use embedding_models::splice::splice_images;
use embedding_models::tensor::{device_in_main_memory, tensor_in_main_memory, ElemType};

fn embeds(batch: usize, len: usize, hidden: usize) -> Tensor {
    let n = batch * len * hidden;
    let items: Vec<f32> = (0..n).map(|i| i as f32).collect();
    Tensor::from_vec(items, (batch, len, hidden), &Device::Cpu).unwrap()
}

fn rows(n: usize, hidden: usize) -> Tensor {
    let items: Vec<f32> = (0..n * hidden).map(|i| 1000.0 + i as f32).collect();
    Tensor::from_vec(items, (n, hidden), &Device::Cpu).unwrap()
}

fn config() -> Config<u32> {
    Config {
        spatial_merge_size: 2,
        image_token_id: 11,
        video_token_id: 12,
        vision_start_token_id: 13,
        vision_end_token_id: 14,
        text_quantization_config: Some(4),
        quantization_config: None,
    }
}

#[test]
fn positions_count_the_tokens() {
    let ids = Tensor::zeros((2, 3), DType::U32, &Device::Cpu).unwrap();
    let t = text_position_ids(&ids).unwrap();
    assert_eq!(t.dims(), &[3, 2, 3]);
    assert_eq!(t.dtype(), DType::I64);
    let row: Vec<i64> = vec![0, 1, 2];
    let channel = vec![row.clone(), row];
    assert_eq!(
        t.to_vec3::<i64>().unwrap(),
        vec![channel.clone(), channel.clone(), channel]
    );
    assert!(t.is_contiguous());
}

#[test]
fn positions_need_a_matrix() {
    let ids = Tensor::zeros(3, DType::U32, &Device::Cpu).unwrap();
    assert!(matches!(text_position_ids(&ids), Err(EmbeddingError::Tensor(_))));
}

#[test]
fn positions_of_empty_batches() {
    let ids = Tensor::zeros((2, 0), DType::U32, &Device::Cpu).unwrap();
    assert_eq!(text_position_ids(&ids).unwrap().dims(), &[3, 2, 0]);
    let ids = Tensor::zeros((0, 2), DType::U32, &Device::Cpu).unwrap();
    assert_eq!(text_position_ids(&ids).unwrap().dims(), &[3, 0, 2]);
}

#[test]
fn length_mask_marks_tokens() {
    let t = length_mask(&vec![2, 0, 3], &Device::Cpu).unwrap();
    assert_eq!(
        t.to_vec2::<f32>().unwrap(),
        vec![vec![1.0, 1.0, 0.0], vec![0.0, 0.0, 0.0], vec![1.0, 1.0, 1.0]]
    );
    assert!(matches!(length_mask(&vec![], &Device::Cpu), Err(EmbeddingError::Tensor(_))));
}

#[test]
fn pixels_are_flattened_to_rows() {
    let t = embeds(2, 3, 4);
    let flat = flatten_pixels(&t).unwrap();
    assert_eq!(flat.dims(), &[6, 4]);
    assert_eq!(
        flat.flatten_all().unwrap().to_vec1::<f32>().unwrap(),
        t.flatten_all().unwrap().to_vec1::<f32>().unwrap()
    );
    let matrix = rows(2, 5);
    assert_eq!(flatten_pixels(&matrix).unwrap().dims(), &[2, 5]);
    let swapped = t.transpose(0, 2).unwrap();
    assert_eq!(flatten_pixels(&swapped).unwrap().to_vec2::<f32>().unwrap()[1], vec![4.0, 16.0]);
}

#[test]
fn patches_of_size_zero_are_refused() {
    let t = Tensor::zeros((2, 3, 0), DType::F32, &Device::Cpu).unwrap();
    assert!(matches!(flatten_pixels(&t), Err(EmbeddingError::Tensor(_))));
}

#[test]
fn rows_take_the_place_of_placeholders() {
    let pads = vec![vec![(0, 2)], vec![(1, 2), (3, 4)]];
    let (out, mask) = splice_images(&embeds(2, 4, 2), &rows(4, 2), &pads, &Device::Cpu).unwrap();
    assert_eq!(
        out.to_vec3::<f32>().unwrap(),
        vec![
            vec![
                vec![1000.0, 1001.0],
                vec![1002.0, 1003.0],
                vec![4.0, 5.0],
                vec![6.0, 7.0]
            ],
            vec![
                vec![8.0, 9.0],
                vec![1004.0, 1005.0],
                vec![12.0, 13.0],
                vec![1006.0, 1007.0]
            ],
        ]
    );
    assert_eq!(mask.dtype(), DType::U8);
    assert_eq!(mask.to_vec2::<u8>().unwrap(), vec![vec![1, 1, 0, 0], vec![0, 1, 0, 1]]);
}

#[test]
fn overlapping_spans_keep_the_last_row() {
    let pads = vec![vec![(0, 2), (1, 2)]];
    let (out, mask) = splice_images(&embeds(1, 2, 1), &rows(3, 1), &pads, &Device::Cpu).unwrap();
    assert_eq!(out.to_vec3::<f32>().unwrap(), vec![vec![vec![1000.0], vec![1002.0]]]);
    assert_eq!(mask.to_vec2::<u8>().unwrap(), vec![vec![1, 1]]);
}

#[test]
fn nothing_to_splice() {
    let (out, mask) = splice_images(&embeds(1, 2, 1), &rows(0, 3), &vec![vec![]], &Device::Cpu).unwrap();
    assert_eq!(out.to_vec3::<f32>().unwrap(), vec![vec![vec![0.0], vec![1.0]]]);
    assert_eq!(mask.to_vec2::<u8>().unwrap(), vec![vec![0, 0]]);
}

#[test]
fn rows_must_be_as_many_as_placeholders() {
    let res = splice_images(&embeds(1, 4, 2), &rows(3, 2), &vec![vec![(0, 2)]], &Device::Cpu);
    assert!(matches!(
        res,
        Err(EmbeddingError::ImageLength { embeddings: 3, placeholders: 2 })
    ));
}

#[test]
fn rows_must_be_as_wide_as_embeddings() {
    let res = splice_images(&embeds(1, 4, 2), &rows(2, 3), &vec![vec![(0, 2)]], &Device::Cpu);
    assert!(matches!(res, Err(EmbeddingError::ImageWidth)));
}

#[test]
fn spans_must_lie_in_the_streams() {
    let res = splice_images(&embeds(1, 4, 2), &rows(2, 2), &vec![vec![(3, 5)]], &Device::Cpu);
    assert!(matches!(res, Err(EmbeddingError::Span { batch: 0, start: 3, end: 5 })));
    let pads = vec![vec![], vec![(0, 2)]];
    let res = splice_images(&embeds(1, 4, 2), &rows(2, 2), &pads, &Device::Cpu);
    assert!(matches!(res, Err(EmbeddingError::Span { batch: 1, start: 0, end: 2 })));
    let pads = vec![vec![(0, 2), (3, 3)]];
    let res = splice_images(&embeds(1, 4, 2), &rows(2, 2), &pads, &Device::Cpu);
    assert!(matches!(res, Err(EmbeddingError::Span { batch: 0, start: 3, end: 3 })));
}

#[test]
fn embeddings_need_three_dimensions_and_one_type() {
    let res = splice_images(&rows(4, 2), &rows(2, 2), &vec![vec![(0, 2)]], &Device::Cpu);
    assert!(matches!(res, Err(EmbeddingError::Tensor(_))));
    let doubles = rows(2, 2).to_dtype(DType::F64).unwrap();
    let res = splice_images(&embeds(1, 4, 2), &doubles, &vec![vec![(0, 2)]], &Device::Cpu);
    assert!(matches!(res, Err(EmbeddingError::Tensor(_))));
    let scalar = Tensor::new(1f32, &Device::Cpu).unwrap();
    let res = splice_images(&embeds(1, 4, 2), &scalar, &vec![vec![]], &Device::Cpu);
    assert!(matches!(res, Err(EmbeddingError::Tensor(_))));
}

#[test]
fn conversion_casts_elements() {
    let t = Tensor::new(vec![0.0f32, 1.0, 1.5, -2.25], &Device::Cpu).unwrap();
    let r = convert(&t, &Device::Cpu, ElemType::BF16).unwrap();
    assert_eq!(r.dtype(), DType::BF16);
    assert_eq!(
        r.to_dtype(DType::F32).unwrap().to_vec1::<f32>().unwrap(),
        vec![0.0, 1.0, 1.5, -2.25]
    );
    let r = convert(&t, &Device::Cpu, ElemType::F16).unwrap();
    assert_eq!(r.dtype(), DType::F16);
    let r = convert(&t, &Device::Cpu, ElemType::I64).unwrap();
    assert_eq!(r.to_vec1::<i64>().unwrap(), vec![0, 1, 1, -2]);
    assert!(matches!(
        convert(&t, &Device::Cpu, ElemType::F4),
        Err(EmbeddingError::Tensor(_))
    ));
    let all = convert_all(&vec![t.clone(), t], &Device::Cpu, ElemType::F64).unwrap();
    assert_eq!(all.len(), 2);
    assert_eq!(all[1].to_vec1::<f64>().unwrap(), vec![0.0, 1.0, 1.5, -2.25]);
}

#[test]
fn ones_have_the_stated_bit_patterns() {
    assert_eq!(1f32.to_bits(), 0x3f80_0000);
    assert_eq!(1f64.to_bits(), 0x3ff0_0000_0000_0000);
    let t = Tensor::new(vec![1f32], &Device::Cpu).unwrap();
    assert_eq!(t.to_dtype(DType::BF16).unwrap().to_dtype(DType::U8).unwrap().to_vec1::<u8>().unwrap(), vec![1]);
    assert_eq!(t.to_dtype(DType::F16).unwrap().to_dtype(DType::U32).unwrap().to_vec1::<u32>().unwrap(), vec![1]);
}

#[test]
fn settings_of_the_model() {
    let model = Model::new(&config(), ElemType::F32, Device::Cpu);
    assert_eq!(model.spatial_merge_size, 2);
    assert_eq!(model.image_token_id, 11);
    assert_eq!(model.video_token_id, 12);
    assert_eq!(model.vision_start_token_id, 13);
    assert_eq!(model.vision_end_token_id, 14);
    assert_eq!(model.text_type, ElemType::F32);
    assert!(model.device().is_cpu());
}

#[test]
fn quantization_of_the_whole_model_comes_first() {
    let mut cfg = config();
    assert_eq!(cfg.text_quantization(), &Some(4));
    cfg.quantization_config = Some(8);
    assert_eq!(cfg.text_quantization(), &Some(8));
}

#[test]
fn vision_weights_stand_in_one_of_two_places() {
    assert_eq!(Model::vision_path(true), vec!["vision_tower"]);
    assert_eq!(Model::vision_path(false), vec!["model", "visual"]);
    assert_eq!(VISION_TOWER_WEIGHT, "vision_tower.patch_embed.proj.weight");
}

#[test]
fn residual_tensors_of_the_text_block_come_first() {
    let text = vec![("a".to_string(), rows(1, 1))];
    let vision = vec![("b".to_string(), rows(1, 1)), ("c".to_string(), rows(1, 1))];
    let all = Model::residual_tensors(text, vision);
    let names: Vec<&str> = all.iter().map(|(n, _)| n.as_str()).collect();
    assert_eq!(names, vec!["a", "b", "c"]);
}

#[test]
fn inputs_of_the_text_block() {
    let model = Model::new(&config(), ElemType::F32, Device::Cpu);
    let ids = Tensor::zeros((2, 3), DType::U32, &Device::Cpu).unwrap();
    let image = rows(3, 2).to_dtype(DType::F64).unwrap();
    let pads = vec![vec![(0, 1)], vec![(0, 2)]];
    let out = model
        .vision_inputs(&ids, &embeds(2, 3, 2), &image, &vec![image.clone()], &vec![2, 3], &pads)
        .unwrap();
    assert_eq!(
        out.input_embeds.to_vec3::<f32>().unwrap(),
        vec![
            vec![vec![1000.0, 1001.0], vec![2.0, 3.0], vec![4.0, 5.0]],
            vec![vec![1002.0, 1003.0], vec![1004.0, 1005.0], vec![10.0, 11.0]],
        ]
    );
    assert_eq!(out.visual_pos_mask.to_vec2::<u8>().unwrap(), vec![vec![1, 0, 0], vec![1, 1, 0]]);
    assert_eq!(out.deepstack_image_embeds.len(), 1);
    assert_eq!(out.deepstack_image_embeds[0].dtype(), DType::F32);
    assert_eq!(
        out.length_mask.to_vec2::<f32>().unwrap(),
        vec![vec![1.0, 1.0, 0.0], vec![1.0, 1.0, 1.0]]
    );
}

#[test]
fn inputs_without_streams_are_refused() {
    let model = Model::new(&config(), ElemType::F32, Device::Cpu);
    let ids = Tensor::zeros((1, 2), DType::U32, &Device::Cpu).unwrap();
    let res = model.vision_inputs(&ids, &embeds(1, 2, 1), &rows(1, 1), &vec![], &vec![], &vec![vec![(0, 1)]]);
    assert!(matches!(res, Err(EmbeddingError::Tensor(_))));
}

#[test]
fn sizes_are_checked_before_anything_is_made() {
    let one = Tensor::zeros((1, 1), DType::U32, &Device::Cpu).unwrap();
    let ids = one.broadcast_as((1 << 31, 1 << 31)).unwrap();
    assert!(text_position_ids_checked(&ids).is_none());
    assert_eq!(text_position_ids_checked(&one).unwrap().unwrap().dims(), &[3, 1, 1]);

    let one = Tensor::zeros((1, 1, 1), DType::F32, &Device::Cpu).unwrap();
    let pixels = one.broadcast_as((1 << 31, 1 << 31, 1)).unwrap();
    assert!(flatten_pixels_checked(&pixels).is_none());
    assert_eq!(flatten_pixels_checked(&one).unwrap().unwrap().dims(), &[1, 1]);
}

#[test]
fn spans_are_checked_before_they_are_counted() {
    let model = Model::new(&config(), ElemType::F32, Device::Cpu);
    let ids = Tensor::zeros((1, 2), DType::U32, &Device::Cpu).unwrap();
    let (embeds, image) = (embeds(1, 2, 1), rows(1, 1));
    let spans = |start, end| vec![vec![(start, end)]];
    let run = |pads: &Vec<Vec<(usize, usize)>>, lens: &Vec<usize>| {
        model.vision_inputs_checked(&ids, &embeds, &image, &vec![], lens, pads)
    };
    assert!(run(&spans(2, 1), &vec![2]).is_none());
    assert!(run(&vec![vec![(0, usize::MAX), (0, 1)]], &vec![2]).is_none());
    assert!(run(&spans(0, 1), &vec![usize::MAX]).is_none());
    assert!(matches!(
        run(&spans(0, 2), &vec![2]),
        Some(Err(EmbeddingError::ImageLength { embeddings: 1, placeholders: 2 }))
    ));
    let out = run(&spans(1, 2), &vec![2]).unwrap().unwrap();
    assert_eq!(out.visual_pos_mask.to_vec2::<u8>().unwrap(), vec![vec![0, 1]]);
}

#[test]
fn main_memory_is_told() {
    assert!(device_in_main_memory(&Device::Cpu));
    assert!(tensor_in_main_memory(&rows(1, 1)));
}

#[test]
fn rows_without_elements_are_cast() {
    let all = Tensor::zeros((0, 5), DType::F32, &Device::Cpu).unwrap();
    let empty = all.narrow(1, 4, 1).unwrap().reshape((0, 3)).unwrap();
    let cast = convert(&empty, &Device::Cpu, ElemType::F64).unwrap();
    assert_eq!((cast.dims(), cast.dtype()), (&[0usize, 3][..], DType::F64));
    let same = convert(&empty, &Device::Cpu, ElemType::F32).unwrap();
    assert_eq!((same.dims(), same.dtype()), (&[0usize, 3][..], DType::F32));

    let model = Model::new(&config(), ElemType::F64, Device::Cpu);
    let ids = Tensor::zeros((1, 2), DType::U32, &Device::Cpu).unwrap();
    let text = embeds(1, 2, 3).to_dtype(DType::F64).unwrap();
    let out = model.vision_inputs_checked(
        &ids,
        &text,
        &empty,
        &vec![empty.clone()],
        &vec![2],
        &vec![vec![]],
    );
    let out = out.unwrap().unwrap();
    assert_eq!(out.input_embeds.to_vec3::<f64>().unwrap(), text.to_vec3::<f64>().unwrap());
    assert_eq!(out.visual_pos_mask.to_vec2::<u8>().unwrap(), vec![vec![0, 0]]);
    assert_eq!(out.deepstack_image_embeds[0].dims(), &[0, 3]);
}

#[test]
fn every_plain_type_is_cast_to_every_other() {
    let types = [
        ElemType::U8, ElemType::U32, ElemType::I16, ElemType::I32, ElemType::I64,
        ElemType::BF16, ElemType::F16, ElemType::F32, ElemType::F64, ElemType::F8E4M3,
    ];
    let source = Tensor::new(vec![0f32, 1.0, 3.0], &Device::Cpu).unwrap();
    for from in types {
        let start = convert(&source, &Device::Cpu, from).unwrap();
        for to in types {
            if from == ElemType::F8E4M3 && to == ElemType::F64 {
                continue;
            }
            let end = convert(&start, &Device::Cpu, to).unwrap();
            let back = convert(&end, &Device::Cpu, ElemType::F32).unwrap();
            assert_eq!(back.to_vec1::<f32>().unwrap(), vec![0.0, 1.0, 3.0], "{:?} {:?}", from, to);
        }
    }
}

#[test]
fn rows_of_other_types_are_spliced() {
    for elem in [ElemType::I16, ElemType::I32, ElemType::F8E4M3] {
        let text = convert(&embeds(1, 2, 1), &Device::Cpu, elem).unwrap();
        let image = Tensor::new(vec![vec![5f32]], &Device::Cpu).unwrap();
        let image = convert(&image, &Device::Cpu, elem).unwrap();
        let (out, _) = splice_images(&text, &image, &vec![vec![(1, 2)]], &Device::Cpu).unwrap();
        let out = convert(&out, &Device::Cpu, ElemType::F32).unwrap();
        assert_eq!(out.to_vec3::<f32>().unwrap(), vec![vec![vec![0.0], vec![5.0]]]);
    }
}

#[test]
fn cast_without_end_is_not_begun() {
    let model = Model::new(&config(), ElemType::F64, Device::Cpu);
    let ids = Tensor::zeros((1, 2), DType::U32, &Device::Cpu).unwrap();
    let text = embeds(1, 2, 1).to_dtype(DType::F64).unwrap();
    let small = rows(1, 1).to_dtype(DType::F8E4M3).unwrap();
    let pads = vec![vec![(0, 1)]];
    let run = |image: &Tensor, deepstack: Vec<Tensor>| {
        model.vision_inputs_checked(&ids, &text, image, &deepstack, &vec![2], &pads)
    };
    assert!(run(&small, vec![]).is_none());
    assert!(run(&rows(1, 1), vec![small.clone()]).is_none());
    let empty = small.narrow(0, 0, 0).unwrap();
    let out = run(&rows(1, 1), vec![empty]).unwrap().unwrap();
    assert_eq!(out.deepstack_image_embeds[0].dtype(), DType::F64);
}
