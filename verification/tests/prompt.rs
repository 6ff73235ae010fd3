use candle_core::{DType, Device};
use embedding_models::prompt::{
    _make_tensor_with_pad, get_prompt_input, make_prompt_chunk, FlashParams,
};
use embedding_models::error::EmbeddingError;
use embedding_models::sequence::Sequence;

fn text(toks: &[u32], token_offset: usize) -> Sequence {
    Sequence {
        toks: toks.to_vec(),
        token_offset,
        has_images: false,
        images: None,
        image_hashes: None,
    }
}

#[test]
fn padding_fills_each_list_up() {
    let t = _make_tensor_with_pad(vec![vec![1, 2], vec![3], vec![]], 3, 9, &Device::Cpu).unwrap();
    assert_eq!(t.dims(), &[9]);
    assert_eq!(t.dtype(), DType::U32);
    assert_eq!(t.to_vec1::<u32>().unwrap(), vec![1, 2, 9, 3, 9, 9, 9, 9, 9]);
}

#[test]
fn padding_one_list() {
    let t = _make_tensor_with_pad(vec![vec![4]], 2, 0, &Device::Cpu).unwrap();
    assert_eq!(t.to_vec1::<u32>().unwrap(), vec![4, 0]);
}

#[test]
fn padding_needs_a_list() {
    let res = _make_tensor_with_pad(vec![], 2, 0, &Device::Cpu);
    assert!(matches!(res, Err(EmbeddingError::Tensor(_))));
}

#[test]
fn chunk_pads_to_the_longest() {
    let (a, b) = ([5u32, 6, 7], [8u32]);
    let m = make_prompt_chunk(0, vec![&a[..], &b[..]], &Device::Cpu, false, true, None).unwrap();
    assert_eq!(m.input.dims(), &[2, 3]);
    assert_eq!(m.input.to_vec2::<u32>().unwrap(), vec![vec![5, 6, 7], vec![8, 0, 0]]);
    assert!(matches!(m.flash_meta, FlashParams::Empty { causal: true }));
}

#[test]
fn chunk_of_one_sequence() {
    let a = [5u32, 6];
    let m = make_prompt_chunk(0, vec![&a[..]], &Device::Cpu, false, false, None).unwrap();
    assert_eq!(m.input.to_vec2::<u32>().unwrap(), vec![vec![5, 6]]);
    assert!(matches!(m.flash_meta, FlashParams::Empty { causal: false }));
}

#[test]
fn chunk_of_empty_sequences() {
    let a: [u32; 0] = [];
    let m = make_prompt_chunk(0, vec![&a[..], &a[..]], &Device::Cpu, false, false, None).unwrap();
    assert_eq!(m.input.dims(), &[2, 0]);
}

#[test]
fn chunk_reports_padded_lengths() {
    let (a, b) = ([5u32, 6, 7], [8u32]);
    let m = make_prompt_chunk(4, vec![&a[..], &b[..]], &Device::Cpu, true, false, Some(16)).unwrap();
    match m.flash_meta {
        FlashParams::Lengths { seqlens_q, seqlens_k, sliding_window, causal } => {
            assert_eq!(seqlens_q, vec![0, 3, 3]);
            assert_eq!(seqlens_k, vec![0, 7, 7]);
            assert_eq!(sliding_window, Some(16));
            assert!(!causal);
        }
        FlashParams::Empty { .. } => panic!("lengths expected"),
    }
}

#[test]
fn prompt_input_takes_the_offset_of_the_first_sequence() {
    let seqs = vec![text(&[1, 2], 10), text(&[3], 99)];
    let toks: Vec<&[u32]> = seqs.iter().map(|s| s.toks.as_slice()).collect();
    let out = get_prompt_input(toks, &seqs, &Device::Cpu, true, true, None).unwrap();
    assert_eq!(out.seq_indices, vec![0, 1]);
    assert_eq!(out.inputs.input.to_vec2::<u32>().unwrap(), vec![vec![1, 2], vec![3, 0]]);
    match out.inputs.flash_meta {
        FlashParams::Lengths { seqlens_k, causal, .. } => {
            assert_eq!(seqlens_k, vec![0, 12, 12]);
            assert!(causal);
        }
        FlashParams::Empty { .. } => panic!("lengths expected"),
    }
}
