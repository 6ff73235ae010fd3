use candle_core::{DType, Device, Error, Tensor};
use embedding_models::preparation::ImagePreparation;
use embedding_models::sequence::Sequence;
use embedding_models::vision_meta::PreparedImage;
use image::{DynamicImage, GrayImage};

fn sequence(widths: Option<Vec<u32>>) -> Sequence {
    let image = |w| DynamicImage::ImageLuma8(GrayImage::new(w, 1));
    Sequence {
        toks: vec![1],
        token_offset: 0,
        has_images: widths.is_some(),
        images: widths.map(|ws| ws.into_iter().map(image).collect()),
        image_hashes: None,
    }
}

fn patch(width: u32) -> PreparedImage {
    let pixels = Tensor::zeros((1, 1), DType::U32, &Device::Cpu).unwrap();
    PreparedImage { pixels, grid: (1, 1, width) }
}

#[test]
fn images_come_in_order_and_land_in_their_sequence() {
    let seqs = vec![
        sequence(None),
        sequence(Some(vec![3, 1024])),
        sequence(Some(vec![])),
        sequence(Some(vec![5])),
        sequence(None),
    ];
    let mut preparation = ImagePreparation::new(&seqs).unwrap();
    let mut widths = vec![];
    while let Some(image) = preparation.next() {
        let width = image.width();
        widths.push(width);
        preparation.record(Ok(patch(width)));
    }
    assert_eq!(widths, vec![3, 512, 5]);
    let prepared = preparation.finish();
    assert!(prepared.failure.is_none());
    let lists: Vec<Vec<u32>> = prepared
        .per_sequence
        .iter()
        .map(|list| list.iter().map(|p| p.grid.2).collect())
        .collect();
    assert_eq!(lists, vec![vec![], vec![3, 512], vec![], vec![5], vec![]]);
}

#[test]
fn failed_image_ends_the_preparation() {
    let seqs = vec![
        sequence(Some(vec![3])),
        sequence(Some(vec![4, 6])),
        sequence(Some(vec![7])),
    ];
    let mut preparation = ImagePreparation::new(&seqs).unwrap();
    preparation.record(Ok(patch(3)));
    preparation.record(Ok(patch(4)));
    assert_eq!(preparation.next().unwrap().width(), 6);
    preparation.record(Err(Error::Msg("no patches".to_string())));
    assert!(preparation.next().is_none());
    let prepared = preparation.finish();
    assert_eq!(prepared.per_sequence.len(), 1);
    assert_eq!(prepared.per_sequence[0][0].grid, (1, 1, 3));
    assert!(prepared.failure.unwrap().to_string().contains("no patches"));
}

#[test]
fn nothing_to_prepare() {
    let preparation = ImagePreparation::new(&vec![]).unwrap();
    assert!(preparation.next().is_none());
    assert!(preparation.finish().per_sequence.is_empty());
}
