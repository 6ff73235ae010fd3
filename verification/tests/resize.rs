use embedding_models::resize::{
    can_cap, capped_dimensions, channels, images_for_vision, images_for_vision_checked, resize_max_edge,
    MAX_IMAGE_EDGE,
};
use embedding_models::sequence::Sequence;
use embedding_models::single::scale;
use image::{DynamicImage, GrayImage, RgbImage};

fn single_precision(w: u32, h: u32, max_edge: u32) -> (u32, u32) {
    let m = w.max(h);
    if m <= max_edge {
        return (w, h);
    }
    let factor = max_edge as f32 / m as f32;
    let new_w = ((w as f32 * factor) as u32).max(1);
    let new_h = ((h as f32 * factor) as u32).max(1);
    (new_w, new_h)
}

fn next(state: &mut u64) -> u64 {
    *state ^= *state << 13;
    *state ^= *state >> 7;
    *state ^= *state << 17;
    *state
}

#[test]
fn small_image_keeps_its_size() {
    assert_eq!(capped_dimensions(300, 200, 512), (300, 200));
    assert_eq!(capped_dimensions(512, 512, 512), (512, 512));
    assert_eq!(capped_dimensions(0, 0, 512), (0, 0));
}

#[test]
fn large_image_is_scaled_on_both_edges() {
    assert_eq!(capped_dimensions(1024, 512, 512), (512, 256));
    assert_eq!(capped_dimensions(2000, 1000, 512), (512, 256));
    assert_eq!(capped_dimensions(1920, 1080, 512), (512, 288));
}

#[test]
fn thin_image_keeps_one_pixel() {
    assert_eq!(capped_dimensions(100_000, 1, 512), (512, 1));
    assert_eq!(capped_dimensions(7, 3, 0), (1, 1));
}

#[test]
fn sizes_agree_with_single_precision_up_to_a_few_thousand() {
    for m in 1..4000u32 {
        assert_eq!(capped_dimensions(m, m, 512), single_precision(m, m, 512));
        assert_eq!(capped_dimensions(m, 17, 512), single_precision(m, 17, 512));
        assert_eq!(capped_dimensions(333, m, 512), single_precision(333, m, 512));
    }
}

#[test]
fn sizes_agree_with_single_precision_on_any_numbers() {
    let mut state: u64 = 0x9e37_79b9_7f4a_7c15;
    for _ in 0..20_000 {
        let shift = next(&mut state) % 32;
        let w = (next(&mut state) as u32) >> shift;
        let h = (next(&mut state) as u32) >> (next(&mut state) % 32);
        let edge = (next(&mut state) as u32) >> (next(&mut state) % 32);
        assert_eq!(
            capped_dimensions(w, h, edge),
            single_precision(w, h, edge),
            "{} {} {}",
            w,
            h,
            edge
        );
    }
}

#[test]
fn scaling_agrees_with_single_precision() {
    let mut state: u64 = 0x2545_f491_4f6c_dd1d;
    for _ in 0..20_000 {
        let x = (next(&mut state) as u32) >> (next(&mut state) % 32);
        let a = (next(&mut state) as u32) >> (next(&mut state) % 32);
        let b = ((next(&mut state) as u32) >> (next(&mut state) % 32)).max(1);
        let expected = (x as f32 * (a as f32 / b as f32)) as u32;
        assert_eq!(scale(x, a, b), expected, "{} {} {}", x, a, b);
    }
    assert_eq!(scale(u32::MAX, u32::MAX, 1), u32::MAX);
    assert_eq!(scale(10, 0, 3), 0);
}

#[test]
fn capped_size_is_not_changed_again() {
    for (w, h) in [(513u32, 1u32), (4000, 3000), (1001, 999), (u32::MAX, 5)] {
        let (cw, ch) = capped_dimensions(w, h, 512);
        assert!(cw <= 512 && ch <= 512 && cw > 0 && ch > 0);
        assert_eq!(capped_dimensions(cw, ch, 512), (cw, ch));
    }
}

#[test]
fn cap_without_fractions_can_be_exceeded() {
    assert_eq!(single_precision(33_554_426, 1, 16_777_214), (16_777_215, 1));
    assert_eq!(capped_dimensions(33_554_426, 1, 16_777_214), (16_777_215, 1));
}

#[test]
fn empty_image_is_capped() {
    let img = DynamicImage::ImageLuma8(GrayImage::new(0, 1024));
    let res = resize_max_edge(&img, 512);
    assert_eq!((res.width(), res.height()), (1, 512));
}

#[test]
fn every_size_can_be_capped() {
    assert!(can_cap(u32::MAX, u32::MAX, MAX_IMAGE_EDGE));
    assert!(can_cap(10, 10, MAX_IMAGE_EDGE));
    assert!(!can_cap(u32::MAX, u32::MAX, u32::MAX - 1));
}

#[test]
fn resize_returns_an_equal_image_under_the_cap() {
    let img = DynamicImage::ImageRgb8(RgbImage::from_fn(40, 30, |x, y| {
        image::Rgb([x as u8, y as u8, 7])
    }));
    assert_eq!(resize_max_edge(&img, 512), img);
}

#[test]
fn resize_scales_a_large_image() {
    let img = DynamicImage::ImageLuma8(GrayImage::from_pixel(1024, 256, image::Luma([90])));
    let res = resize_max_edge(&img, MAX_IMAGE_EDGE);
    assert_eq!((res.width(), res.height()), (512, 128));
    assert_eq!(res.color(), img.color());
    assert_eq!(res.to_luma8().get_pixel(100, 100).0, [90]);
}

#[test]
fn axis_beyond_single_precision_cannot_be_capped() {
    assert!(!can_cap(16_777_218, 1, 16_777_216));
    assert!(!can_cap(1, 16_777_218, 16_777_216));
    assert!(can_cap(0x10_0000, 1, 0xf_ffff));
    assert!(can_cap(0x10_0001, 1, 0x1_0000));
    assert!(can_cap(16_777_218, 0, 16_777_216));
}

#[test]
fn longest_axes_that_can_be_capped_are_capped() {
    let img = DynamicImage::ImageLuma8(GrayImage::from_pixel(0x10_0000, 1, image::Luma([90])));
    let res = resize_max_edge(&img, 0xf_ffff);
    assert_eq!((res.width(), res.height()), (0xf_ffff, 1));
    assert!(res.to_luma8().pixels().all(|p| p.0 == [90]));
    let img = DynamicImage::ImageLuma8(GrayImage::from_pixel(1, 0x100_0002, image::Luma([90])));
    let res = resize_max_edge(&img, 0x1_0000);
    assert_eq!((res.width(), res.height()), (1, 0x1_0000));
    assert!(res.to_luma8().pixels().all(|p| p.0 == [90]));
}

#[test]
fn channels_are_told() {
    let gray = DynamicImage::ImageLuma8(GrayImage::new(1, 1));
    let color = DynamicImage::ImageRgb8(RgbImage::new(1, 1));
    assert_eq!(channels(&gray), image::ColorType::L8);
    assert_eq!(channels(&color), image::ColorType::Rgb8);
}

#[test]
fn resize_keeps_what_an_image_shows() {
    let img = DynamicImage::ImageLuma8(GrayImage::from_fn(1024, 1024, |x, y| {
        image::Luma([if x < 512 { 20 } else { 60 } + if y < 512 { 0 } else { 120 }])
    }));
    let res = resize_max_edge(&img, MAX_IMAGE_EDGE).to_luma8();
    assert_eq!(res.get_pixel(100, 100).0, [20]);
    assert_eq!(res.get_pixel(400, 100).0, [60]);
    assert_eq!(res.get_pixel(100, 400).0, [140]);
    assert_eq!(res.get_pixel(400, 400).0, [180]);
}

#[test]
fn images_of_a_sequence_are_capped_in_order() {
    let wide = DynamicImage::ImageLuma8(GrayImage::new(1024, 10));
    let small = DynamicImage::ImageLuma8(GrayImage::new(5, 6));
    let mut seq = Sequence {
        toks: vec![1],
        token_offset: 0,
        has_images: true,
        images: Some(vec![wide, small]),
        image_hashes: None,
    };
    let res = images_for_vision(&seq);
    let sizes: Vec<(u32, u32)> = res.iter().map(|i| (i.width(), i.height())).collect();
    assert_eq!(sizes, vec![(512, 5), (5, 6)]);
    let checked = images_for_vision_checked(&seq).unwrap();
    assert_eq!(checked, res);
    seq.images = None;
    assert!(images_for_vision(&seq).is_empty());
}
