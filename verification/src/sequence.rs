//! One request as the input preparation sees it.

use image::DynamicImage;
use vstd::prelude::*;

verus! {

/// A sequence of prompt tokens with the images that came along with it.
pub struct Sequence {
    /// The token stream.
    pub toks: Vec<u32>,
    /// The number of tokens of this sequence that earlier chunks have consumed.
    pub token_offset: usize,
    /// Whether the request was made with images.
    pub has_images: bool,
    /// The images, where the request has kept them.
    pub images: Option<Vec<DynamicImage>>,
    /// One hash per image, where hashes were computed.
    pub image_hashes: Option<Vec<u64>>,
}

} // verus!
