//! The cap on the size of input images.

use image::DynamicImage;
use vstd::prelude::*;

use crate::sequence::Sequence;
use crate::single::{
    lemma_scaled_bound, lemma_scaled_floor, lemma_scaled_monotone, lemma_scaled_ratio, rounded,
    scale, scaled, whole,
};

verus! {

/// The longest edge, in pixels, with which an image reaches the vision tower. It bounds the number
/// of patches, and with it the memory that the attention of the vision encoder takes.
pub const MAX_IMAGE_EDGE: u32 = 512;

/// Declares [`image::DynamicImage`].
#[verifier::external_type_specification]
#[verifier::external_body]
pub struct ExDynamicImage(image::DynamicImage);

/// Declares [`image::ColorType`].
#[verifier::external_type_specification]
#[verifier::external_body]
pub struct ExColorType(image::ColorType);

/// The width of an image in pixels.
pub uninterp spec fn image_width(img: DynamicImage) -> u32;

/// The height of an image in pixels.
pub uninterp spec fn image_height(img: DynamicImage) -> u32;

/// The channels of an image and the type of their samples.
pub uninterp spec fn image_color(img: DynamicImage) -> image::ColorType;

/// An image that scaling the picture `img` to the given size with the Catmull-Rom filter can give.
pub uninterp spec fn resamples_to(
    img: DynamicImage,
    nwidth: u32,
    nheight: u32,
    res: DynamicImage,
) -> bool;

/// Calls [`DynamicImage::width`].
#[verifier::external_body]
pub(crate) fn width(img: &DynamicImage) -> (res: u32)
    ensures
        res == image_width(*img),
{
    img.width()
}

/// Calls [`DynamicImage::height`].
#[verifier::external_body]
pub(crate) fn height(img: &DynamicImage) -> (res: u32)
    ensures
        res == image_height(*img),
{
    img.height()
}

/// Calls [`DynamicImage::color`].
#[verifier::external_body]
fn color(img: &DynamicImage) -> (res: image::ColorType)
    ensures
        res == image_color(*img),
{
    img.color()
}

/// Calls the `clone` of [`DynamicImage`]: an equal image.
#[verifier::external_body]
pub(crate) fn copy(img: &DynamicImage) -> (res: DynamicImage)
    ensures
        res == *img,
{
    img.clone()
}

/// Calls [`DynamicImage::resize_exact`] with the Catmull-Rom filter: an image of the given size with
/// the same channels that shows the given one. The image is resampled in single precision, first along
/// its columns; memory for that has to be addressable, and single precision has to tell the pixels
/// under the filter apart, or their weights can cancel and the call panics. The colours of its pixels go through
/// [`f32::powi`], whose precision differs between machines: that they come of this image and this size
/// is stated, and that two calls give the same is not.
#[verifier::external_body]
pub(crate) fn resample(img: &DynamicImage, nwidth: u32, nheight: u32) -> (res: DynamicImage)
    requires
        nwidth > 0,
        nheight > 0,
        resample_fits(image_width(*img), image_height(*img), nwidth, nheight),
    ensures
        image_width(res) == nwidth,
        image_height(res) == nheight,
        image_color(res) == image_color(*img),
        resamples_to(*img, nwidth, nheight, res),
{
    img.resize_exact(nwidth, nheight, image::imageops::FilterType::CatmullRom)
}

/// Single precision places the filter well along an axis: the positions of the old pixels are held
/// to a fraction of a pixel, or the new pixels are so few that the filter is wide.
pub open spec fn axis_fits(old_len: u32, new_len: u32) -> bool {
    old_len <= 0x10_0000 || new_len <= 0x1_0000
}

/// An image of this size can be resampled to the new size. In memory that takes four samples of four
/// bytes per pixel, at the old width with the new height and then at the new size. An image without
/// pixels is not filtered.
pub open spec fn resample_fits(width: u32, height: u32, nwidth: u32, nheight: u32) -> bool {
    &&& width * nheight * 16 <= isize::MAX
    &&& nwidth * nheight * 16 <= isize::MAX
    &&& width == 0 || height == 0 || axis_fits(width, nwidth) && axis_fits(height, nheight)
}

/// The longer of two edges.
pub open spec fn longer(w: u32, h: u32) -> u32 {
    if w >= h {
        w
    } else {
        h
    }
}

/// An edge scaled by `max_edge` over `longest` in single precision, but at least one pixel long.
pub open spec fn capped_edge(edge: u32, longest: u32, max_edge: u32) -> u32 {
    let s = scaled(edge as nat, max_edge as nat, longest as nat);
    if s == 0 {
        1
    } else if s <= u32::MAX {
        s as u32
    } else {
        u32::MAX
    }
}

/// The size of an image after the cap: the size it has where no edge exceeds the cap, and otherwise
/// both edges scaled alike.
pub open spec fn capped_size(w: u32, h: u32, max_edge: u32) -> (u32, u32) {
    if longer(w, h) <= max_edge {
        (w, h)
    } else {
        (capped_edge(w, longer(w, h), max_edge), capped_edge(h, longer(w, h), max_edge))
    }
}

/// No edge exceeds the cap afterwards, and none that was scaled vanishes. From two to the 23rd on,
/// where single precision no longer tells fractions of a pixel apart, a cap is out of scope.
pub proof fn lemma_capped_size(w: u32, h: u32, max_edge: u32)
    requires
        0 < max_edge < 0x80_0000,
    ensures
        capped_size(w, h, max_edge).0 <= max_edge,
        capped_size(w, h, max_edge).1 <= max_edge,
        w > 0 ==> capped_size(w, h, max_edge).0 > 0,
        h > 0 ==> capped_size(w, h, max_edge).1 > 0,
{
    if longer(w, h) > max_edge {
        lemma_scaled_bound(w as nat, max_edge as nat, longer(w, h) as nat);
        lemma_scaled_bound(h as nat, max_edge as nat, longer(w, h) as nat);
    }
}

/// The cap is reached once: a capped size is not changed by the same cap.
pub proof fn lemma_capped_size_idempotent(w: u32, h: u32, max_edge: u32)
    requires
        0 < max_edge < 0x80_0000,
    ensures
        capped_size(
            capped_size(w, h, max_edge).0,
            capped_size(w, h, max_edge).1,
            max_edge,
        ) == capped_size(w, h, max_edge),
{
    lemma_capped_size(w, h, max_edge);
}

/// An image that fits under the cap keeps its size.
pub proof fn lemma_cap_leaves_small_sizes(w: u32, h: u32, max_edge: u32)
    requires
        w <= max_edge,
        h <= max_edge,
    ensures
        capped_size(w, h, max_edge) == (w, h),
{
}

/// An image that exceeds the cap keeps its proportions: each new edge is the old one times the cap
/// over the longer edge, cut off behind the point but for one part in two to the 21st, and not
/// shorter than one pixel.
pub proof fn lemma_cap_keeps_proportions(w: u32, h: u32, max_edge: u32)
    requires
        0 < max_edge < 0x100_0000,
        w > max_edge || h > max_edge,
    ensures
        ({
            let longest = if w > h {
                w
            } else {
                h
            };
            let (nw, nh) = capped_size(w, h, max_edge);
            &&& nw >= 1
            &&& nh >= 1
            &&& nw == 1 || nw * longest * 0x20_0000 <= w * max_edge * 0x20_0001
            &&& nh == 1 || nh * longest * 0x20_0000 <= h * max_edge * 0x20_0001
            &&& (nw + 1) * longest * 0x20_0000 > w * max_edge * 0x1f_ffff
            &&& (nh + 1) * longest * 0x20_0000 > h * max_edge * 0x1f_ffff
        }),
{
    let longest = if w > h {
        w
    } else {
        h
    };
    lemma_capped_edge_ratio(w, longest, max_edge);
    lemma_capped_edge_ratio(h, longest, max_edge);
}

/// One edge keeps its proportion to the longer one.
proof fn lemma_capped_edge_ratio(edge: u32, longest: u32, max_edge: u32)
    requires
        0 < max_edge < 0x100_0000,
        edge <= longest,
        max_edge < longest,
    ensures
        capped_edge(edge, longest, max_edge) >= 1,
        capped_edge(edge, longest, max_edge) == 1 || capped_edge(edge, longest, max_edge) * longest
            * 0x20_0000 <= edge * max_edge * 0x20_0001,
        (capped_edge(edge, longest, max_edge) + 1) * longest * 0x20_0000 > edge * max_edge
            * 0x1f_ffff,
{
    lemma_scaled_ratio(edge as nat, max_edge as nat, longest as nat);
    let s = scaled(edge as nat, max_edge as nat, longest as nat);
    let n = capped_edge(edge, longest, max_edge);
    assert(s <= max_edge + 8) by (nonlinear_arith)
        requires
            s * longest * 0x20_0000 <= edge * max_edge * 0x20_0001,
            edge <= longest,
            longest > 0,
            0 < max_edge < 0x100_0000,
    {
        assert(edge * max_edge <= longest * max_edge);
        assert((s * 0x20_0000) * longest <= (max_edge * 0x20_0001) * longest);
        assert(s * 0x20_0000 <= max_edge * 0x20_0001);
    }
    assert((s + 1) * longest <= (n + 1) * longest) by (nonlinear_arith)
        requires
            s <= n,
    ;
}

/// Under the cap that is in use, each edge of an image that exceeds it comes out less than two pixels
/// from its exact proportion.
pub proof fn lemma_cap_in_use_keeps_proportions(w: u32, h: u32)
    requires
        w > MAX_IMAGE_EDGE || h > MAX_IMAGE_EDGE,
    ensures
        ({
            let longest = if w > h {
                w
            } else {
                h
            };
            let (nw, nh) = capped_size(w, h, MAX_IMAGE_EDGE);
            &&& -2 * longest < nw * longest - w * MAX_IMAGE_EDGE < 2 * longest
            &&& -2 * longest < nh * longest - h * MAX_IMAGE_EDGE < 2 * longest
        }),
{
    lemma_cap_keeps_proportions(w, h, MAX_IMAGE_EDGE);
    let longest = if w > h {
        w
    } else {
        h
    };
    let (nw, nh) = capped_size(w, h, MAX_IMAGE_EDGE);
    lemma_two_pixels(nw, longest, w);
    lemma_two_pixels(nh, longest, h);
}

/// A proportion that is kept but for one part in two to the 21st is kept to less than two pixels.
proof fn lemma_two_pixels(n: u32, longest: u32, edge: u32)
    requires
        edge <= longest,
        longest > 0,
        n == 1 || n * longest * 0x20_0000 <= edge * MAX_IMAGE_EDGE * 0x20_0001,
        (n + 1) * longest * 0x20_0000 > edge * MAX_IMAGE_EDGE * 0x1f_ffff,
    ensures
        -2 * longest < n * longest - edge * MAX_IMAGE_EDGE < 2 * longest,
{
    let (a, b, m) = (n * longest, edge * MAX_IMAGE_EDGE, longest as int);
    assert((n + 1) * longest == a + m) by (nonlinear_arith)
        requires
            a == n * longest,
            m == longest,
    ;
    assert(n == 1 ==> a == m) by (nonlinear_arith)
        requires
            a == n * longest,
            m == longest,
    ;
    assert(b <= 512 * m);
}

/// Turning an image turns its capped size.
pub proof fn lemma_cap_turns(w: u32, h: u32, max_edge: u32)
    ensures
        capped_size(h, w, max_edge) == (
            capped_size(w, h, max_edge).1,
            capped_size(w, h, max_edge).0,
        ),
{
}

/// The longer of two edges does not come out shorter than the other.
pub proof fn lemma_cap_keeps_orientation(w: u32, h: u32, max_edge: u32)
    requires
        w <= h,
    ensures
        capped_size(w, h, max_edge).0 <= capped_size(w, h, max_edge).1,
{
    if h > max_edge {
        lemma_scaled_monotone(w as nat, h as nat, max_edge as nat, h as nat);
    }
}

/// The size of an image that exceeds the cap, in single precision: the cap over the longer edge is
/// rounded, each edge times that is rounded, and what lies behind the point is cut off.
pub proof fn lemma_cap_in_single_precision(w: u32, h: u32, max_edge: u32)
    requires
        0 < max_edge < 0x80_0000,
        w > max_edge || h > max_edge,
    ensures
        ({
            let longest = if w > h {
                w
            } else {
                h
            };
            let factor = rounded(max_edge as nat, whole(longest as nat));
            let pw = rounded(whole(w as nat) * factor.0, factor.1);
            let ph = rounded(whole(h as nat) * factor.0, factor.1);
            let (nw, nh) = capped_size(w, h, max_edge);
            &&& w > 0 ==> nw == if pw.0 < pw.1 {
                1
            } else {
                pw.0 / pw.1
            }
            &&& h > 0 ==> nh == if ph.0 < ph.1 {
                1
            } else {
                ph.0 / ph.1
            }
        }),
{
    let longest = if w > h {
        w
    } else {
        h
    };
    lemma_scaled_bound(w as nat, max_edge as nat, longest as nat);
    lemma_scaled_bound(h as nat, max_edge as nat, longest as nat);
    if w > 0 {
        lemma_scaled_floor(w as nat, max_edge as nat, longest as nat);
    }
    if h > 0 {
        lemma_scaled_floor(h as nat, max_edge as nat, longest as nat);
    }
}

/// The size that an image of the given size has after the cap.
pub fn capped_dimensions(w: u32, h: u32, max_edge: u32) -> (res: (u32, u32))
    ensures
        res == capped_size(w, h, max_edge),
{
    let longest = if w >= h {
        w
    } else {
        h
    };
    if longest <= max_edge {
        return (w, h);
    }
    let new_w = scale(w, max_edge, longest);
    let new_h = scale(h, max_edge, longest);
    (
        if new_w > 1 {
            new_w
        } else {
            1
        },
        if new_h > 1 {
            new_h
        } else {
            1
        },
    )
}

/// The image can be brought under the cap.
pub open spec fn cap_fits(w: u32, h: u32, max_edge: u32) -> bool {
    longer(w, h) > max_edge ==> resample_fits(
        w,
        h,
        capped_size(w, h, max_edge).0,
        capped_size(w, h, max_edge).1,
    )
}

/// Where memory is addressed by 64 bits, an image of any size can be brought under the cap that is
/// in use.
pub proof fn lemma_cap_fits(w: u32, h: u32)
    requires
        isize::MAX >= 0x2000_0000_0000,
    ensures
        cap_fits(w, h, MAX_IMAGE_EDGE),
{
    lemma_capped_size(w, h, MAX_IMAGE_EDGE);
    let (nw, nh) = capped_size(w, h, MAX_IMAGE_EDGE);
    assert(w * nh * 16 <= 0x1_0000_0000 * 512 * 16) by (nonlinear_arith)
        requires
            w <= 0xffff_ffff,
            nh <= 512,
    ;
    assert(nw * nh * 16 <= 512 * 512 * 16) by (nonlinear_arith)
        requires
            nw <= 512,
            nh <= 512,
    ;
}

/// An image can be brought under any cap that it meets already. It can be brought under another where
/// no edge is longer than two to the 20th and the memory for the filter can be addressed.
pub proof fn lemma_cap_can_be_reached(w: u32, h: u32, max_edge: u32)
    requires
        w <= max_edge && h <= max_edge || {
            &&& 0 < max_edge < 0x80_0000
            &&& w <= 0x10_0000
            &&& h <= 0x10_0000
            &&& w * max_edge * 16 <= isize::MAX
            &&& max_edge * max_edge * 16 <= isize::MAX
        },
    ensures
        cap_fits(w, h, max_edge),
{
    if w > max_edge || h > max_edge {
        lemma_capped_size(w, h, max_edge);
        let (nw, nh) = capped_size(w, h, max_edge);
        assert(w * nh * 16 <= w * max_edge * 16 && nw * nh * 16 <= max_edge * max_edge * 16)
            by (nonlinear_arith)
            requires
                nw <= max_edge,
                nh <= max_edge,
        ;
    }
}

/// Whether an image of the given size can be brought under the cap.
pub fn can_cap(w: u32, h: u32, max_edge: u32) -> (res: bool)
    ensures
        res == cap_fits(w, h, max_edge),
{
    let longest = if w >= h {
        w
    } else {
        h
    };
    if longest <= max_edge {
        return true;
    }
    let (nw, nh) = capped_dimensions(w, h, max_edge);
    assert(w * nh <= 0xffff_ffff * 0xffff_ffff && nw * nh <= 0xffff_ffff * 0xffff_ffff)
        by (nonlinear_arith)
        requires
            w <= 0xffff_ffff,
            nw <= 0xffff_ffff,
            nh <= 0xffff_ffff,
    ;
    let tall = (w as u128) * (nh as u128) * 16;
    let small = (nw as u128) * (nh as u128) * 16;
    let limit = isize::MAX as u128;
    let sharp = w == 0 || h == 0 || (w <= 0x10_0000 || nw <= 0x1_0000) && (h <= 0x10_0000 || nh
        <= 0x1_0000);
    tall <= limit && small <= limit && sharp
}

/// The channels of an image and the type of their samples, which the cap does not change.
pub fn channels(img: &DynamicImage) -> (res: image::ColorType)
    ensures
        res == image_color(*img),
{
    color(img)
}

/// An image that was brought under the cap: itself where no edge exceeds the cap, and otherwise a
/// scaled version of it with the same channels and both edges scaled alike.
pub open spec fn is_capped(res: DynamicImage, img: DynamicImage, max_edge: u32) -> bool {
    &&& longer(image_width(img), image_height(img)) <= max_edge ==> res == img
    &&& longer(image_width(img), image_height(img)) > max_edge ==> resamples_to(
        img,
        image_width(res),
        image_height(res),
        res,
    )
    &&& (image_width(res), image_height(res)) == capped_size(
        image_width(img),
        image_height(img),
        max_edge,
    )
    &&& image_color(res) == image_color(img)
}

/// Scales an image down so that no edge exceeds `max_edge`. An image that does not exceed it comes
/// back as it is.
pub fn resize_max_edge(img: &DynamicImage, max_edge: u32) -> (res: DynamicImage)
    requires
        cap_fits(image_width(*img), image_height(*img), max_edge),
    ensures
        is_capped(res, *img, max_edge),
{
    let (w, h) = (width(img), height(img));
    let longest = if w >= h {
        w
    } else {
        h
    };
    if longest <= max_edge {
        return copy(img);
    }
    let (new_w, new_h) = capped_dimensions(w, h, max_edge);
    resample(img, new_w, new_h)
}

/// The images of a sequence can be brought under the cap.
pub open spec fn images_fit(seq: Sequence) -> bool {
    seq.images matches Some(images) ==> forall|i: int|
        0 <= i < images@.len() ==> cap_fits(
            image_width(#[trigger] images@[i]),
            image_height(images@[i]),
            MAX_IMAGE_EDGE,
        )
}

/// The images of a sequence, each brought under the cap, in order. A sequence that has kept no images
/// gives none.
pub open spec fn are_capped(res: Seq<DynamicImage>, seq: Sequence) -> bool {
    match seq.images {
        Some(images) => {
            &&& res.len() == images@.len()
            &&& forall|i: int|
                0 <= i < images@.len() ==> is_capped(#[trigger] res[i], images@[i], MAX_IMAGE_EDGE)
        },
        None => res.len() == 0,
    }
}

/// The images of a sequence as they go to the vision tower.
pub fn images_for_vision(seq: &Sequence) -> (res: Vec<DynamicImage>)
    requires
        images_fit(*seq),
    ensures
        are_capped(res@, *seq),
{
    let mut res: Vec<DynamicImage> = Vec::new();
    if let Some(images) = &seq.images {
        for i in 0..images.len()
            invariant
                forall|i: int|
                    0 <= i < images@.len() ==> cap_fits(
                        image_width(#[trigger] images@[i]),
                        image_height(images@[i]),
                        MAX_IMAGE_EDGE,
                    ),
                res@.len() == i,
                forall|k: int|
                    0 <= k < i ==> is_capped(#[trigger] res@[k], images@[k], MAX_IMAGE_EDGE),
        {
            res.push(resize_max_edge(&images[i], MAX_IMAGE_EDGE));
        }
    }
    res
}

/// What the cap makes of an image: the image itself where it fits, and otherwise a scaled version of
/// it in the same channels, with no edge over the cap and each less than two pixels from its exact
/// proportion.
pub proof fn lemma_capped_image(res: DynamicImage, img: DynamicImage)
    requires
        is_capped(res, img, MAX_IMAGE_EDGE),
    ensures
        ({
            let (w, h) = (image_width(img), image_height(img));
            let (nw, nh) = (image_width(res), image_height(res));
            let longest = if w > h {
                w
            } else {
                h
            };
            &&& w <= MAX_IMAGE_EDGE && h <= MAX_IMAGE_EDGE ==> res == img
            &&& w > MAX_IMAGE_EDGE || h > MAX_IMAGE_EDGE ==> {
                &&& resamples_to(img, nw, nh, res)
                &&& -2 * longest < nw * longest - w * MAX_IMAGE_EDGE < 2 * longest
                &&& -2 * longest < nh * longest - h * MAX_IMAGE_EDGE < 2 * longest
            }
            &&& nw <= MAX_IMAGE_EDGE
            &&& nh <= MAX_IMAGE_EDGE
            &&& image_color(res) == image_color(img)
        }),
{
    let (w, h) = (image_width(img), image_height(img));
    lemma_capped_size(w, h, MAX_IMAGE_EDGE);
    if w > MAX_IMAGE_EDGE || h > MAX_IMAGE_EDGE {
        lemma_cap_in_use_keeps_proportions(w, h);
    }
}

/// Each image of a sequence goes to the vision tower, in its place and under the cap, and nothing
/// else does.
pub proof fn lemma_images_keep_their_places(res: Seq<DynamicImage>, seq: Sequence, i: int)
    requires
        are_capped(res, seq),
    ensures
        seq.images is None ==> res.len() == 0,
        seq.images matches Some(images) ==> res.len() == images@.len(),
        seq.images matches Some(images) ==> (0 <= i < images@.len() ==> is_capped(
            res[i],
            images@[i],
            MAX_IMAGE_EDGE,
        )),
{
}

/// Where memory is addressed by 64 bits, the images of every sequence can be brought under the cap.
pub proof fn lemma_images_fit(seq: Sequence)
    requires
        isize::MAX >= 0x2000_0000_0000,
    ensures
        images_fit(seq),
{
    if seq.images is Some {
        let images = seq.images->0;
        assert forall|i: int| 0 <= i < images@.len() implies cap_fits(
            image_width(#[trigger] images@[i]),
            image_height(images@[i]),
            MAX_IMAGE_EDGE,
        ) by {
            lemma_cap_fits(image_width(images@[i]), image_height(images@[i]));
        }
    }
}

/// A sequence that holds, in the place of the images of `seq`, those that `seq` hands to the vision
/// tower.
pub open spec fn holds_capped(capped: Sequence, seq: Sequence, handed: Seq<DynamicImage>) -> bool {
    match seq.images {
        Some(_) => capped.images is Some && capped.images->0@ == handed,
        None => capped.images is None,
    }
}

/// Images that were brought under the cap once go to the vision tower as they are.
pub proof fn lemma_capped_images_are_kept(
    seq: Sequence,
    handed: Seq<DynamicImage>,
    capped: Sequence,
    again: Seq<DynamicImage>,
)
    requires
        are_capped(handed, seq),
        holds_capped(capped, seq, handed),
        are_capped(again, capped),
    ensures
        again == handed,
{
    if seq.images is Some {
        let (images, kept) = (seq.images->0, capped.images->0);
        assert forall|i: int| 0 <= i < handed.len() implies again[i] == #[trigger] handed[i] by {
            assert(is_capped(handed[i], images@[i], MAX_IMAGE_EDGE));
            assert(is_capped(again[i], kept@[i], MAX_IMAGE_EDGE));
            lemma_capped_size(image_width(images@[i]), image_height(images@[i]), MAX_IMAGE_EDGE);
        }
    }
    assert(again =~= handed);
}

/// As [`images_for_vision`], or nothing where an image cannot be brought under the cap.
pub fn images_for_vision_checked(seq: &Sequence) -> (res: Option<Vec<DynamicImage>>)
    ensures
        match res {
            Some(r) => images_fit(*seq) && are_capped(r@, *seq),
            None => !images_fit(*seq),
        },
{
    if let Some(images) = &seq.images {
        for i in 0..images.len()
            invariant
                seq.images == Some(*images),
                forall|k: int|
                    0 <= k < i ==> cap_fits(
                        image_width(#[trigger] images@[k]),
                        image_height(images@[k]),
                        MAX_IMAGE_EDGE,
                    ),
        {
            if !can_cap(width(&images[i]), height(&images[i]), MAX_IMAGE_EDGE) {
                assert(!images_fit(*seq)) by {
                    let kept = seq.images->0;
                    assert(!cap_fits(
                        image_width(kept@[i as int]),
                        image_height(kept@[i as int]),
                        MAX_IMAGE_EDGE,
                    ));
                }
                return None;
            }
        }
    }
    Some(images_for_vision(seq))
}

} // verus!
