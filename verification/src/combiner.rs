//! Interleaving the pixels of two images of four bytes a pixel.

use vstd::prelude::*;

verus! {

/// Why the data of an image was not accepted.
#[derive(Clone, Copy, Debug, PartialEq, Eq, Structural)]
pub enum ImageDataErrors {
    /// There are more bytes than the image has room for.
    BufferTooSmall,
}

/// An image under construction: its size, its bytes, its name, and the
/// number of bytes that it has room for.
#[derive(Debug)]
pub struct FloatingImage {
    pub width: u32,
    pub height: u32,
    pub data: Vec<u8>,
    pub name: String,
    pub capacity: usize,
}

/// The pixel that byte `k` of an image belongs to.
pub open spec fn pixel_of(k: int) -> int {
    k / 4
}

/// The bytes of two images interleaved pixel by pixel: the pixels of even
/// number are those of `v1`, the others those of `v2`. The result is as
/// long as `v1`.
pub open spec fn alternated(v1: Seq<u8>, v2: Seq<u8>) -> Seq<u8> {
    Seq::new(
        v1.len(),
        |k: int|
            if pixel_of(k) % 2 == 0 {
                v1[k]
            } else {
                v2[k]
            },
    )
}

/// Every byte of a pixel of odd number below `len` exists in `v2`.
pub open spec fn covers_odd_pixels(v2: Seq<u8>, len: int) -> bool {
    forall|k: int| 0 <= k < len && pixel_of(k) % 2 == 1 ==> k < v2.len()
}

impl FloatingImage {
    /// An image of `w` by `h` pixels, named `name`, without data yet, and
    /// with room for four bytes a pixel.
    pub fn new(w: u32, h: u32, name: String) -> (image: FloatingImage)
        requires
            h * w * 4 <= u32::MAX,
        ensures
            image.width == w,
            image.height == h,
            image.name == name,
            image.data@.len() == 0,
            image.capacity == h * w * 4,
    {
        assert(h * w <= u32::MAX) by (nonlinear_arith)
            requires
                h * w * 4 <= u32::MAX,
        ;
        let buffer_capacity: u32 = h * w * 4;
        let buffer: Vec<u8> = Vec::with_capacity(buffer_capacity as usize);
        FloatingImage {
            width: w,
            height: h,
            data: buffer,
            name,
            capacity: buffer_capacity as usize,
        }
    }

    /// Gives the image its data, unless there are more bytes than the image
    /// has room for.
    pub fn set_data(&mut self, data: Vec<u8>) -> (r: Result<(), ImageDataErrors>)
        ensures
            final(self).width == old(self).width,
            final(self).height == old(self).height,
            final(self).name == old(self).name,
            final(self).capacity == old(self).capacity,
            data@.len() > old(self).capacity ==> r == Err::<(), ImageDataErrors>(
                ImageDataErrors::BufferTooSmall,
            ) && final(self).data == old(self).data,
            data@.len() <= old(self).capacity ==> r.is_ok() && final(self).data == data,
    {
        if data.len() > self.capacity {
            return Err(ImageDataErrors::BufferTooSmall);
        }
        self.data = data;
        Ok(())
    }
}

/// The one of two sizes that has fewer pixels; the second where both have
/// as many.
pub fn get_smallest_dimension(dim1: (u32, u32), dim2: (u32, u32)) -> (smallest: (u32, u32))
    ensures
        smallest == if dim1.0 * dim1.1 < dim2.0 * dim2.1 {
            dim1
        } else {
            dim2
        },
{
    assert(dim1.0 * dim1.1 <= 0xffff_ffff * 0xffff_ffff) by (nonlinear_arith)
        requires
            0 <= dim1.0 <= 0xffff_ffff,
            0 <= dim1.1 <= 0xffff_ffff,
    ;
    assert(dim2.0 * dim2.1 <= 0xffff_ffff * 0xffff_ffff) by (nonlinear_arith)
        requires
            0 <= dim2.0 <= 0xffff_ffff,
            0 <= dim2.1 <= 0xffff_ffff,
    ;
    let pixel1: u64 = dim1.0 as u64 * dim1.1 as u64;
    let pixel2: u64 = dim2.0 as u64 * dim2.1 as u64;
    if pixel1 < pixel2 {
        dim1
    } else {
        dim2
    }
}

/// The size that two images are brought to, and which of them is resized.
#[derive(Clone, Copy, Debug, PartialEq, Eq, Structural)]
pub struct Standardized {
    /// The width of both images afterwards.
    pub width: u32,
    /// The height of both images afterwards.
    pub height: u32,
    /// The first image is the one to resize; otherwise the second is.
    pub resize_first: bool,
}

/// Decides how two images of sizes `dim1` and `dim2` come to have one size:
/// the smallest of the two sizes is the size of both afterwards, and the
/// first image is resized to it where the second has that size already,
/// otherwise the second is. The image that is not resized has that size.
pub fn standardize_size(dim1: (u32, u32), dim2: (u32, u32)) -> (plan: Standardized)
    ensures
        (plan.width, plan.height) == if dim1.0 * dim1.1 < dim2.0 * dim2.1 {
            dim1
        } else {
            dim2
        },
        plan.resize_first == (dim2 == (plan.width, plan.height)),
        !plan.resize_first ==> dim1 == (plan.width, plan.height),
{
    let size = get_smallest_dimension(dim1, dim2);
    Standardized {
        width: size.0,
        height: size.1,
        resize_first: dim2.0 == size.0 && dim2.1 == size.1,
    }
}

/// The bytes of `v` from position `start` to position `end`, both included;
/// none where `start` lies behind `end`.
pub fn set_rgba(v: &Vec<u8>, start: usize, end: usize) -> (rgba: Vec<u8>)
    requires
        start <= end ==> end < v@.len(),
    ensures
        rgba@ == if start <= end {
            v@.subrange(start as int, end + 1)
        } else {
            Seq::<u8>::empty()
        },
{
    let mut rgba: Vec<u8> = Vec::new();
    if start > end {
        return rgba;
    }
    let mut i: usize = start;
    while i <= end
        invariant
            start <= i <= end + 1,
            end < v.len(),
            rgba@ == v@.subrange(start as int, i as int),
        decreases end + 1 - i,
    {
        rgba.push(v[i]);
        assert(rgba@ =~= v@.subrange(start as int, i + 1));
        i += 1;
    }
    rgba
}

/// Interleaves two images pixel by pixel: the pixels of even number are
/// taken from `v1`, the others from `v2`.
pub fn alternate_pixels(v1: Vec<u8>, v2: Vec<u8>) -> (combined: Vec<u8>)
    requires
        v1@.len() % 4 == 0,
        covers_odd_pixels(v2@, v1@.len() as int),
    ensures
        combined@ == alternated(v1@, v2@),
{
    let n = v1.len();
    let mut combined: Vec<u8> = Vec::new();
    let mut i: usize = 0;
    while i < n
        invariant
            n == v1@.len(),
            n % 4 == 0,
            i % 4 == 0,
            i <= n,
            covers_odd_pixels(v2@, v1@.len() as int),
            combined@ == alternated(v1@, v2@).take(i as int),
        decreases n - i,
    {
        let rgba = if i % 8 == 0 {
            set_rgba(&v1, i, i + 3)
        } else {
            proof {
                assert(pixel_of(i + 3) % 2 == 1);
            }
            set_rgba(&v2, i, i + 3)
        };
        let mut j: usize = 0;
        while j < 4
            invariant
                j <= 4,
                n == v1@.len(),
                i + 4 <= n,
                i % 4 == 0,
                rgba@.len() == 4,
                forall|k: int| 0 <= k < 4 ==> rgba@[k] == alternated(v1@, v2@)[i + k],
                combined@ == alternated(v1@, v2@).take(i + j),
            decreases 4 - j,
        {
            combined.push(rgba[j]);
            assert(combined@ =~= alternated(v1@, v2@).take(i + j + 1));
            j += 1;
        }
        i += 4;
    }
    assert(combined@ =~= alternated(v1@, v2@));
    combined
}

/// A decoded image of the `image` crate, of any of its pixel formats.
#[verifier::external_type_specification]
#[verifier::external_body]
pub struct ExDynamicImage(image::DynamicImage);

/// The pixels of an image as bytes: red, green, blue and opacity of each
/// pixel, row by row. It is what `image::DynamicImage::to_rgba8` makes of
/// the image, which depends on the image alone.
pub uninterp spec fn image_rgba(im: image::DynamicImage) -> Seq<u8>;

/// Width and height of an image, in pixels.
pub uninterp spec fn image_size(im: image::DynamicImage) -> (u32, u32);

/// Number of bytes of an image of `size` at four bytes a pixel.
pub open spec fn rgba_len(size: (u32, u32)) -> int {
    4 * size.0 * size.1
}

/// The images can be combined: the bytes of each fit a list, and every
/// pixel of odd number of the first exists in the second.
pub open spec fn combinable(first: (u32, u32), second: (u32, u32)) -> bool {
    &&& rgba_len(first) <= isize::MAX
    &&& rgba_len(second) <= isize::MAX
    &&& forall|k: int| 0 <= k < rgba_len(first) && pixel_of(k) % 2 == 1 ==> k < rgba_len(second)
}

/// Width and height of an image.
///
/// Trusted, not proved: the body calls `image::GenericImageView::dimensions`
/// on the image, and the contract gives what it returns the name
/// `image_size`.
#[verifier::external_body]
fn dimensions_of(im: &image::DynamicImage) -> (size: (u32, u32))
    ensures
        size == image_size(*im),
{
    image::GenericImageView::dimensions(im)
}

/// The pixels of an image as bytes, four a pixel.
///
/// Trusted, not proved: the body calls `image::DynamicImage::to_rgba8` and
/// then `into_vec` on the buffer that it gives. The contract names the
/// bytes `image_rgba` and claims that there are four for each pixel of the
/// image: the source makes a buffer of four channels of the width and
/// height of the image, and panics where their number is more than a list
/// can hold, which `requires` leaves out.
#[verifier::external_body]
fn rgba_bytes(im: &image::DynamicImage) -> (bytes: Vec<u8>)
    requires
        rgba_len(image_size(*im)) <= isize::MAX,
    ensures
        bytes@ == image_rgba(*im),
        bytes@.len() == rgba_len(image_size(*im)),
{
    im.to_rgba8().into_vec()
}

/// Combines two images into the bytes of one: the pixels of even number are
/// those of the first image, the others those of the second.
pub fn combine_images(im1: image::DynamicImage, im2: image::DynamicImage) -> (combined: Vec<u8>)
    requires
        combinable(image_size(im1), image_size(im2)),
    ensures
        combined@ == alternated(image_rgba(im1), image_rgba(im2)),
{
    let vec1 = rgba_bytes(&im1);
    let vec2 = rgba_bytes(&im2);
    proof {
        let size = image_size(im1);
        let pixels = size.0 * size.1;
        assert(rgba_len(size) == 4 * pixels) by (nonlinear_arith)
            requires
                rgba_len(size) == 4 * size.0 * size.1,
                pixels == size.0 * size.1,
        ;
    }
    alternate_pixels(vec1, vec2)
}

/// Tells whether images of these sizes can be combined.
pub fn can_combine(first: (u32, u32), second: (u32, u32)) -> (b: bool)
    ensures
        b == combinable(first, second),
{
    assert(first.0 * first.1 <= 0xffff_ffff * 0xffff_ffff) by (nonlinear_arith)
        requires
            0 <= first.0 <= 0xffff_ffff,
            0 <= first.1 <= 0xffff_ffff,
    ;
    assert(second.0 * second.1 <= 0xffff_ffff * 0xffff_ffff) by (nonlinear_arith)
        requires
            0 <= second.0 <= 0xffff_ffff,
            0 <= second.1 <= 0xffff_ffff,
    ;
    let pixels1: u128 = first.0 as u128 * first.1 as u128;
    let pixels2: u128 = second.0 as u128 * second.1 as u128;
    assert(rgba_len(first) == 4 * pixels1 && rgba_len(second) == 4 * pixels2) by (nonlinear_arith)
        requires
            pixels1 == first.0 * first.1,
            pixels2 == second.0 * second.1,
            rgba_len(first) == 4 * first.0 * first.1,
            rgba_len(second) == 4 * second.0 * second.1,
    ;
    if 4 * pixels1 > isize::MAX as u128 || 4 * pixels2 > isize::MAX as u128 {
        return false;
    }
    let odd_pixels_end: u128 = if pixels1 % 2 == 0 {
        pixels1
    } else {
        pixels1 - 1
    };
    let covered = odd_pixels_end <= pixels2;
    proof {
        if covered {
            assert forall|k: int|
                0 <= k < rgba_len(first) && pixel_of(k) % 2 == 1 implies k < rgba_len(second) by {
                assert(pixel_of(k) < pixels1);
                assert(pixel_of(k) < odd_pixels_end);
            }
        } else {
            let k = 4 * (odd_pixels_end - 1) as int;
            assert(odd_pixels_end >= 2);
            assert(pixel_of(k) == odd_pixels_end - 1);
            assert(pixel_of(k) % 2 == 1);
            assert(0 <= k < rgba_len(first));
            assert(k >= rgba_len(second));
        }
    }
    covered
}

/// Combines two images into the bytes of one where they can be combined,
/// and gives nothing where they cannot.
pub fn try_combine_images(im1: image::DynamicImage, im2: image::DynamicImage) -> (combined: Option<
    Vec<u8>,
>)
    ensures
        combined.is_some() == combinable(image_size(im1), image_size(im2)),
        combined matches Some(bytes) ==> bytes@ == alternated(image_rgba(im1), image_rgba(im2)),
{
    if can_combine(dimensions_of(&im1), dimensions_of(&im2)) {
        Some(combine_images(im1, im2))
    } else {
        None
    }
}

} // verus!
