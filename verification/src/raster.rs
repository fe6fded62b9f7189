//! Images as the simulator sees them: a width, a height and one RGB triple per pixel.
use crate::palette::Color;
use vstd::prelude::*;

verus! {

/// `image::DynamicImage`: an image as a decoder hands it over. Nothing inside it is seen
/// here; what the library reads of it goes by the names below.
#[verifier::external_type_specification]
#[verifier::external_body]
pub struct ExDynamicImage(image::DynamicImage);

/// What `image::DynamicImage::width` gives: the number of pixel columns of an image.
pub uninterp spec fn image_width(img: image::DynamicImage) -> u32;

/// What `image::DynamicImage::height` gives: the number of pixel rows of an image.
pub uninterp spec fn image_height(img: image::DynamicImage) -> u32;

/// What an image holds: the red, green and blue channel that `get_pixel` gives for each
/// pixel, by column and row.
pub uninterp spec fn image_pixels(img: image::DynamicImage) -> Map<(int, int), (u8, u8, u8)>;

/// Whether an image is of the variant `ImageRgb8`: it stores its pixels as 8-bit RGB and
/// so keeps every colour that is written to it.
pub uninterp spec fn image_is_rgb8(img: image::DynamicImage) -> bool;

/// Whether an image is of one of the variants `ImageRgb32F` and `ImageRgba32F`, which
/// store their samples as floating-point numbers.
pub uninterp spec fn image_has_float_samples(img: image::DynamicImage) -> bool;

/// Whether the pixels of an image can be read: every image can but those with
/// floating-point samples, where a sample that is no number cannot be turned into a byte.
pub open spec fn readable(img: image::DynamicImage) -> bool {
    !image_has_float_samples(img)
}

/// Whether a column and a row name a pixel of an image.
pub open spec fn in_image(img: image::DynamicImage, x: int, y: int) -> bool {
    0 <= x < image_width(img) && 0 <= y < image_height(img)
}

/// The colour of the pixel of an image in a column and a row.
pub open spec fn pixel_color(img: image::DynamicImage, x: int, y: int) -> Color {
    let p = image_pixels(img)[(x, y)];
    Color { r: p.0, g: p.1, b: p.2 }
}

/// `image::DynamicImage::width`.
#[verifier::external_body]
pub(crate) fn image_get_width(img: &image::DynamicImage) -> (w: u32)
    ensures
        w == image_width(*img),
{
    img.width()
}

/// `image::DynamicImage::height`.
#[verifier::external_body]
pub(crate) fn image_get_height(img: &image::DynamicImage) -> (h: u32)
    ensures
        h == image_height(*img),
{
    img.height()
}

/// The variant of an `image::DynamicImage`, as far as it says whether the samples are
/// floating-point numbers.
#[verifier::external_body]
pub(crate) fn image_is_float(img: &image::DynamicImage) -> (float: bool)
    ensures
        float == image_has_float_samples(*img),
{
    match img {
        image::DynamicImage::ImageRgb32F(_) => true,
        image::DynamicImage::ImageRgba32F(_) => true,
        _ => false,
    }
}

/// `image::GenericImageView::get_pixel` of `image::DynamicImage`: the first three channels
/// of the pixel. The call panics outside the image, and on an image with floating-point
/// samples where a sample is no number; `requires` leaves both out.
#[verifier::external_body]
pub(crate) fn image_get_pixel(img: &image::DynamicImage, x: u32, y: u32) -> (color: Color)
    requires
        in_image(*img, x as int, y as int),
        !image_has_float_samples(*img),
    ensures
        color.triple() == image_pixels(*img)[(x as int, y as int)],
{
    let p = image::GenericImageView::get_pixel(img, x, y);
    Color { r: p.0[0], g: p.0[1], b: p.0[2] }
}

/// `image::DynamicImage::new_rgb8`: an 8-bit RGB image of the given size with every channel
/// of every pixel zero. The call panics where the buffer would be longer than a vector
/// can be, which `requires` leaves out.
#[verifier::external_body]
pub(crate) fn image_new_rgb8(width: u32, height: u32) -> (img: image::DynamicImage)
    requires
        3 * width * height <= isize::MAX,
    ensures
        image_width(img) == width,
        image_height(img) == height,
        image_is_rgb8(img),
        forall|x: int, y: int| #[trigger]
            in_image(img, x, y) ==> image_pixels(img)[(x, y)] == (0u8, 0u8, 0u8),
{
    image::DynamicImage::new_rgb8(width, height)
}

/// `image::GenericImage::put_pixel` of `image::DynamicImage`, on an 8-bit RGB image: the
/// pixel takes the colour, every other pixel and the size stay. The call panics outside
/// the image, which `requires` leaves out.
#[verifier::external_body]
pub(crate) fn image_put_pixel(img: &mut image::DynamicImage, x: u32, y: u32, color: Color)
    requires
        in_image(*old(img), x as int, y as int),
        image_is_rgb8(*old(img)),
    ensures
        image_width(*final(img)) == image_width(*old(img)),
        image_height(*final(img)) == image_height(*old(img)),
        image_is_rgb8(*final(img)),
        forall|u: int, v: int| #[trigger]
            in_image(*old(img), u, v) ==> image_pixels(*final(img))[(u, v)] == if u == x && v
                == y {
                color.triple()
            } else {
                image_pixels(*old(img))[(u, v)]
            },
{
    image::GenericImage::put_pixel(img, x, y, image::Rgba([color.r, color.g, color.b, 255]));
}

/// Whether an image stores its samples as floating-point numbers, so that its pixels
/// cannot be read here.
pub fn has_float_samples(img: &image::DynamicImage) -> (float: bool)
    ensures
        float == image_has_float_samples(*img),
        float == !readable(*img),
{
    image_is_float(img)
}

/// The width and the height of an image.
pub fn dimensions(img: &image::DynamicImage) -> (size: (u32, u32))
    ensures
        size.0 == image_width(*img),
        size.1 == image_height(*img),
{
    (image_get_width(img), image_get_height(img))
}

} // verus!
