//! From the pixels of a drawing to a picture that can be sent.

use crate::layout::{HEIGHT, RENDER_HEIGHT, RENDER_WIDTH, WIDTH};
use image::ImageEncoder;
use vstd::prelude::*;

verus! {

/// How many bytes the pixels of an image take, three for each.
pub open spec fn pixel_bytes(width: u32, height: u32) -> int {
    3 * width * height
}

/// The four bytes of a number, the highest first.
pub open spec fn four_bytes(number: u32) -> Seq<u8> {
    seq![
        (number / 0x100_0000) as u8,
        (number / 0x1_0000 % 0x100) as u8,
        (number / 0x100 % 0x100) as u8,
        (number % 0x100) as u8,
    ]
}

/// The first bytes of the PNG file of an image: the signature of all PNG files, then the chunk
/// `IHDR` of 13 bytes, with the width and the height, colors of eight bits in red, green and blue,
/// and no interlacing.
pub open spec fn png_header(width: u32, height: u32) -> Seq<u8> {
    seq![137u8, 80, 78, 71, 13, 10, 26, 10] + seq![0u8, 0, 0, 13, 73, 72, 68, 82] + four_bytes(
        width,
    ) + four_bytes(height) + seq![8u8, 2, 0, 0, 0]
}

/// How the pixels of an image in another size are made from those that it has.
#[derive(Clone, Copy, Debug, PartialEq, Eq, Structural)]
pub enum ResizeFilter {
    /// The nearest pixel.
    Nearest,
    /// Linear.
    Triangle,
    /// Cubic.
    CatmullRom,
    /// Gaussian.
    Gaussian,
    /// Lanczos with a window of three.
    Lanczos3,
}

/// The filter with which a drawing is scaled down.
pub const FILTER: ResizeFilter = ResizeFilter::Lanczos3;

/// Whether an image, scaled to another size, can come out as these pixels: whether they are what
/// `image::imageops::resize` gives for it on some machine.
pub uninterp spec fn scales_to(
    pixels: Seq<u8>,
    width: u32,
    height: u32,
    new_width: u32,
    new_height: u32,
    filter: ResizeFilter,
    scaled: Seq<u8>,
) -> bool;

/// `image::RgbImage::from_raw`, and `image::imageops::resize` of what it gives: the pixels of the
/// image in another size, or nothing where there are too few. What the new pixels are is left
/// unsaid: they are computed in floating point, with the sine of the machine, so that an image can
/// come out in more than one way.
#[verifier::external_body]
fn resized(
    pixels: Vec<u8>,
    width: u32,
    height: u32,
    new_width: u32,
    new_height: u32,
    filter: ResizeFilter,
) -> (resized: Option<Vec<u8>>)
    requires
        0 < width <= 4096,
        0 < height <= 4096,
        0 < new_width <= 4096,
        0 < new_height <= 4096,
    ensures
        resized is Some <==> pixels@.len() >= pixel_bytes(width, height),
        resized is Some ==> resized->0@.len() == pixel_bytes(new_width, new_height),
        resized is Some ==> scales_to(
            pixels@,
            width,
            height,
            new_width,
            new_height,
            filter,
            resized->0@,
        ),
{
    let drawn = image::RgbImage::from_raw(width, height, pixels)?;
    let filter = match filter {
        ResizeFilter::Nearest => image::imageops::FilterType::Nearest,
        ResizeFilter::Triangle => image::imageops::FilterType::Triangle,
        ResizeFilter::CatmullRom => image::imageops::FilterType::CatmullRom,
        ResizeFilter::Gaussian => image::imageops::FilterType::Gaussian,
        ResizeFilter::Lanczos3 => image::imageops::FilterType::Lanczos3,
    };
    Some(image::imageops::resize(&drawn, new_width, new_height, filter).into_raw())
}

/// The PNG file of an image: what `image::codecs::png::PngEncoder::write_image` writes for colors of
/// eight bits.
pub uninterp spec fn png_file(pixels: Seq<u8>, width: u32, height: u32) -> Seq<u8>;

/// `image::codecs::png::PngEncoder::write_image` into memory, for colors of eight bits, with the
/// compression and the filter that the encoder has at first: filtered and compressed in integers,
/// an image gives the same file every time, which begins with the header of PNG files. The encoder
/// refuses images without pixels and chunks of two gigabytes, and memory takes all that is written,
/// so that it succeeds.
#[verifier::external_body]
fn encoded(pixels: &Vec<u8>, width: u32, height: u32) -> (file: Vec<u8>)
    requires
        0 < width <= 4096,
        0 < height <= 4096,
        pixels@.len() == pixel_bytes(width, height),
    ensures
        file@ == png_file(pixels@, width, height),
        png_header(width, height).is_prefix_of(file@),
{
    let mut file: Vec<u8> = Vec::new();
    let color = image::ExtendedColorType::Rgb8;
    image::codecs::png::PngEncoder::new(&mut file).write_image(pixels, width, height, color).unwrap();
    file
}

/// Why there is no picture of a drawing.
#[derive(Clone, Copy, Debug, PartialEq, Eq, Structural)]
pub enum PictureFault {
    /// The drawing has too few pixels.
    SizeMismatch,
}

impl PictureFault {
    /// What went wrong.
    pub fn message(self) -> (message: &'static str)
        ensures
            message@ == "render buffer size mismatch"@,
    {
        match self {
            PictureFault::SizeMismatch => "render buffer size mismatch",
        }
    }
}

/// Encode pixels in the final size as a PNG file.
pub fn encode_picture(pixels: &Vec<u8>) -> (picture: Vec<u8>)
    requires
        pixels@.len() == pixel_bytes(WIDTH, HEIGHT),
    ensures
        picture@ == png_file(pixels@, WIDTH, HEIGHT),
        png_header(WIDTH, HEIGHT).is_prefix_of(picture@),
{
    encoded(pixels, WIDTH, HEIGHT)
}

/// Whether pixels in the final size can be what a drawing is scaled down to.
pub open spec fn is_scaled_down(drawing: Seq<u8>, pixels: Seq<u8>) -> bool {
    &&& pixels.len() == pixel_bytes(WIDTH, HEIGHT)
    &&& scales_to(drawing, RENDER_WIDTH, RENDER_HEIGHT, WIDTH, HEIGHT, FILTER, pixels)
}

/// Scale the pixels of a drawing down to the final size, which makes lines look even and text
/// render cleanly, and encode them as a PNG file.
pub fn finish_picture(drawing: Vec<u8>) -> (picture: Result<Vec<u8>, PictureFault>)
    ensures
        match picture {
            Ok(file) => {
                &&& drawing@.len() >= pixel_bytes(RENDER_WIDTH, RENDER_HEIGHT)
                &&& png_header(WIDTH, HEIGHT).is_prefix_of(file@)
                &&& exists|pixels: Seq<u8>|
                    #[trigger] is_scaled_down(drawing@, pixels) && file@ == png_file(
                        pixels,
                        WIDTH,
                        HEIGHT,
                    )
            },
            Err(fault) => {
                &&& drawing@.len() < pixel_bytes(RENDER_WIDTH, RENDER_HEIGHT)
                &&& fault == PictureFault::SizeMismatch
            },
        },
{
    let ghost given = drawing@;
    match resized(drawing, RENDER_WIDTH, RENDER_HEIGHT, WIDTH, HEIGHT, FILTER) {
        Some(pixels) => {
            let picture: Vec<u8> = encode_picture(&pixels);
            proof {
                assert(is_scaled_down(given, pixels@));
            }
            Ok(picture)
        },
        None => Err(PictureFault::SizeMismatch),
    }
}

} // verus!
