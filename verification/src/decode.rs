//! Decoding of a JPEG file's bytes into an image of RGB pixels.

use vstd::prelude::*;
use zune_jpeg::JpegDecoder;
use zune_jpeg::errors::DecodeErrors;
use zune_jpeg::zune_core::bytestream::ZCursor;
use crate::palette::Rgb;

verus! {

/// The decoder's error.
#[verifier::external_type_specification]
#[verifier::external_body]
pub struct ExDecodeErrors(DecodeErrors);

/// Why an image could not be read.
#[derive(Debug)]
pub enum ImageError {
    /// The bytes are not a JPEG image that the decoder accepts.
    Decode,
}

/// A decoded image: its pixels row by row, top to bottom, its size, and the
/// number of colour components that the file stores (3 for colour, 1 for
/// greyscale; the pixels are RGB either way).
pub struct Image {
    pub pixels: Vec<Rgb>,
    pub width: usize,
    pub height: usize,
    pub components: u8,
}

/// What the JPEG decoder makes of a file's bytes: the interleaved RGB bytes,
/// the width, the height and the number of components stored in the file, or
/// nothing where it refuses them.
pub uninterp spec fn jpeg_decoded(data: Seq<u8>) -> Option<(Seq<u8>, u16, u16, u8)>;

/// Decodes JPEG bytes held in memory with `zune_jpeg::JpegDecoder::new`,
/// `decode` and `info` (default options: RGB output). The contract names the
/// result, and states what the decoder's source shows of a success: the
/// output holds three bytes per pixel, and width and height are at least 1 and
/// at most 16384, the default limit. `info` is set once `decode` has
/// succeeded. Nothing is stated of which bytes the decoder refuses.
#[verifier::external_body]
fn decode_jpeg(data: &[u8]) -> (res: Result<(Vec<u8>, u16, u16, u8), DecodeErrors>)
    ensures
        res is Ok <==> jpeg_decoded(data@) is Some,
        res matches Ok((pixels, width, height, components)) ==> {
            &&& jpeg_decoded(data@) == Some((pixels@, width, height, components))
            &&& pixels@.len() == width * height * 3
            &&& 0 < width <= 16384
            &&& 0 < height <= 16384
        },
{
    let mut decoder = JpegDecoder::new(ZCursor::new(data));
    let pixels = decoder.decode()?;
    let info = decoder.info().unwrap();
    Ok((pixels, info.width, info.height, info.components))
}

/// The pixels that interleaved RGB bytes hold: one per complete group of three
/// bytes, in order; bytes past the last complete group are left out.
pub open spec fn spec_triplets(bytes: Seq<u8>) -> Seq<Rgb> {
    Seq::new(bytes.len() / 3, |i: int| (bytes[3 * i], bytes[3 * i + 1], bytes[3 * i + 2]))
}

/// Splits interleaved RGB bytes into pixels.
pub fn bytes_to_triplets(bytes: &[u8]) -> (triplets: Vec<Rgb>)
    ensures
        triplets@ == spec_triplets(bytes@),
{
    let n = bytes.len() / 3;
    let mut triplets: Vec<Rgb> = Vec::new();
    let mut i: usize = 0;
    while i < n
        invariant
            n == bytes@.len() / 3,
            bytes@.len() == bytes.len(),
            i <= n,
            triplets@ =~= spec_triplets(bytes@).take(i as int),
        decreases n - i,
    {
        assert(3 * i + 2 < bytes.len()) by (nonlinear_arith)
            requires
                i < bytes.len() / 3,
        ;
        let c = 3 * i;
        triplets.push((bytes[c], bytes[c + 1], bytes[c + 2]));
        i = i + 1;
    }
    triplets
}

/// The image that the decoder's output stands for.
pub fn image_from_rgb(pixels: &[u8], width: u16, height: u16, components: u8) -> (image: Image)
    ensures
        image.pixels@ == spec_triplets(pixels@),
        image.width == width,
        image.height == height,
        image.components == components,
{
    Image { pixels: bytes_to_triplets(pixels), width: width as usize, height: height as usize, components }
}

/// Decodes the bytes of a JPEG file into an image of RGB pixels, one pixel per
/// position of the image.
pub fn decode_image(data: &[u8]) -> (res: Result<Image, ImageError>)
    ensures
        match jpeg_decoded(data@) {
            Some((pixels, width, height, components)) => res matches Ok(image) && image.pixels@ == spec_triplets(pixels)
                && image.width == width && image.height == height && image.components == components
                && image.pixels@.len() == width * height
                && image.width > 0 && image.height > 0,
            None => res matches Err(ImageError::Decode),
        },
{
    match decode_jpeg(data) {
        Ok((pixels, width, height, components)) => {
            let image = image_from_rgb(pixels.as_slice(), width, height, components);
            Ok(image)
        },
        Err(_) => Err(ImageError::Decode),
    }
}

} // verus!
