//! Decoding archive entries into tiles and encoding the finished megatexture:
//! the tile contract (exact edge length, 8-bit depth, RGB or RGBA layout) and
//! the canonicalisation of RGBA data to RGB.

use vstd::prelude::*;
use vstd::arithmetic::div_mod::{
    lemma_fundamental_div_mod, lemma_fundamental_div_mod_converse_div,
    lemma_fundamental_div_mod_converse_mod,
};
use vstd::arithmetic::mul::lemma_mul_upper_bound;
use crate::tile::{stride, RgbImage, CHANNELS, TILE_EDGE};

verus! {

/// Decoding failed: the bytes are not a decodable image, or decode to a
/// format outside the tile contract, or to an image too large to hold.
#[derive(Debug, Clone, Copy, PartialEq, Eq, Structural)]
pub struct DecodeError;

/// Encoding failed in the image encoder.
#[derive(Debug, Clone, Copy, PartialEq, Eq, Structural)]
pub struct EncodeError;

/// The output metadata that the image decoder reports for these bytes, or
/// `None` when they are not a decodable image: width, height, bit depth in
/// bits, and samples per pixel. A function of the bytes alone.
pub uninterp spec fn png_header(bytes: Seq<u8>) -> Option<(u32, u32, u32, u32)>;

/// The raw pixel buffer the image decoder produces for these bytes, in the
/// layout that `png_header` reports. A function of the bytes alone.
pub uninterp spec fn png_pixels(bytes: Seq<u8>) -> Seq<u8>;

/// The image decoder can materialise the full pixel buffer for these bytes:
/// the metadata reads back and the one frame decodes to the end. A function
/// of the bytes alone.
pub uninterp spec fn png_decodes(bytes: Seq<u8>) -> bool;

/// The encoded image file for an 8-bit RGB raster of the given dimensions and
/// pixel bytes. A function of its arguments alone.
pub uninterp spec fn png_file(width: u32, height: u32, data: Seq<u8>) -> Seq<u8>;

/// Relies on png::Decoder::read_info (with the decoder's default
/// transformations): reads just the metadata of the image that decoding would
/// produce, a deterministic function of the bytes, and errors exactly when the
/// bytes are not a decodable image.
#[verifier::external_body]
fn read_header(bytes: &Vec<u8>) -> (r: Result<(u32, u32, u32, u32), DecodeError>)
    ensures
        r matches Ok(h) ==> png_header(bytes@) == Some(h),
        r is Err ==> png_header(bytes@) is None,
{
    let decoder = png::Decoder::new(bytes.as_slice());
    match decoder.read_info() {
        Ok((info, _)) => Ok((
            info.width,
            info.height,
            info.bit_depth as u32,
            info.color_type.samples() as u32,
        )),
        Err(_) => Err(DecodeError),
    }
}

/// Relies on png::Decoder::read_info and png::Reader::next_frame: materialises
/// the full raw pixel buffer, a deterministic function of the bytes, and
/// succeeds exactly when the bytes decode fully; when the reported bit depth
/// is 8 the buffer holds exactly `samples` bytes per pixel.
#[verifier::external_body]
fn read_pixels(bytes: &Vec<u8>) -> (r: Result<(u32, u32, u32, u32, Vec<u8>), DecodeError>)
    ensures
        r is Ok <==> png_decodes(bytes@),
        r matches Ok(t) ==> png_header(bytes@) == Some((t.0, t.1, t.2, t.3)),
        r matches Ok(t) ==> t.4@ == png_pixels(bytes@),
        r matches Ok(t) ==> (t.2 == 8 ==> t.4@.len() == t.0 * t.1 * t.3),
{
    let decoder = png::Decoder::new(bytes.as_slice());
    let (info, mut reader) = decoder.read_info().map_err(|_| DecodeError)?;
    let mut data = vec![0u8; reader.output_buffer_size()];
    reader.next_frame(&mut data).map_err(|_| DecodeError)?;
    Ok((info.width, info.height, info.bit_depth as u32, info.color_type.samples() as u32, data))
}

/// Relies on png::Encoder and png::Writer::write_image_data, writing 8-bit RGB
/// to an in-memory sink that cannot fail: the encoder rejects exactly the
/// zero dimensions, and the encoded file is a function of the dimensions and
/// pixel bytes alone. The buffer must be exactly one raster of these
/// dimensions, within 32-bit size, which keeps the encoder's internal row
/// arithmetic in bounds.
#[verifier::external_body]
fn encode_rgb(width: u32, height: u32, data: &Vec<u8>) -> (r: Result<Vec<u8>, EncodeError>)
    requires
        data@.len() == width * height * CHANNELS,
        data@.len() <= u32::MAX,
    ensures
        r is Ok <==> (0 < width && 0 < height),
        r matches Ok(out) ==> out@ == png_file(width, height, data@),
{
    let mut out = Vec::new();
    let ok = {
        let mut encoder = png::Encoder::new(&mut out, width, height);
        encoder.set_color(png::ColorType::RGB);
        encoder.set_depth(png::BitDepth::Eight);
        match encoder.write_header() {
            Ok(mut w) => w.write_image_data(data).is_ok(),
            Err(_) => false,
        }
    };
    if ok {
        Ok(out)
    } else {
        Err(EncodeError)
    }
}

/// The tile contract on decoder metadata: exact tile edge in both dimensions,
/// 8 bits per channel, and an RGB or RGBA layout (3 or 4 samples).
pub open spec fn tile_header_ok(h: (u32, u32, u32, u32)) -> bool {
    &&& h.0 == TILE_EDGE
    &&& h.1 == TILE_EDGE
    &&& h.2 == 8
    &&& (h.3 == 3 || h.3 == 4)
}

/// Checks decoder metadata against the tile contract.
pub fn check_info(width: u32, height: u32, bit_depth: u32, samples: u32) -> (r: bool)
    ensures
        r == tile_header_ok((width, height, bit_depth, samples)),
{
    width == TILE_EDGE && height == TILE_EDGE && bit_depth == 8 && (samples == 3 || samples == 4)
}

/// Probes a byte stream: `Ok(true)` exactly when it is a decodable image that
/// meets the tile contract, `Ok(false)` for a decodable image that does not
/// (a mismatch is a filter outcome, not an error), and an error only when the
/// bytes are not a decodable image at all.
pub fn check_texture(bytes: &Vec<u8>) -> (r: Result<bool, DecodeError>)
    ensures
        r matches Ok(b) ==> png_header(bytes@) is Some && b == tile_header_ok(
            png_header(bytes@)->Some_0,
        ),
        r is Err ==> png_header(bytes@) is None,
{
    match read_header(bytes) {
        Ok((w, h, d, s)) => Ok(check_info(w, h, d, s)),
        Err(e) => Err(e),
    }
}

/// RGBA bytes with every 4th byte (the alpha sample) of each 4-byte pixel
/// group dropped, the other three kept in order; trailing bytes that do not
/// fill a whole group are discarded.
pub open spec fn drop_alpha(data: Seq<u8>) -> Seq<u8> {
    Seq::new((data.len() / 4 * 3) as nat, |i: int| data[i / 3 * 4 + i % 3])
}

/// Truncates each 4-byte RGBA pixel group to its first three bytes.
#[verifier::loop_isolation(false)]
pub fn rgba_to_rgb(data: Vec<u8>) -> (r: Vec<u8>)
    ensures
        r@ == drop_alpha(data@),
{
    let chunks: usize = data.len() / 4;
    let mut out: Vec<u8> = Vec::new();
    let mut k: usize = 0;
    proof {
        lemma_fundamental_div_mod(data@.len() as int, 4);
    }
    while k < chunks
        invariant
            k <= chunks,
            out@.len() == 3 * k,
            forall|i: int| 0 <= i < 3 * k ==> out@[i] == data@[i / 3 * 4 + i % 3],
        decreases chunks - k,
    {
        let base = 4 * k;
        out.push(data[base]);
        out.push(data[base + 1]);
        out.push(data[base + 2]);
        proof {
            assert forall|i: int| 0 <= i < 3 * (k + 1) implies out@[i] == data@[
                i / 3 * 4 + i % 3
            ] by {
                if i >= 3 * k {
                    lemma_fundamental_div_mod_converse_div(i, 3, k as int, i - 3 * k);
                    lemma_fundamental_div_mod_converse_mod(i, 3, k as int, i - 3 * k);
                }
            }
        }
        k = k + 1;
    }
    proof {
        assert(out@ =~= drop_alpha(data@));
    }
    out
}

/// The conditions under which a raw decoder result materialises as a tile
/// image: a supported layout, consistent sizes, and sizes that fit.
pub open spec fn raw_tile_ok(width: u32, height: u32, bit_depth: u32, samples: u32, data: Seq<u8>) -> bool {
    &&& bit_depth == 8
    &&& (samples == 3 || samples == 4)
    &&& 0 < width
    &&& width * CHANNELS <= u32::MAX
    &&& data.len() == width * height * samples
    &&& data.len() <= u32::MAX
}

/// Builds the canonical RGB image from a raw decoder result: RGB data is taken
/// as is, RGBA data has its alpha channel truncated away. Succeeds exactly on
/// raw results that satisfy the tile conditions.
pub fn tile_from_raw(width: u32, height: u32, bit_depth: u32, samples: u32, data: Vec<u8>) -> (r:
    Result<RgbImage, DecodeError>)
    ensures
        r is Ok <==> raw_tile_ok(width, height, bit_depth, samples, data@),
        r matches Ok(img) ==> img.wf() && img.spec_width() == width && img.spec_height() == height
            && img.bytes() == (if samples == 3 {
            data@
        } else {
            drop_alpha(data@)
        }),
{
    if !(bit_depth == 8 && (samples == 3 || samples == 4)) {
        return Err(DecodeError);
    }
    if width == 0 || width > u32::MAX / CHANNELS {
        return Err(DecodeError);
    }
    if data.len() > u32::MAX as usize {
        return Err(DecodeError);
    }
    proof {
        lemma_mul_upper_bound(width as int, u32::MAX as int, height as int, u32::MAX as int);
    }
    let wh: u64 = (width as u64) * (height as u64);
    if wh > u32::MAX as u64 {
        proof {
            assert((width as int) * (height as int) * (samples as int) > u32::MAX)
                by (nonlinear_arith)
                requires
                    (width as int) * (height as int) > u32::MAX,
                    samples >= 3,
            ;
        }
        return Err(DecodeError);
    }
    let total: u64 = wh * (samples as u64);
    if (data.len() as u64) != total {
        return Err(DecodeError);
    }
    proof {
        assert((width as int) * (height as int) * (samples as int) == (height as int) * ((
        width as int) * (samples as int))) by (nonlinear_arith);
    }
    if samples == 3 {
        proof {
            lemma_fundamental_div_mod_converse_div(
                data@.len() as int,
                stride(width as int),
                height as int,
                0,
            );
            lemma_fundamental_div_mod_converse_mod(
                data@.len() as int,
                stride(width as int),
                height as int,
                0,
            );
        }
        Ok(RgbImage::from_raw(width, data))
    } else {
        let rgb = rgba_to_rgb(data);
        proof {
            let n = rgb@.len() as int;
            assert((width as int) * (height as int) * 4 == ((width as int) * (height as int))
                * 4) by (nonlinear_arith);
            lemma_fundamental_div_mod_converse_div(
                (width as int) * (height as int) * 4,
                4,
                (width as int) * (height as int),
                0,
            );
            assert(n == (width as int) * (height as int) * 3);
            assert((width as int) * (height as int) * 3 == (height as int) * stride(width as int))
                by (nonlinear_arith);
            lemma_fundamental_div_mod_converse_div(n, stride(width as int), height as int, 0);
            lemma_fundamental_div_mod_converse_mod(n, stride(width as int), height as int, 0);
        }
        Ok(RgbImage::from_raw(width, rgb))
    }
}

/// The bytes decode to an image that can be held as a canonical tile raster.
pub open spec fn tile_decodable(bytes: Seq<u8>) -> bool {
    match png_header(bytes) {
        Some(h) => raw_tile_ok(h.0, h.1, h.2, h.3, png_pixels(bytes)),
        None => false,
    }
}

/// The canonical RGB raster for decoded bytes: the decoder's pixels as they
/// are when they are already RGB, with the alpha channel truncated otherwise.
pub open spec fn decoded_rgb(bytes: Seq<u8>) -> Seq<u8> {
    if png_header(bytes)->Some_0.3 == 3 {
        png_pixels(bytes)
    } else {
        drop_alpha(png_pixels(bytes))
    }
}

/// Fully decodes a byte stream into a canonical RGB image, truncating the
/// alpha channel of RGBA sources. Succeeds exactly when the bytes decode
/// fully and the decoded raster can be held as a tile; on success the image
/// is pinned to the decoder's reported metadata and pixel bytes.
pub fn read_texture_rgb(bytes: &Vec<u8>) -> (r: Result<RgbImage, DecodeError>)
    ensures
        r is Ok <==> png_decodes(bytes@) && tile_decodable(bytes@),
        r matches Ok(img) ==> {
            let h = png_header(bytes@)->Some_0;
            &&& img.wf()
            &&& img.spec_width() == h.0
            &&& img.spec_height() == h.1
            &&& img.bytes() == decoded_rgb(bytes@)
        },
{
    match read_pixels(bytes) {
        Ok((w, h, d, s, data)) => tile_from_raw(w, h, d, s, data),
        Err(e) => Err(e),
    }
}

/// Encodes a canonical RGB image into a complete image file. The in-memory
/// sink cannot fail, so encoding succeeds exactly when the image has rows to
/// write, and the output bytes are the encoded file for exactly this image's
/// dimensions and pixels.
pub fn write_texture_rgb(image: &RgbImage) -> (r: Result<Vec<u8>, EncodeError>)
    requires
        image.wf(),
    ensures
        r is Ok <==> image.spec_height() > 0,
        r matches Ok(out) ==> out@ == png_file(
            image.spec_width(),
            (image.spec_height() as u32),
            image.bytes(),
        ),
{
    let (w, h) = image.dimensions();
    proof {
        crate::tile::lemma_len_is_height_times_stride(image);
        assert((image.spec_height() as int) * stride(image.spec_width() as int) == (
        image.spec_width() as int) * (image.spec_height() as int) * (CHANNELS as int))
            by (nonlinear_arith);
    }
    encode_rgb(w, h, image.data())
}

} // verus!
