use vstd::prelude::*;

use crate::error::MyError;

verus! {

/// The eight bytes that every PNG file starts with.
pub open spec fn png_signature() -> Seq<u8> {
    seq![137u8, 80u8, 78u8, 71u8, 13u8, 10u8, 26u8, 10u8]
}

/// The bytes start with the PNG signature.
pub open spec fn is_png(data: Seq<u8>) -> bool {
    data.len() >= 8 && data.take(8) == png_signature()
}

/// The pixels of a PNG image as RGB bytes (three per pixel, row by row), as
/// the `image` crate decodes them; `None` where it cannot decode the bytes.
pub uninterp spec fn spec_decode_png_rgb8(data: Seq<u8>) -> Option<Seq<u8>>;

/// Decodes PNG bytes with `image::load_from_memory_with_format(.., Png)`,
/// converts the image with `into_rgb8` and keeps its raw bytes. The contract
/// claims that the outcome is the named decoding. The format is pinned, so of
/// the crate's decoders only the PNG one (the `png` crate over `fdeflate`,
/// both free of `unsafe`) is reached. In that path a chunk before the header
/// is refused with an error, the image size is multiplied with saturation and
/// checked against the `image` crate's default 512 MiB limit before the pixel
/// buffer is allocated, a row is unfiltered only once the buffer holds it
/// whole, and the decompressor either makes progress or reports an error.
/// That no slice index in those crates goes out of bounds on malformed bytes
/// rests on the `png` crate's own claim (its README: fuzzed on OSS-Fuzz), not
/// on a reading of every index.
#[verifier::external_body]
fn decode_png_rgb8(data: &[u8]) -> (res: Option<Vec<u8>>)
    ensures
        match res {
            Some(v) => spec_decode_png_rgb8(data@) == Some(v@),
            None => spec_decode_png_rgb8(data@) is None,
        },
{
    image::load_from_memory_with_format(data, image::ImageFormat::Png).ok().map(|img| img.into_rgb8().into_raw())
}

/// Whether the bytes start with the PNG signature.
fn has_png_signature(data: &[u8]) -> (res: bool)
    ensures
        res == is_png(data@),
{
    if data.len() < 8 {
        return false;
    }
    let sig: [u8; 8] = [137u8, 80u8, 78u8, 71u8, 13u8, 10u8, 26u8, 10u8];
    assert(sig@ =~= png_signature());
    let mut i: usize = 0;
    while i < 8
        invariant
            i <= 8,
            data@.len() >= 8,
            sig@ == png_signature(),
            forall|j: int| 0 <= j < i ==> data@[j] == sig@[j],
        decreases 8 - i,
    {
        if data[i] != sig[i] {
            assert(data@.take(8)[i as int] != png_signature()[i as int]);
            return false;
        }
        i = i + 1;
    }
    assert(data@.take(8) =~= png_signature());
    true
}

/// A pixel is red when its red value exceeds the sum of its green and blue.
pub open spec fn is_red(r: u8, g: u8, b: u8) -> bool {
    r as int > g as int + b as int
}

/// How many of the first `n` pixels of `rgb` are red.
pub open spec fn red_pixels_upto(rgb: Seq<u8>, n: int) -> nat
    decreases n,
{
    if n <= 0 {
        0
    } else {
        red_pixels_upto(rgb, n - 1) + if is_red(rgb[3 * n - 3], rgb[3 * n - 2], rgb[3 * n - 1]) {
            1nat
        } else {
            0nat
        }
    }
}

/// How many pixels of `rgb` are red (a trailing partial pixel is ignored).
pub open spec fn red_pixels(rgb: Seq<u8>) -> nat {
    red_pixels_upto(rgb, (rgb.len() / 3) as int)
}

/// Counts the red pixels of RGB bytes.
pub fn count_red_pixels(rgb: &Vec<u8>) -> (res: u64)
    ensures
        res == red_pixels(rgb@),
{
    let pixels = rgb.len() / 3;
    let mut count: u64 = 0;
    let mut n: usize = 0;
    while n < pixels
        invariant
            n <= pixels,
            pixels == rgb@.len() / 3,
            count == red_pixels_upto(rgb@, n as int),
            count <= n,
        decreases pixels - n,
    {
        let len = rgb.len();
        assert(3 * n + 2 < len) by (nonlinear_arith)
            requires n < pixels, pixels == len / 3;
        let base = 3 * n;
        let r = rgb[base];
        let g = rgb[base + 1];
        let b = rgb[base + 2];
        if r as u32 > g as u32 + b as u32 {
            count = count + 1;
        }
        n = n + 1;
    }
    count
}

/// The answer for an upload: the number of red pixels of the image; an error
/// when no image was sent; `None` when the upload is not a PNG file or does not
/// decode, where the service fails.
pub fn get_no_of_red_pixels(image: Option<&[u8]>) -> (res: Option<Result<u64, MyError>>)
    ensures
        match image {
            None => res matches Some(Err(e)) && e is CustomError && crate::error::error_message(e)
                == "No Image Provided"@,
            Some(data) => if !is_png(data@) {
                res is None
            } else {
                match spec_decode_png_rgb8(data@) {
                    Some(rgb) => res matches Some(Ok(n)) && n == red_pixels(rgb),
                    None => res is None,
                }
            },
        },
{
    match image {
        None => Some(Err(MyError::CustomError("No Image Provided".to_owned()))),
        Some(data) => {
            if !has_png_signature(data) {
                return None;
            }
            match decode_png_rgb8(data) {
                Some(rgb) => Some(Ok(count_red_pixels(&rgb))),
                None => None,
            }
        },
    }
}

/// Appending one pixel to the RGB bytes raises the red count by one exactly
/// when its red value exceeds the sum of its green and blue values.
pub proof fn lemma_red_pixels_step(rgb: Seq<u8>, r: u8, g: u8, b: u8)
    requires
        rgb.len() % 3 == 0,
    ensures
        red_pixels(rgb + seq![r, g, b]) == red_pixels(rgb) + if r as int > g as int + b as int {
            1nat
        } else {
            0nat
        },
{
    let t = rgb + seq![r, g, b];
    let n = rgb.len() / 3;
    assert(t.len() / 3 == n + 1);
    assert(t[3 * (n + 1) - 3] == r && t[3 * (n + 1) - 2] == g && t[3 * (n + 1) - 1] == b);
    lemma_red_prefix_agrees(rgb, t, n as int);
}

/// The count over the first `n` pixels depends only on the first `3 * n` bytes.
proof fn lemma_red_prefix_agrees(a: Seq<u8>, b: Seq<u8>, n: int)
    requires
        0 <= n,
        3 * n <= a.len(),
        3 * n <= b.len(),
        forall|i: int| 0 <= i < 3 * n ==> a[i] == b[i],
    ensures
        red_pixels_upto(a, n) == red_pixels_upto(b, n),
    decreases n,
{
    if n > 0 {
        lemma_red_prefix_agrees(a, b, n - 1);
        assert(a[3 * n - 3] == b[3 * n - 3]);
        assert(a[3 * n - 2] == b[3 * n - 2]);
        assert(a[3 * n - 1] == b[3 * n - 1]);
    }
}

} // verus!
