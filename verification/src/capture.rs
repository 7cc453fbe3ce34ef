//! Screen captures: what a region snip yields, and raw RGBA pixels encoded
//! as PNG for a card.

use vstd::prelude::*;

verus! {

/// What a capture run yields: the image when the tool left a non-empty file,
/// nothing when it ran without one (the user cancelled), else its error.
pub open spec fn spec_capture_outcome(ran: Result<(), Seq<char>>, bytes: Option<Seq<u8>>) -> Result<
    Seq<u8>,
    Seq<char>,
> {
    match bytes {
        Some(b) if b.len() > 0 => Ok(b),
        _ => match ran {
            Ok(_) => Ok(Seq::empty()),
            Err(e) => Err(e),
        },
    }
}

/// Decide a region capture from whether a capture tool ran and what it left
/// in the output file (`None` when there was no file to read). A file left
/// empty counts as no image.
pub fn capture_outcome(ran: Result<(), String>, bytes: Option<Vec<u8>>) -> (r: Result<Vec<u8>, String>)
    ensures
        match r {
            Ok(v) => spec_capture_outcome(
                match ran {
                    Ok(_) => Ok(()),
                    Err(e) => Err(e@),
                },
                match bytes {
                    Some(b) => Some(b@),
                    None => None,
                },
            ) == Ok::<Seq<u8>, Seq<char>>(v@),
            Err(e) => spec_capture_outcome(
                match ran {
                    Ok(_) => Ok(()),
                    Err(e) => Err(e@),
                },
                match bytes {
                    Some(b) => Some(b@),
                    None => None,
                },
            ) == Err::<Seq<u8>, Seq<char>>(e@),
        },
{
    match bytes {
        Some(b) if b.len() > 0 => Ok(b),
        _ => match ran {
            Ok(_) => Ok(Vec::new()),
            Err(e) => Err(e),
        },
    }
}

/// Whether a `w`×`h` RGBA image fits in `len` bytes: four bytes a pixel,
/// with the size itself representable.
pub open spec fn rgba_fits(len: nat, w: nat, h: nat) -> bool {
    4 * w * h <= len && 4 * w * h <= usize::MAX
}

/// What the `image` crate's PNG encoder yields for a `w`×`h` RGBA image
/// with the given pixels: the file's bytes, or the error's message.
pub uninterp spec fn spec_png_rgba(w: u32, h: u32, pixels: Seq<u8>) -> Result<Seq<u8>, Seq<char>>;

/// The PNG file signature.
pub open spec fn png_signature() -> Seq<u8> {
    seq![137u8, 80, 78, 71, 13, 10, 26, 10]
}

/// Builds the image with `image::RgbaImage::from_raw(w, h, buf)`, which as
/// its source shows succeeds exactly when the pixels fit (hence the
/// `requires`), and writes it as PNG through `ImageBuffer::write_to` into a
/// `Vec`, or gives the error's message. `write_to` encodes exactly the first
/// `4 * w * h` bytes, so the result is named by `spec_png_rgba` over those.
/// Claimed besides, from the `png` crate's encoder: it refuses only a zero
/// width or height, and its output starts with the PNG signature.
#[verifier::external_body]
fn png_of_rgba(w: u32, h: u32, buf: Vec<u8>) -> (r: Result<Vec<u8>, String>)
    requires
        rgba_fits(buf@.len(), w as nat, h as nat),
    ensures
        match r {
            Ok(v) => spec_png_rgba(w, h, buf@.take(4 * w * h)) == Ok::<Seq<u8>, Seq<char>>(v@),
            Err(e) => spec_png_rgba(w, h, buf@.take(4 * w * h)) == Err::<Seq<u8>, Seq<char>>(e@),
        },
        w > 0 && h > 0 ==> r is Ok,
        r matches Ok(v) ==> v@.len() >= 8 && v@.take(8) == png_signature(),
{
    let img = image::RgbaImage::from_raw(w, h, buf).expect("the pixels fit");
    let mut out = Vec::new();
    match img.write_to(&mut std::io::Cursor::new(&mut out), image::ImageFormat::Png) {
        Ok(()) => Ok(out),
        Err(e) => Err(e.to_string()),
    }
}

/// Encode raw RGBA pixels (`w`×`h`, row-major) as a PNG file. Pixels that
/// do not fill the image are refused as a bad buffer; bytes beyond the image
/// are ignored.
pub fn encode_png(rgba: &[u8], w: u32, h: u32) -> (r: Result<Vec<u8>, String>)
    ensures
        !rgba_fits(rgba@.len(), w as nat, h as nat) ==> (r matches Err(e) && e@ == "bad image buffer"@),
        rgba_fits(rgba@.len(), w as nat, h as nat) ==> match r {
            Ok(v) => spec_png_rgba(w, h, rgba@.take(4 * w * h)) == Ok::<Seq<u8>, Seq<char>>(v@),
            Err(e) => spec_png_rgba(w, h, rgba@.take(4 * w * h)) == Err::<Seq<u8>, Seq<char>>(e@),
        },
        rgba_fits(rgba@.len(), w as nat, h as nat) && w > 0 && h > 0 ==> r is Ok,
        r matches Ok(v) ==> rgba_fits(rgba@.len(), w as nat, h as nat) && v@.len() >= 8 && v@.take(8)
            == png_signature(),
{
    let mut buf: Vec<u8> = Vec::new();
    let mut i: usize = 0;
    while i < rgba.len()
        invariant
            i <= rgba@.len(),
            buf@ == rgba@.take(i as int),
        decreases rgba@.len() - i,
    {
        buf.push(rgba[i]);
        assert(buf@ =~= rgba@.take(i + 1));
        i += 1;
    }
    assert(buf@ =~= rgba@);
    let size = (4 as u64).checked_mul(w as u64);
    let fits = match size {
        Some(a) => match a.checked_mul(h as u64) {
            Some(n) => n <= usize::MAX as u64 && (n as usize) <= buf.len(),
            None => false,
        },
        None => false,
    };
    if fits {
        png_of_rgba(w, h, buf)
    } else {
        Err("bad image buffer".to_owned())
    }
}

} // verus!
