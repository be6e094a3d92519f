//! Bounded reading of local PNG images already resolved inside the workspace.
//!
//! This layer decides neither permissions nor paths. It checks the header
//! before asking the decoder for memory, and hands premultiplied pixels to
//! the renderer.
use vstd::prelude::*;
use tiny_skia::Pixmap;

verus! {

pub const MAX_PNG_BYTES: u64 = 8_388_608;

pub const MAX_PNG_DIMENSION: u32 = 8192;

pub const MAX_PNG_PIXELS: u64 = 16_777_216;

#[derive(Clone, Copy, Debug, PartialEq, Eq, Structural)]
pub enum ImageError {
    NotFile,
    TooLarge,
    NotPng,
    InvalidHeader,
    DimensionsExceeded,
    /// Reading the file failed.
    Io,
    Decode,
}

pub open spec fn image_message(e: ImageError) -> Seq<char> {
    match e {
        ImageError::NotFile => "el recurso no es un archivo normal"@,
        ImageError::TooLarge => "la imagen supera el límite de 8 MiB comprimidos"@,
        ImageError::NotPng => "solo se permiten imágenes PNG locales"@,
        ImageError::InvalidHeader => "el encabezado PNG es inválido"@,
        ImageError::DimensionsExceeded => "la imagen supera el límite de dimensiones o memoria descomprimida"@,
        ImageError::Io => "no se pudo leer la imagen local"@,
        ImageError::Decode => "el PNG no pudo decodificarse de forma segura"@,
    }
}

impl ImageError {
    /// What the person is told.
    pub fn message(self) -> (m: &'static str)
        ensures
            m@ == image_message(self),
    {
        match self {
            ImageError::NotFile => "el recurso no es un archivo normal",
            ImageError::TooLarge => "la imagen supera el límite de 8 MiB comprimidos",
            ImageError::NotPng => "solo se permiten imágenes PNG locales",
            ImageError::InvalidHeader => "el encabezado PNG es inválido",
            ImageError::DimensionsExceeded => "la imagen supera el límite de dimensiones o memoria descomprimida",
            ImageError::Io => "no se pudo leer la imagen local",
            ImageError::Decode => "el PNG no pudo decodificarse de forma segura",
        }
    }
}

/// The eight bytes every PNG starts with.
pub open spec fn png_signature() -> Seq<u8> {
    seq![0x89u8, 0x50u8, 0x4Eu8, 0x47u8, 0x0Du8, 0x0Au8, 0x1Au8, 0x0Au8]
}

/// The chunk type of the image header, `IHDR`.
pub open spec fn ihdr() -> Seq<u8> {
    seq![0x49u8, 0x48u8, 0x44u8, 0x52u8]
}

/// The big-endian `u32` at byte `i`.
pub open spec fn be_u32(b: Seq<u8>, i: int) -> int {
    b[i] * 16777216 + b[i + 1] * 65536 + b[i + 2] * 256 + b[i + 3]
}

/// What the header of a PNG file says about it: its size, if the signature,
/// the first chunk and the dimensions are acceptable.
pub open spec fn png_header(b: Seq<u8>) -> Result<(u32, u32), ImageError> {
    if b.len() < 8 || b.take(8) != png_signature() {
        Err(ImageError::NotPng)
    } else if b.len() < 24 || b.subrange(12, 16) != ihdr() || be_u32(b, 8) != 13 {
        Err(ImageError::InvalidHeader)
    } else {
        let w = be_u32(b, 16);
        let h = be_u32(b, 20);
        if w == 0 || h == 0 || w > MAX_PNG_DIMENSION || h > MAX_PNG_DIMENSION || w * h
            > MAX_PNG_PIXELS {
            Err(ImageError::DimensionsExceeded)
        } else {
            Ok((w as u32, h as u32))
        }
    }
}

fn read_be_u32(b: &[u8], i: usize) -> (v: u32)
    requires
        i + 4 <= b@.len(),
    ensures
        v == be_u32(b@, i as int),
{
    (b[i] as u32) * 16777216 + (b[i + 1] as u32) * 65536 + (b[i + 2] as u32) * 256 + (b[i
        + 3] as u32)
}

/// Checks a PNG header before any memory is asked of the decoder.
pub fn validate_png_header(bytes: &[u8]) -> (r: Result<(u32, u32), ImageError>)
    ensures
        r == png_header(bytes@),
{
    let signature: [u8; 8] = [0x89u8, 0x50u8, 0x4Eu8, 0x47u8, 0x0Du8, 0x0Au8, 0x1Au8, 0x0Au8];
    if bytes.len() < 8 {
        return Err(ImageError::NotPng);
    }
    let mut i: usize = 0;
    while i < 8
        invariant
            i <= 8,
            8 <= bytes@.len(),
            signature@ == png_signature(),
            forall|j: int| 0 <= j < i ==> bytes@[j] == png_signature()[j],
        decreases 8 - i,
    {
        if bytes[i] != signature[i] {
            proof {
                assert(bytes@.take(8)[i as int] != png_signature()[i as int]);
            }
            return Err(ImageError::NotPng);
        }
        i = i + 1;
    }
    proof {
        assert(bytes@.take(8) =~= png_signature());
    }
    if bytes.len() < 24 || bytes[12] != 0x49u8 || bytes[13] != 0x48u8 || bytes[14] != 0x44u8
        || bytes[15] != 0x52u8 {
        proof {
            if bytes@.len() >= 24 {
                assert(bytes@.subrange(12, 16) != ihdr()) by {
                    let s = bytes@.subrange(12, 16);
                    assert(s[0] == bytes@[12] && s[1] == bytes@[13] && s[2] == bytes@[14] && s[3]
                        == bytes@[15]);
                }
            }
        }
        return Err(ImageError::InvalidHeader);
    }
    proof {
        assert(bytes@.subrange(12, 16) =~= ihdr());
    }
    if read_be_u32(bytes, 8) != 13 {
        return Err(ImageError::InvalidHeader);
    }
    let width = read_be_u32(bytes, 16);
    let height = read_be_u32(bytes, 20);
    let too_many = match (width as u64).checked_mul(height as u64) {
        Some(pixels) => pixels > MAX_PNG_PIXELS,
        None => true,
    };
    if width == 0 || height == 0 || width > MAX_PNG_DIMENSION || height > MAX_PNG_DIMENSION
        || too_many {
        return Err(ImageError::DimensionsExceeded);
    }
    Ok((width, height))
}

/// A decoded image: its size and its premultiplied RGBA pixels, row by row,
/// four bytes a pixel.
#[derive(Clone, Debug, PartialEq, Eq)]
pub struct DecodedImage {
    pub width: u32,
    pub height: u32,
    pub rgba: Vec<u8>,
}

impl View for DecodedImage {
    type V = (u32, u32, Seq<u8>);

    open spec fn view(&self) -> (u32, u32, Seq<u8>) {
        (self.width, self.height, self.rgba@)
    }
}

impl DecodedImage {
    pub fn width(&self) -> (w: u32)
        ensures
            w == self.width,
    {
        self.width
    }

    pub fn height(&self) -> (h: u32)
        ensures
            h == self.height,
    {
        self.height
    }

    /// The premultiplied RGBA bytes.
    pub fn data(&self) -> (d: &[u8])
        ensures
            d@ == self.rgba@,
    {
        self.rgba.as_slice()
    }
}

/// What `tiny_skia::Pixmap::decode_png` makes of these bytes: `None` where it
/// refuses them, else the width, the height and the premultiplied RGBA bytes
/// of the image. It depends on the bytes alone.
pub uninterp spec fn png_decoded(bytes: Seq<u8>) -> Option<(u32, u32, Seq<u8>)>;

pub open spec fn decoded_view(r: Option<(u32, u32, Vec<u8>)>) -> Option<(u32, u32, Seq<u8>)> {
    match r {
        Some(t) => Some((t.0, t.1, t.2@)),
        None => None,
    }
}

/// `tiny_skia::Pixmap::decode_png`, its pixmap taken apart into width, height
/// and bytes. Claimed: the outcome is the one `png_decoded` names for the
/// bytes; the bytes are four a pixel (`Pixmap::from_vec` checks that); and
/// where the bytes open with a well-formed `IHDR` chunk the size is the one
/// written there (the decoder reads it from `IHDR`, and an `fcTL` chunk before
/// the image data must repeat it). How the pixels are computed is not stated.
#[verifier::external_body]
fn decode_png(bytes: &[u8]) -> (r: Option<(u32, u32, Vec<u8>)>)
    ensures
        decoded_view(r) == png_decoded(bytes@),
        r matches Some(t) ==> t.2@.len() == t.0 * t.1 * 4,
        r matches Some(t) ==> (png_header(bytes@) is Ok ==> png_header(bytes@) == Ok::<
            (u32, u32),
            ImageError,
        >((t.0, t.1))),
{
    match Pixmap::decode_png(bytes) {
        Ok(p) => Some((p.width(), p.height(), p.take())),
        Err(_) => None,
    }
}

/// What reading a local PNG gives: the size limit first, then the header,
/// then the decoder.
pub open spec fn local_png(bytes: Seq<u8>) -> Result<(u32, u32, Seq<u8>), ImageError> {
    if bytes.len() > MAX_PNG_BYTES {
        Err(ImageError::TooLarge)
    } else {
        match png_header(bytes) {
            Err(e) => Err(e),
            Ok(_) => match png_decoded(bytes) {
                Some(img) => Ok(img),
                None => Err(ImageError::Decode),
            },
        }
    }
}

/// Decodes the bytes of a local PNG within the budget: the compressed size
/// and the header are checked first, the decoder runs only afterwards.
pub fn decode_local_png(bytes: &[u8]) -> (r: Result<DecodedImage, ImageError>)
    ensures
        match r {
            Ok(img) => local_png(bytes@) == Ok::<(u32, u32, Seq<u8>), ImageError>(img@),
            Err(e) => local_png(bytes@) == Err::<(u32, u32, Seq<u8>), ImageError>(e),
        },
        r matches Ok(img) ==> png_header(bytes@) == Ok::<(u32, u32), ImageError>(
            (img.width, img.height),
        ) && img.rgba@.len() == img.width * img.height * 4,
{
    if bytes.len() as u64 > MAX_PNG_BYTES {
        return Err(ImageError::TooLarge);
    }
    match validate_png_header(bytes) {
        Ok(_) => {},
        Err(e) => return Err(e),
    }
    match decode_png(bytes) {
        Some((width, height, rgba)) => Ok(DecodedImage { width, height, rgba }),
        None => Err(ImageError::Decode),
    }
}

} // verus!
