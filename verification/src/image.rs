use vstd::prelude::*;
use crate::error::{ErrModel, PdfError};
use crate::object::{dict_get, ObjModel, PdfDictionary, PdfObject};

verus! {

/// The pixel layouts a JPEG decodes to.
#[derive(Debug, Clone, Copy, PartialEq, Eq, Structural)]
pub enum JpegFormat {
    /// Gray, one byte per pixel
    L8,
    /// Gray, two bytes per pixel
    L16,
    /// Red, green, blue
    Rgb24,
    /// Cyan, magenta, yellow, black
    Cmyk32,
}

/// The header facts of a decoded JPEG.
#[derive(Debug, Clone, Copy, PartialEq, Eq, Structural)]
pub struct JpegInfo {
    pub width: u16,
    pub height: u16,
    pub format: JpegFormat,
}

/// What decoding a JPEG gives: the pixels or the decoder's error text, and
/// the header facts when the decoder has them.
pub uninterp spec fn jpeg_decoded(data: Seq<u8>) -> (Result<Seq<u8>, Seq<char>>, Option<JpegInfo>);

/// Decodes JPEG bytes with `jpeg_decoder::Decoder::decode`, then asks the same
/// decoder for its `info`. Claims: the outcome is the named decoding of the
/// bytes, the pixels or the text of the error, and the header facts.
#[verifier::external_body]
fn jpeg_decode(data: &[u8]) -> (res: (Result<Vec<u8>, String>, Option<JpegInfo>))
    ensures
        match jpeg_decoded(data@).0 {
            Ok(p) => res.0 matches Ok(v) && v@ == p,
            Err(msg) => res.0 matches Err(s) && s@ == msg,
        },
        res.1 == jpeg_decoded(data@).1,
{
    let mut decoder = jpeg_decoder::Decoder::new(std::io::Cursor::new(data));
    let pixels = decoder.decode().map_err(|e| format!("{}", e));
    let info = decoder.info().map(|i| JpegInfo {
        width: i.width,
        height: i.height,
        format: match i.pixel_format {
            jpeg_decoder::PixelFormat::L8 => JpegFormat::L8,
            jpeg_decoder::PixelFormat::L16 => JpegFormat::L16,
            jpeg_decoder::PixelFormat::RGB24 => JpegFormat::Rgb24,
            jpeg_decoder::PixelFormat::CMYK32 => JpegFormat::Cmyk32,
        },
    });
    (pixels, info)
}

/// Whether `tiny_skia::Pixmap::new` accepts a size: both sides non-zero, a row
/// of at most `i32::MAX` bytes, and the whole buffer within `usize`.
pub open spec fn pixmap_fits(width: u32, height: u32) -> bool {
    &&& width > 0
    &&& height > 0
    &&& width * 4 <= i32::MAX
    &&& width * height * 4 <= usize::MAX
}

/// Allocates a pixmap with `tiny_skia::Pixmap::new` and takes its buffer.
/// Claims: a buffer comes exactly for the sizes that `pixmap_fits` admits, and
/// it is `width * height * 4` zero bytes.
#[verifier::external_body]
fn pixmap_buffer(width: u32, height: u32) -> (res: Option<Vec<u8>>)
    ensures
        res is Some <==> pixmap_fits(width, height),
        res matches Some(v) ==> v@ == Seq::new((width * height * 4) as nat, |i: int| 0u8),
{
    tiny_skia::Pixmap::new(width, height).map(|p| p.take())
}

/// An RGBA image, four bytes per pixel, rows from the top.
#[derive(Debug, PartialEq)]
pub struct RgbaImage {
    pub width: u32,
    pub height: u32,
    pub data: Vec<u8>,
}

/// RGBA bytes from decoded pixels: red, green and blue are copied, CMYK is
/// inverted channel by channel (black is left out), gray is spread; alpha is
/// opaque. Pixels that do not fill a whole group at the end are dropped.
pub open spec fn rgba_pixels(format: JpegFormat, p: Seq<u8>) -> Option<Seq<u8>> {
    match format {
        JpegFormat::Rgb24 => Some(
            Seq::new(
                (p.len() / 3 * 4) as nat,
                |i: int|
                    if i % 4 == 3 {
                        255u8
                    } else {
                        p[3 * (i / 4) + i % 4]
                    },
            ),
        ),
        JpegFormat::Cmyk32 => Some(
            Seq::new(
                (p.len() / 4 * 4) as nat,
                |i: int|
                    if i % 4 == 3 {
                        255u8
                    } else {
                        (255 - p[4 * (i / 4) + i % 4]) as u8
                    },
            ),
        ),
        JpegFormat::L8 => Some(
            Seq::new(
                (p.len() * 4) as nat,
                |i: int|
                    if i % 4 == 3 {
                        255u8
                    } else {
                        p[i / 4]
                    },
            ),
        ),
        JpegFormat::L16 => None,
    }
}

pub struct ImageModel {
    pub width: u32,
    pub height: u32,
    pub data: Seq<u8>,
}

impl View for RgbaImage {
    type V = ImageModel;

    open spec fn view(&self) -> ImageModel {
        ImageModel { width: self.width, height: self.height, data: self.data@ }
    }
}

/// Decoding a JPEG into an RGBA image of the size its header gives. Pixels
/// that do not fill that size exactly leave the image transparent black.
pub open spec fn decode_jpeg_spec(data: Seq<u8>) -> Result<ImageModel, ErrModel> {
    let d = jpeg_decoded(data);
    match d.0 {
        Err(msg) => Err(ErrModel::FilterDecodeError("JPEG Decode error: "@ + msg)),
        Ok(pixels) => match d.1 {
            None => Err(ErrModel::FilterDecodeError("Failed to get JPEG info"@)),
            Some(info) => {
                let w = info.width as u32;
                let h = info.height as u32;
                if !pixmap_fits(w, h) {
                    Err(ErrModel::RenderError("Failed to allocate Pixmap for JPEG"@))
                } else {
                    match rgba_pixels(info.format, pixels) {
                        None => Err(ErrModel::FilterDecodeError("Unsupported JPEG pixel format"@)),
                        Some(rgba) => Ok(
                            ImageModel {
                                width: w,
                                height: h,
                                data: if rgba.len() == w * h * 4 {
                                    rgba
                                } else {
                                    Seq::new((w * h * 4) as nat, |i: int| 0u8)
                                },
                            },
                        ),
                    }
                }
            },
        },
    }
}

/// The RGBA bytes of decoded pixels.
fn to_rgba(format: JpegFormat, p: &Vec<u8>) -> (res: Option<Vec<u8>>)
    ensures
        match rgba_pixels(format, p@) {
            Some(v) => res matches Some(x) && x@ == v,
            None => res is None,
        },
{
    let mut out: Vec<u8> = Vec::new();
    match format {
        JpegFormat::Rgb24 => {
            let len = p.len();
            let n = len / 3;
            let mut k: usize = 0;
            while k < n
                invariant
                    k <= n,
                    n == p@.len() / 3,
                    p@.len() <= usize::MAX,
                    out@.len() == 4 * k,
                    forall|i: int|
                        0 <= i < 4 * k ==> #[trigger] out@[i] == (if i % 4 == 3 {
                            255u8
                        } else {
                            p@[3 * (i / 4) + i % 4]
                        }),
                decreases n - k,
            {
                let ghost before = out@;
                assert(3 * k + 2 < p@.len()) by (nonlinear_arith)
                    requires
                        k < n,
                        n == p@.len() / 3,
                ;
                out.push(p[3 * k]);
                out.push(p[3 * k + 1]);
                out.push(p[3 * k + 2]);
                out.push(255u8);
                proof {
                    assert forall|i: int| 0 <= i < 4 * (k + 1) implies #[trigger] out@[i] == (if i
                        % 4 == 3 {
                        255u8
                    } else {
                        p@[3 * (i / 4) + i % 4]
                    }) by {
                        if i >= 4 * k {
                            assert(i / 4 == k);
                        } else {
                            assert(out@[i] == before[i]);
                        }
                    }
                }
                k = k + 1;
            }
            proof {
                let want = rgba_pixels(format, p@)->0;
                assert(out@ =~= want);
            }
            Some(out)
        },
        JpegFormat::Cmyk32 => {
            let len = p.len();
            let n = len / 4;
            let mut k: usize = 0;
            while k < n
                invariant
                    k <= n,
                    n == p@.len() / 4,
                    p@.len() <= usize::MAX,
                    out@.len() == 4 * k,
                    forall|i: int|
                        0 <= i < 4 * k ==> #[trigger] out@[i] == (if i % 4 == 3 {
                            255u8
                        } else {
                            (255 - p@[4 * (i / 4) + i % 4]) as u8
                        }),
                decreases n - k,
            {
                let ghost before = out@;
                assert(4 * k + 2 < p@.len()) by (nonlinear_arith)
                    requires
                        k < n,
                        n == p@.len() / 4,
                ;
                out.push(255 - p[4 * k]);
                out.push(255 - p[4 * k + 1]);
                out.push(255 - p[4 * k + 2]);
                out.push(255u8);
                proof {
                    assert forall|i: int| 0 <= i < 4 * (k + 1) implies #[trigger] out@[i] == (if i
                        % 4 == 3 {
                        255u8
                    } else {
                        (255 - p@[4 * (i / 4) + i % 4]) as u8
                    }) by {
                        if i >= 4 * k {
                            assert(i / 4 == k);
                        } else {
                            assert(out@[i] == before[i]);
                        }
                    }
                }
                k = k + 1;
            }
            proof {
                let want = rgba_pixels(format, p@)->0;
                assert(out@ =~= want);
            }
            Some(out)
        },
        JpegFormat::L8 => {
            let n = p.len();
            let mut k: usize = 0;
            while k < n
                invariant
                    k <= n,
                    n == p@.len(),
                    out@.len() == 4 * k,
                    forall|i: int|
                        0 <= i < 4 * k ==> #[trigger] out@[i] == (if i % 4 == 3 {
                            255u8
                        } else {
                            p@[i / 4]
                        }),
                decreases n - k,
            {
                let ghost before = out@;
                let g = p[k];
                out.push(g);
                out.push(g);
                out.push(g);
                out.push(255u8);
                proof {
                    assert forall|i: int| 0 <= i < 4 * (k + 1) implies #[trigger] out@[i] == (if i
                        % 4 == 3 {
                        255u8
                    } else {
                        p@[i / 4]
                    }) by {
                        if i >= 4 * k {
                            assert(i / 4 == k);
                        } else {
                            assert(out@[i] == before[i]);
                        }
                    }
                }
                k = k + 1;
            }
            proof {
                let want = rgba_pixels(format, p@)->0;
                assert(out@ =~= want);
            }
            Some(out)
        },
        JpegFormat::L16 => None,
    }
}

/// Decodes DCT (JPEG) bytes into an RGBA image of the size the JPEG header gives.
pub fn decode_jpeg(data: &[u8]) -> (res: Result<RgbaImage, PdfError>)
    ensures
        match decode_jpeg_spec(data@) {
            Ok(m) => res matches Ok(img) && img@ == m,
            Err(e) => res matches Err(x) && x@ == e,
        },
{
    let (decoded, info) = jpeg_decode(data);
    let pixels = match decoded {
        Ok(p) => p,
        Err(msg) => {
            let mut text = String::from_str("JPEG Decode error: ");
            text.append(msg.as_str());
            return Err(PdfError::FilterDecodeError(text));
        },
    };
    let info = match info {
        Some(i) => i,
        None => {
            return Err(PdfError::FilterDecodeError(String::from_str("Failed to get JPEG info")));
        },
    };
    let width = info.width as u32;
    let height = info.height as u32;
    let buffer = match pixmap_buffer(width, height) {
        Some(b) => b,
        None => {
            return Err(
                PdfError::RenderError(String::from_str("Failed to allocate Pixmap for JPEG")),
            );
        },
    };
    let rgba = match to_rgba(info.format, &pixels) {
        Some(v) => v,
        None => {
            return Err(
                PdfError::FilterDecodeError(String::from_str("Unsupported JPEG pixel format")),
            );
        },
    };
    let data = if buffer.len() == rgba.len() {
        rgba
    } else {
        buffer
    };
    Ok(RgbaImage { width, height, data })
}

/// The filter an image names: its `/Filter` when that is a name, else `None`.
pub open spec fn image_filter(d: Seq<(Seq<char>, ObjModel)>) -> Seq<char> {
    match dict_get(d, "Filter"@) {
        Some(ObjModel::Name(n)) => n,
        _ => "None"@,
    }
}

/// Loading an image XObject: only DCT (JPEG) data is decoded.
pub open spec fn load_image_spec(d: Seq<(Seq<char>, ObjModel)>, raw: Seq<u8>) -> Result<
    ImageModel,
    ErrModel,
> {
    let f = image_filter(d);
    if f == "DCTDecode"@ {
        decode_jpeg_spec(raw)
    } else {
        Err(ErrModel::UnsupportedFilter("Image Filter: "@ + f))
    }
}

/// Reads an image XObject's dictionary and decodes its data with the decoder
/// its filter names.
pub fn load_image_xobject(dict: &PdfDictionary, raw_stream: &[u8]) -> (res: Result<
    RgbaImage,
    PdfError,
>)
    ensures
        match load_image_spec(dict@, raw_stream@) {
            Ok(m) => res matches Ok(img) && img@ == m,
            Err(e) => res matches Err(x) && x@ == e,
        },
{
    let mut filter = String::from_str("None");
    match dict.get("Filter") {
        Some(PdfObject::Name(n)) => {
            filter = n.clone();
        },
        _ => {},
    }
    if crate::object::str_equal(filter.as_str(), "DCTDecode") {
        decode_jpeg(raw_stream)
    } else {
        let mut text = String::from_str("Image Filter: ");
        text.append(filter.as_str());
        Err(PdfError::UnsupportedFilter(text))
    }
}


/// RGBA bytes from BGRA bytes: each whole group of four has its first and
/// third byte swapped; bytes that do not fill a group at the end are dropped.
pub open spec fn bgra_swapped(p: Seq<u8>) -> Seq<u8> {
    Seq::new(
        (p.len() / 4 * 4) as nat,
        |i: int|
            if i % 4 == 0 {
                p[i + 2]
            } else if i % 4 == 2 {
                p[i - 2]
            } else {
                p[i]
            },
    )
}

/// Turns the BGRA bytes a renderer hands back into RGBA bytes.
pub fn bgra_to_rgba(bgra: &[u8]) -> (res: Vec<u8>)
    ensures
        res@ == bgra_swapped(bgra@),
{
    let n = bgra.len() / 4;
    let mut out: Vec<u8> = Vec::new();
    let mut k: usize = 0;
    while k < n
        invariant
            k <= n,
            n == bgra@.len() / 4,
            bgra@.len() <= usize::MAX,
            out@.len() == 4 * k,
            forall|i: int|
                0 <= i < 4 * k ==> #[trigger] out@[i] == (if i % 4 == 0 {
                    bgra@[i + 2]
                } else if i % 4 == 2 {
                    bgra@[i - 2]
                } else {
                    bgra@[i]
                }),
        decreases n - k,
    {
        let ghost before = out@;
        assert(4 * k + 3 < bgra@.len()) by (nonlinear_arith)
            requires
                k < n,
                n == bgra@.len() / 4,
        ;
        out.push(bgra[4 * k + 2]);
        out.push(bgra[4 * k + 1]);
        out.push(bgra[4 * k]);
        out.push(bgra[4 * k + 3]);
        proof {
            assert forall|i: int| 0 <= i < 4 * (k + 1) implies #[trigger] out@[i] == (if i % 4 == 0 {
                bgra@[i + 2]
            } else if i % 4 == 2 {
                bgra@[i - 2]
            } else {
                bgra@[i]
            }) by {
                if i >= 4 * k {
                    assert(i / 4 == k);
                } else {
                    assert(out@[i] == before[i]);
                }
            }
        }
        k = k + 1;
    }
    assert(out@ =~= bgra_swapped(bgra@));
    out
}

} // verus!
