//! Bitmaps: 32-bit pixels stored bottom row first, each pixel as the bytes
//! blue, green, red, alpha.
use vstd::prelude::*;

verus! {

/// The info header of a BMP file.
#[derive(Clone, Copy, Debug)]
pub struct TGBitmapHeaderInfo {
    pub header_size: u32,
    pub width: i32,
    pub height: i32,
    pub planes: u16,
    pub bit_per_pixel: u16,
    pub compression: u32,
    pub image_size: u32,
    pub x_px_per_meter: i32,
    pub y_px_per_meter: i32,
    pub colors_used: u32,
    pub colors_important: u32,
}

/// The file header of a BMP file.
#[derive(Clone, Copy, Debug, Default)]
pub struct TGBitmapFileHeader {
    pub type_: u16,
    pub size_: u32,
    pub reserved_1: u16,
    pub reserved_2: u16,
    pub off_bits: u32,
}

/// A bitmap with its headers; `width` and `height` repeat those of the info header.
#[derive(Clone)]
pub struct TGBitmap {
    pub file_header: TGBitmapFileHeader,
    pub info_header: TGBitmapHeaderInfo,
    pub rgba: Vec<u8>,
    pub width: i32,
    pub height: i32,
}

/// The failures of the multithreaded renderer.
#[derive(Debug, PartialEq, Eq, Structural, Clone, Copy)]
pub enum MTError {
    Error,
    PreviouslyInit,
    Default,
}

/// An image as an image decoder hands it over: rows top first, each pixel as the bytes
/// red, green, blue, alpha.
pub struct DecodedImage {
    pub width: i32,
    pub height: i32,
    pub bits_per_pixel: i32,
    pub buffer: Vec<u8>,
}

/// The headers of a fresh 32-bit bitmap of the given size.
pub open spec fn fresh_headers(file: TGBitmapFileHeader, info: TGBitmapHeaderInfo, w: i32, h: i32) -> bool {
    &&& file.type_ == 0x4d42u16
    &&& file.size_ == 0
    &&& file.reserved_1 == 0
    &&& file.reserved_2 == 0
    &&& file.off_bits == 0
    &&& info.header_size == 54
    &&& info.width == w
    &&& info.height == h
    &&& info.planes == 1
    &&& info.bit_per_pixel == 32
    &&& info.compression == 0
    &&& info.image_size == 0
    &&& info.x_px_per_meter == 0
    &&& info.y_px_per_meter == 0
    &&& info.colors_used == 0
    &&& info.colors_important == 0
}

fn new_file_header() -> (f: TGBitmapFileHeader)
    ensures
        f.type_ == 0x4d42u16 && f.size_ == 0 && f.reserved_1 == 0 && f.reserved_2 == 0 && f.off_bits
            == 0,
{
    TGBitmapFileHeader { type_: 0x4d42, size_: 0, reserved_1: 0, reserved_2: 0, off_bits: 0 }
}

fn new_info_header(w: i32, h: i32) -> (info: TGBitmapHeaderInfo)
    ensures
        fresh_headers(new_file_header_spec(), info, w, h),
{
    TGBitmapHeaderInfo {
        header_size: 54,
        width: w,
        height: h,
        planes: 1,
        bit_per_pixel: 32,
        compression: 0,
        image_size: 0,
        x_px_per_meter: 0,
        y_px_per_meter: 0,
        colors_used: 0,
        colors_important: 0,
    }
}

pub open spec fn new_file_header_spec() -> TGBitmapFileHeader {
    TGBitmapFileHeader { type_: 0x4d42, size_: 0, reserved_1: 0, reserved_2: 0, off_bits: 0 }
}

/// `k`-th byte of pixel data in a bitmap made from a decoded image of width `w` and height
/// `h`: rows are put bottom first and red and blue trade places.
pub open spec fn converted_byte(src: Seq<u8>, w: int, h: int, k: int) -> u8 {
    let pixel = k / 4;
    let channel = k % 4;
    let row = pixel / w;
    let col = pixel % w;
    let src_pixel = (h - 1 - row) * w + col;
    let src_channel = if channel == 0 {
        2
    } else if channel == 2 {
        0
    } else {
        channel
    };
    src[4 * src_pixel + src_channel]
}

pub(crate) proof fn lemma_pixel_index(w: int, h: int, r: int, j: int)
    by (nonlinear_arith)
    requires
        0 <= r < h,
        0 <= j < w,
    ensures
        0 <= r * w + j < w * h,
        4 * (r * w + j) + 3 < 4 * (w * h),
        0 <= (h - 1 - r) * w + j < w * h,
        4 * ((h - 1 - r) * w + j) + 3 < 4 * (w * h),
{
}

pub(crate) proof fn lemma_pixel_decompose(w: int, r: int, j: int, c: int)
    by (nonlinear_arith)
    requires
        0 < w,
        0 <= r,
        0 <= j < w,
        0 <= c < 4,
    ensures
        (4 * (r * w + j) + c) / 4 == r * w + j,
        (4 * (r * w + j) + c) % 4 == c,
        (r * w + j) / w == r,
        (r * w + j) % w == j,
{
}

impl TGBitmap {
    /// A bitmap of the given size with every byte zero.
    pub fn new(w: i32, h: i32) -> (bmp: TGBitmap)
        requires
            0 <= w * h <= i32::MAX,
            4 * (w * h) <= usize::MAX,
        ensures
            fresh_headers(bmp.file_header, bmp.info_header, w, h),
            bmp.width == w,
            bmp.height == h,
            bmp.rgba@.len() == 4 * (w * h),
            forall|k: int| 0 <= k < bmp.rgba@.len() ==> #[trigger] bmp.rgba@[k] == 0u8,
    {
        let n = w * h;
        let len = 4 * (n as usize);
        TGBitmap {
            file_header: new_file_header(),
            info_header: new_info_header(w, h),
            rgba: vec![0u8; len],
            width: w,
            height: h,
        }
    }

    /// The bitmap of a decoded image: the rows are put bottom first and the red and blue
    /// bytes of every pixel trade places.
    pub fn from_stbi(image: DecodedImage) -> (bmp: TGBitmap)
        requires
            0 <= image.height,
            image.height > 0 ==> 0 <= image.width,
            i32::MIN <= 4 * image.width <= i32::MAX,
            4 * image.width * image.height <= i32::MAX,
            4 * image.width * image.height <= image.buffer@.len(),
        ensures
            fresh_headers(bmp.file_header, bmp.info_header, image.width, image.height),
            bmp.width == image.width,
            bmp.height == image.height,
            bmp.rgba@.len() == 4 * image.width * image.height,
            forall|k: int|
                0 <= k < bmp.rgba@.len() ==> #[trigger] bmp.rgba@[k] == converted_byte(
                    image.buffer@,
                    image.width as int,
                    image.height as int,
                    k,
                ),
    {
        if image.height == 0 {
            let b = TGBitmap {
                file_header: new_file_header(),
                info_header: new_info_header(image.width, image.height),
                rgba: Vec::new(),
                width: image.width,
                height: image.height,
            };
            assert(b.rgba@.len() == 4 * image.width * image.height);
            return b;
        }
        let w = image.width as usize;
        let h = image.height as usize;
        let total = (4 * image.width * image.height) as usize;
        let mut buffer = vec![0u8; total];
        proof {
            assert(4 * image.width * image.height == 4 * (w * h)) by (nonlinear_arith)
                requires w == image.width, h == image.height;
        }
        let mut r: usize = 0;
        while r < h
            invariant
                w == image.width,
                h == image.height,
                r <= h,
                total == 4 * (w * h),
                total <= image.buffer@.len(),
                buffer@.len() == total,
                forall|k: int|
                    0 <= k < 4 * (r * w) ==> #[trigger] buffer@[k] == converted_byte(
                        image.buffer@,
                        w as int,
                        h as int,
                        k,
                    ),
            decreases h - r,
        {
            let i = h - 1 - r;
            let mut j: usize = 0;
            while j < w
                invariant
                    w == image.width,
                    h == image.height,
                    r < h,
                    i == h - 1 - r,
                    j <= w,
                    total == 4 * (w * h),
                    total <= image.buffer@.len(),
                    buffer@.len() == total,
                    forall|k: int|
                        0 <= k < 4 * (r * w + j) ==> #[trigger] buffer@[k] == converted_byte(
                            image.buffer@,
                            w as int,
                            h as int,
                            k,
                        ),
                decreases w - j,
            {
                proof {
                    lemma_pixel_index(w as int, h as int, r as int, j as int);
                    assert(i * w + j == (h - 1 - r) * w + j);
                }
                let offset_im = 4 * (i * w + j);
                let offset_new = 4 * (r * w + j);
                buffer.set(offset_new + 0, image.buffer[offset_im + 2]);
                buffer.set(offset_new + 1, image.buffer[offset_im + 1]);
                buffer.set(offset_new + 2, image.buffer[offset_im + 0]);
                buffer.set(offset_new + 3, image.buffer[offset_im + 3]);
                proof {
                    assert forall|c: int| 0 <= c < 4 implies #[trigger] buffer@[offset_new + c]
                        == converted_byte(image.buffer@, w as int, h as int, offset_new + c) by {
                        lemma_pixel_decompose(w as int, r as int, j as int, c);
                    }
                    assert(4 * (r * w + (j + 1)) == offset_new + 4) by (nonlinear_arith)
                        requires offset_new == 4 * (r * w + j);
                    assert forall|k: int|
                        0 <= k < 4 * (r * w + (j + 1)) implies #[trigger] buffer@[k]
                        == converted_byte(image.buffer@, w as int, h as int, k) by {
                        if k >= offset_new {
                            assert(buffer@[offset_new + (k - offset_new)] == buffer@[k]);
                        }
                    }
                }
                j = j + 1;
            }
            proof {
                assert(4 * (r * w + w) == 4 * ((r + 1) * w)) by (nonlinear_arith);
            }
            r = r + 1;
        }
        proof {
            assert(r * w == w * h) by (nonlinear_arith)
                requires r == h;
        }
        TGBitmap {
            file_header: new_file_header(),
            info_header: new_info_header(image.width, image.height),
            rgba: buffer,
            width: image.width,
            height: image.height,
        }
    }
}


/// Number of pixels a bitmap of the given size covers when painted.
pub open spec fn painted_pixels(w: i32, h: i32) -> int {
    if w == 0 || h == 0 {
        0
    } else {
        w * h
    }
}

/// Painting a bitmap terminates without fault: its pixel data covers its size.
pub open spec fn paintable(bmp: TGBitmap) -> bool {
    ||| bmp.height == 0
    ||| (bmp.height > 0 && bmp.width == 0)
    ||| (bmp.height > 0 && bmp.width > 0 && 4 * bmp.width * bmp.height <= bmp.rgba@.len())
}

/// `new` is `old` with the first `n` pixels set to blue `b`, green `g`, red `r`; alpha
/// bytes and the bytes behind the pixels are unchanged.
pub open spec fn painted(old: Seq<u8>, new: Seq<u8>, n: int, b: u8, g: u8, r: u8) -> bool {
    &&& new.len() == old.len()
    &&& forall|k: int|
        0 <= k < new.len() ==> #[trigger] new[k] == if k < 4 * n && k % 4 == 0 {
            b
        } else if k < 4 * n && k % 4 == 1 {
            g
        } else if k < 4 * n && k % 4 == 2 {
            r
        } else {
            old[k]
        }
}

/// Sets the blue, green and red bytes of every pixel.
fn paint_rgb(bmp: &mut TGBitmap, color_r: u8, color_g: u8, color_b: u8)
    requires
        paintable(*old(bmp)),
    ensures
        painted(
            old(bmp).rgba@,
            final(bmp).rgba@,
            painted_pixels(old(bmp).width, old(bmp).height),
            color_b,
            color_g,
            color_r,
        ),
        final(bmp).width == old(bmp).width,
        final(bmp).height == old(bmp).height,
        final(bmp).file_header == old(bmp).file_header,
        final(bmp).info_header == old(bmp).info_header,
{
    let ghost old_rgba = bmp.rgba@;
    let ghost old_bmp = *bmp;
    let len = bmp.rgba.len();
    let a_width = bmp.width as usize;
    let a_height = bmp.height as usize;
    let n: usize = if bmp.height == 0 || bmp.width == 0 {
        0
    } else {
        proof {
            assert(4 * (a_width * a_height) == 4 * bmp.width * bmp.height) by (nonlinear_arith)
                requires a_width == bmp.width, a_height == bmp.height;
        }
        assert(4 * (a_width * a_height) <= len);
        a_width * a_height
    };
    assert(n == painted_pixels(bmp.width, bmp.height)) by (nonlinear_arith)
        requires
            n == (if bmp.height == 0 || bmp.width == 0 { 0 } else { a_width * a_height }),
            bmp.height != 0 && bmp.width != 0 ==> a_width == bmp.width && a_height == bmp.height,
    ;
    let mut k: usize = 0;
    while k < n
        invariant
            k <= n,
            4 * n <= len,
            len == bmp.rgba@.len(),
            bmp.rgba@.len() == old_rgba.len(),
            bmp.width == old_bmp.width,
            bmp.height == old_bmp.height,
            bmp.file_header == old_bmp.file_header,
            bmp.info_header == old_bmp.info_header,
            forall|m: int|
                0 <= m < bmp.rgba@.len() ==> #[trigger] bmp.rgba@[m] == if m < 4 * k && m % 4 == 0 {
                    color_b
                } else if m < 4 * k && m % 4 == 1 {
                    color_g
                } else if m < 4 * k && m % 4 == 2 {
                    color_r
                } else {
                    old_rgba[m]
                },
        decreases n - k,
    {
        let offset = 4 * k;
        bmp.rgba.set(offset + 0, color_b);
        bmp.rgba.set(offset + 1, color_g);
        bmp.rgba.set(offset + 2, color_r);
        k = k + 1;
    }
}

/// Paints every pixel grey (red, green and blue 155); alpha is kept.
pub fn render_grey(bmp: &mut TGBitmap)
    requires
        paintable(*old(bmp)),
    ensures
        painted(
            old(bmp).rgba@,
            final(bmp).rgba@,
            painted_pixels(old(bmp).width, old(bmp).height),
            155,
            155,
            155,
        ),
        final(bmp).width == old(bmp).width,
        final(bmp).height == old(bmp).height,
        final(bmp).file_header == old(bmp).file_header,
        final(bmp).info_header == old(bmp).info_header,
{
    paint_rgb(bmp, 155, 155, 155);
}

/// Paints every pixel pink (red 255, green 192, blue 203); alpha is kept.
pub fn render_pink(bmp: &mut TGBitmap)
    requires
        paintable(*old(bmp)),
    ensures
        painted(
            old(bmp).rgba@,
            final(bmp).rgba@,
            painted_pixels(old(bmp).width, old(bmp).height),
            203,
            192,
            255,
        ),
        final(bmp).width == old(bmp).width,
        final(bmp).height == old(bmp).height,
        final(bmp).file_header == old(bmp).file_header,
        final(bmp).info_header == old(bmp).info_header,
{
    paint_rgb(bmp, 255, 192, 203);
}

/// Paints every pixel dark red (red 155, green and blue 0); alpha is kept.
pub fn render_red(bmp: &mut TGBitmap)
    requires
        paintable(*old(bmp)),
    ensures
        painted(
            old(bmp).rgba@,
            final(bmp).rgba@,
            painted_pixels(old(bmp).width, old(bmp).height),
            0,
            0,
            155,
        ),
        final(bmp).width == old(bmp).width,
        final(bmp).height == old(bmp).height,
        final(bmp).file_header == old(bmp).file_header,
        final(bmp).info_header == old(bmp).info_header,
{
    paint_rgb(bmp, 155, 0, 0);
}

/// Painting twice with the same colour gives what painting once gave, and painting with
/// one colour after another leaves the second colour and the first painting's alpha.
pub proof fn lemma_paint_twice(a: Seq<u8>, b: Seq<u8>, c: Seq<u8>, n: int, b1: u8, g1: u8, r1: u8, b2: u8, g2: u8, r2: u8)
    requires
        painted(a, b, n, b1, g1, r1),
        painted(b, c, n, b2, g2, r2),
    ensures
        painted(a, c, n, b2, g2, r2),
        (b1 == b2 && g1 == g2 && r1 == r2) ==> c == b,
{
    assert forall|k: int| 0 <= k < c.len() implies #[trigger] c[k] == if k < 4 * n && k % 4 == 0 {
        b2
    } else if k < 4 * n && k % 4 == 1 {
        g2
    } else if k < 4 * n && k % 4 == 2 {
        r2
    } else {
        a[k]
    } by {
        assert(c[k] == if k < 4 * n && k % 4 == 0 {
            b2
        } else if k < 4 * n && k % 4 == 1 {
            g2
        } else if k < 4 * n && k % 4 == 2 {
            r2
        } else {
            b[k]
        });
        assert(b[k] == if k < 4 * n && k % 4 == 0 {
            b1
        } else if k < 4 * n && k % 4 == 1 {
            g1
        } else if k < 4 * n && k % 4 == 2 {
            r1
        } else {
            a[k]
        });
    }
    if b1 == b2 && g1 == g2 && r1 == r2 {
        assert forall|k: int| 0 <= k < c.len() implies #[trigger] c[k] == b[k] by {
            assert(c[k] == if k < 4 * n && k % 4 == 0 {
                b2
            } else if k < 4 * n && k % 4 == 1 {
                g2
            } else if k < 4 * n && k % 4 == 2 {
                r2
            } else {
                b[k]
            });
            assert(b[k] == if k < 4 * n && k % 4 == 0 {
                b1
            } else if k < 4 * n && k % 4 == 1 {
                g1
            } else if k < 4 * n && k % 4 == 2 {
                r1
            } else {
                a[k]
            });
        }
        assert(c =~= b);
    }
}


// ---------------------------------------------------------------------------------------
// The BMP file format
// ---------------------------------------------------------------------------------------

/// The number held little-endian in the two bytes of `b` at `k`.
pub open spec fn le_u16(b: Seq<u8>, k: int) -> u16 {
    (b[k] as u16) | ((b[k + 1] as u16) << 8u16)
}

/// The number held little-endian in the four bytes of `b` at `k`.
pub open spec fn le_u32(b: Seq<u8>, k: int) -> u32 {
    (b[k] as u32) | ((b[k + 1] as u32) << 8u32) | ((b[k + 2] as u32) << 16u32) | ((b[k + 3] as u32)
        << 24u32)
}

/// The two little-endian bytes of `x`.
pub open spec fn u16_bytes(x: u16) -> Seq<u8> {
    seq![(x & 0xff) as u8, ((x >> 8u16) & 0xff) as u8]
}

/// The four little-endian bytes of `x`.
pub open spec fn u32_bytes(x: u32) -> Seq<u8> {
    seq![
        (x & 0xff) as u8,
        ((x >> 8u32) & 0xff) as u8,
        ((x >> 16u32) & 0xff) as u8,
        ((x >> 24u32) & 0xff) as u8,
    ]
}

/// The file header held in the first 14 bytes of a BMP file.
pub open spec fn parsed_file_header(b: Seq<u8>) -> TGBitmapFileHeader {
    TGBitmapFileHeader {
        type_: le_u16(b, 0),
        size_: le_u32(b, 2),
        reserved_1: le_u16(b, 6),
        reserved_2: le_u16(b, 8),
        off_bits: le_u32(b, 10),
    }
}

/// The info header held in bytes 14 to 54 of a BMP file.
pub open spec fn parsed_info_header(b: Seq<u8>) -> TGBitmapHeaderInfo {
    TGBitmapHeaderInfo {
        header_size: le_u32(b, 14),
        width: le_u32(b, 18) as i32,
        height: le_u32(b, 22) as i32,
        planes: le_u16(b, 26),
        bit_per_pixel: le_u16(b, 28),
        compression: le_u32(b, 30),
        image_size: le_u32(b, 34),
        x_px_per_meter: le_u32(b, 38) as i32,
        y_px_per_meter: le_u32(b, 42) as i32,
        colors_used: le_u32(b, 46),
        colors_important: le_u32(b, 50),
    }
}

/// The bytes of a BMP file: the two headers, field by field in little-endian order, then
/// the pixel data.
pub open spec fn file_bytes(f: TGBitmapFileHeader, i: TGBitmapHeaderInfo, rgba: Seq<u8>) -> Seq<u8> {
    u16_bytes(f.type_) + u32_bytes(f.size_) + u16_bytes(f.reserved_1) + u16_bytes(f.reserved_2)
        + u32_bytes(f.off_bits) + u32_bytes(i.header_size) + u32_bytes(i.width as u32) + u32_bytes(
        i.height as u32,
    ) + u16_bytes(i.planes) + u16_bytes(i.bit_per_pixel) + u32_bytes(i.compression) + u32_bytes(
        i.image_size,
    ) + u32_bytes(i.x_px_per_meter as u32) + u32_bytes(i.y_px_per_meter as u32) + u32_bytes(
        i.colors_used,
    ) + u32_bytes(i.colors_important) + rgba
}

fn read_u16(b: &[u8], k: usize) -> (r: u16)
    requires
        k + 2 <= b@.len(),
    ensures
        r == le_u16(b@, k as int),
{
    (b[k] as u16) | ((b[k + 1] as u16) << 8u16)
}

fn read_u32(b: &[u8], k: usize) -> (r: u32)
    requires
        k + 4 <= b@.len(),
    ensures
        r == le_u32(b@, k as int),
{
    (b[k] as u32) | ((b[k + 1] as u32) << 8u32) | ((b[k + 2] as u32) << 16u32) | ((b[k + 3] as u32)
        << 24u32)
}

fn push_u16(out: &mut Vec<u8>, x: u16)
    ensures
        final(out)@ == old(out)@ + u16_bytes(x),
{
    out.push((x & 0xff) as u8);
    out.push(((x >> 8u16) & 0xff) as u8);
    assert(out@ =~= old(out)@ + u16_bytes(x));
}

fn push_u32(out: &mut Vec<u8>, x: u32)
    ensures
        final(out)@ == old(out)@ + u32_bytes(x),
{
    out.push((x & 0xff) as u8);
    out.push(((x >> 8u32) & 0xff) as u8);
    out.push(((x >> 16u32) & 0xff) as u8);
    out.push(((x >> 24u32) & 0xff) as u8);
    assert(out@ =~= old(out)@ + u32_bytes(x));
}

impl TGBitmap {
    /// Reads a bitmap from the bytes of a BMP file: the headers from the first 54 bytes,
    /// the pixel data from the header's offset on.
    pub fn from_buffer(img_buffer: &[u8]) -> (bmp: TGBitmap)
        requires
            img_buffer@.len() >= 54,
            le_u32(img_buffer@, 10) <= img_buffer@.len(),
        ensures
            bmp.file_header == parsed_file_header(img_buffer@),
            bmp.info_header == parsed_info_header(img_buffer@),
            bmp.rgba@ == img_buffer@.subrange(
                le_u32(img_buffer@, 10) as int,
                img_buffer@.len() as int,
            ),
            bmp.width == bmp.info_header.width,
            bmp.height == bmp.info_header.height,
    {
        let file_header = TGBitmapFileHeader {
            type_: read_u16(img_buffer, 0),
            size_: read_u32(img_buffer, 2),
            reserved_1: read_u16(img_buffer, 6),
            reserved_2: read_u16(img_buffer, 8),
            off_bits: read_u32(img_buffer, 10),
        };
        let info_header = TGBitmapHeaderInfo {
            header_size: read_u32(img_buffer, 14),
            width: read_u32(img_buffer, 18) as i32,
            height: read_u32(img_buffer, 22) as i32,
            planes: read_u16(img_buffer, 26),
            bit_per_pixel: read_u16(img_buffer, 28),
            compression: read_u32(img_buffer, 30),
            image_size: read_u32(img_buffer, 34),
            x_px_per_meter: read_u32(img_buffer, 38) as i32,
            y_px_per_meter: read_u32(img_buffer, 42) as i32,
            colors_used: read_u32(img_buffer, 46),
            colors_important: read_u32(img_buffer, 50),
        };
        let start = file_header.off_bits as usize;
        let mut rgba: Vec<u8> = Vec::new();
        let mut k: usize = start;
        while k < img_buffer.len()
            invariant
                start <= k <= img_buffer@.len(),
                rgba@ == img_buffer@.subrange(start as int, k as int),
            decreases img_buffer.len() - k,
        {
            rgba.push(img_buffer[k]);
            k = k + 1;
            assert(rgba@ =~= img_buffer@.subrange(start as int, k as int));
        }
        TGBitmap {
            file_header,
            info_header,
            rgba,
            width: info_header.width,
            height: info_header.height,
        }
    }

    /// The bytes of the BMP file for this bitmap: both headers, then the pixel data.
    pub fn file_bytes(&self) -> (out: Vec<u8>)
        ensures
            out@ == file_bytes(self.file_header, self.info_header, self.rgba@),
    {
        let f = self.file_header;
        let i = self.info_header;
        let mut out: Vec<u8> = Vec::new();
        push_u16(&mut out, f.type_);
        push_u32(&mut out, f.size_);
        push_u16(&mut out, f.reserved_1);
        push_u16(&mut out, f.reserved_2);
        push_u32(&mut out, f.off_bits);
        push_u32(&mut out, i.header_size);
        push_u32(&mut out, i.width as u32);
        push_u32(&mut out, i.height as u32);
        push_u16(&mut out, i.planes);
        push_u16(&mut out, i.bit_per_pixel);
        push_u32(&mut out, i.compression);
        push_u32(&mut out, i.image_size);
        push_u32(&mut out, i.x_px_per_meter as u32);
        push_u32(&mut out, i.y_px_per_meter as u32);
        push_u32(&mut out, i.colors_used);
        push_u32(&mut out, i.colors_important);
        let ghost head = out@;
        let mut k: usize = 0;
        while k < self.rgba.len()
            invariant
                k <= self.rgba@.len(),
                out@ == head + self.rgba@.take(k as int),
            decreases self.rgba.len() - k,
        {
            out.push(self.rgba[k]);
            k = k + 1;
            assert(out@ =~= head + self.rgba@.take(k as int));
        }
        assert(self.rgba@.take(k as int) =~= self.rgba@);
        out
    }
}

proof fn lemma_u16_round_trip(x: u16)
    ensures
        ((x & 0xff) as u8 as u16) | ((((x >> 8u16) & 0xff) as u8 as u16) << 8u16) == x,
{
    assert(((x & 0xff) as u8 as u16) | ((((x >> 8u16) & 0xff) as u8 as u16) << 8u16) == x)
        by (bit_vector);
}

proof fn lemma_u32_round_trip(x: u32)
    ensures
        ((x & 0xff) as u8 as u32) | ((((x >> 8u32) & 0xff) as u8 as u32) << 8u32) | ((((x
            >> 16u32) & 0xff) as u8 as u32) << 16u32) | ((((x >> 24u32) & 0xff) as u8 as u32)
            << 24u32) == x,
{
    assert(((x & 0xff) as u8 as u32) | ((((x >> 8u32) & 0xff) as u8 as u32) << 8u32) | ((((x
        >> 16u32) & 0xff) as u8 as u32) << 16u32) | ((((x >> 24u32) & 0xff) as u8 as u32)
        << 24u32) == x) by (bit_vector);
}

proof fn lemma_i32_round_trip(x: i32)
    ensures
        (x as u32) as i32 == x,
{
    assert((x as u32) as i32 == x) by (bit_vector);
}

proof fn lemma_read_u16_at(b: Seq<u8>, k: int, x: u16)
    requires
        0 <= k,
        k + 2 <= b.len(),
        b.subrange(k, k + 2) == u16_bytes(x),
    ensures
        le_u16(b, k) == x,
{
    assert(b[k] == u16_bytes(x)[0]);
    assert(b[k + 1] == u16_bytes(x)[1]);
    lemma_u16_round_trip(x);
}

proof fn lemma_read_u32_at(b: Seq<u8>, k: int, x: u32)
    requires
        0 <= k,
        k + 4 <= b.len(),
        b.subrange(k, k + 4) == u32_bytes(x),
    ensures
        le_u32(b, k) == x,
{
    assert(b[k] == u32_bytes(x)[0]);
    assert(b[k + 1] == u32_bytes(x)[1]);
    assert(b[k + 2] == u32_bytes(x)[2]);
    assert(b[k + 3] == u32_bytes(x)[3]);
    lemma_u32_round_trip(x);
}

/// Reading a BMP file that was written gives back its headers, and, where the pixel data
/// starts right behind the 54 bytes of headers, its pixel data.
pub proof fn lemma_bmp_file_round_trip(f: TGBitmapFileHeader, i: TGBitmapHeaderInfo, rgba: Seq<u8>)
    ensures
        file_bytes(f, i, rgba).len() == 54 + rgba.len(),
        parsed_file_header(file_bytes(f, i, rgba)) == f,
        parsed_info_header(file_bytes(f, i, rgba)) == i,
        f.off_bits == 54 ==> file_bytes(f, i, rgba).subrange(54, 54 + rgba.len() as int) == rgba,
{
    let b = file_bytes(f, i, rgba);
    assert(b.subrange(0, 2) =~= u16_bytes(f.type_));
    lemma_read_u16_at(b, 0, f.type_);
    assert(b.subrange(2, 6) =~= u32_bytes(f.size_));
    lemma_read_u32_at(b, 2, f.size_);
    assert(b.subrange(6, 8) =~= u16_bytes(f.reserved_1));
    lemma_read_u16_at(b, 6, f.reserved_1);
    assert(b.subrange(8, 10) =~= u16_bytes(f.reserved_2));
    lemma_read_u16_at(b, 8, f.reserved_2);
    assert(b.subrange(10, 14) =~= u32_bytes(f.off_bits));
    lemma_read_u32_at(b, 10, f.off_bits);
    assert(b.subrange(14, 18) =~= u32_bytes(i.header_size));
    lemma_read_u32_at(b, 14, i.header_size);
    assert(b.subrange(18, 22) =~= u32_bytes(i.width as u32));
    lemma_read_u32_at(b, 18, i.width as u32);
    lemma_i32_round_trip(i.width);
    assert(b.subrange(22, 26) =~= u32_bytes(i.height as u32));
    lemma_read_u32_at(b, 22, i.height as u32);
    lemma_i32_round_trip(i.height);
    assert(b.subrange(26, 28) =~= u16_bytes(i.planes));
    lemma_read_u16_at(b, 26, i.planes);
    assert(b.subrange(28, 30) =~= u16_bytes(i.bit_per_pixel));
    lemma_read_u16_at(b, 28, i.bit_per_pixel);
    assert(b.subrange(30, 34) =~= u32_bytes(i.compression));
    lemma_read_u32_at(b, 30, i.compression);
    assert(b.subrange(34, 38) =~= u32_bytes(i.image_size));
    lemma_read_u32_at(b, 34, i.image_size);
    assert(b.subrange(38, 42) =~= u32_bytes(i.x_px_per_meter as u32));
    lemma_read_u32_at(b, 38, i.x_px_per_meter as u32);
    lemma_i32_round_trip(i.x_px_per_meter);
    assert(b.subrange(42, 46) =~= u32_bytes(i.y_px_per_meter as u32));
    lemma_read_u32_at(b, 42, i.y_px_per_meter as u32);
    lemma_i32_round_trip(i.y_px_per_meter);
    assert(b.subrange(46, 50) =~= u32_bytes(i.colors_used));
    lemma_read_u32_at(b, 46, i.colors_used);
    assert(b.subrange(50, 54) =~= u32_bytes(i.colors_important));
    lemma_read_u32_at(b, 50, i.colors_important);
    assert(b.subrange(54, 54 + rgba.len() as int) =~= rgba);
}
} // verus!
