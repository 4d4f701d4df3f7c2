//! The frames of a camera, from the bytes that it delivers to pictures.
use crate::frame::{Frame, Picture};
use nokhwa::pixel_format::RgbFormat;
use nokhwa::utils::{FrameFormat, Resolution};
use nokhwa::Buffer;
use vstd::arithmetic::div_mod::lemma_fundamental_div_mod_converse;
use vstd::prelude::*;

verus! {

/// How a camera lays out the bytes of a frame that is not compressed.
#[derive(Clone, Copy, Debug, PartialEq, Eq, Structural)]
pub enum RawFormat {
    /// Two pixels in four bytes: a brightness each, and a hue that they share.
    Yuyv,
    /// The brightness of all pixels, then a hue for every four of them.
    Nv12,
    /// One byte of brightness to a pixel.
    Gray,
    /// Red, green and blue.
    RawRgb,
    /// Blue, green and red.
    RawBgr,
}

/// The byte nearest to a number.
pub open spec fn nearest_byte(n: int) -> u8 {
    if n < 0 {
        0
    } else if n > 255 {
        255
    } else {
        n as u8
    }
}

/// The red, green or blue of a brightness `y` and a hue `u`, `v`.
pub open spec fn hued(y: u8, u: u8, v: u8, colour: int) -> u8 {
    let light = 298 * (y - 16);
    let part = if colour == 0 {
        409 * (v - 128)
    } else if colour == 1 {
        -100 * (u - 128) - 208 * (v - 128)
    } else {
        516 * (u - 128)
    };
    nearest_byte((light + part + 128) / 256)
}

/// A byte of a frame where two pixels share a hue.
pub open spec fn yuyv_byte(data: Seq<u8>, i: int) -> u8 {
    let pixel = i / 3;
    let start = 4 * (pixel / 2);
    hued(data[start + 2 * (pixel % 2)], data[start + 1], data[start + 3], i % 3)
}

/// A byte of a frame where four pixels share a hue.
pub open spec fn nv12_byte(width: nat, height: nat, data: Seq<u8>, i: int) -> u8 {
    let pixel = i / 3;
    let x = pixel % width as int;
    let y = pixel / width as int;
    let hue = width * height + (y / 2) * width + 2 * (x / 2);
    hued(data[pixel], data[hue], data[hue + 1], i % 3)
}

/// The data of a frame as red, green and blue. A pixel that is cut off in the
/// reversed order is black.
pub open spec fn colours(width: nat, height: nat, data: Seq<u8>, format: RawFormat) -> Seq<u8> {
    match format {
        RawFormat::Yuyv => Seq::new(3 * (data.len() / 2), |i: int| yuyv_byte(data, i)),
        RawFormat::Nv12 => Seq::new(3 * (width * height), |i: int| nv12_byte(width, height, data, i)),
        RawFormat::Gray => Seq::new(3 * data.len(), |i: int| data[i / 3]),
        RawFormat::RawRgb => data,
        RawFormat::RawBgr => Seq::new(
            data.len(),
            |i: int|
                if i / 3 < data.len() / 3 {
                    data[3 * (i / 3) + 2 - i % 3]
                } else {
                    0
                },
        ),
    }
}

/// The data of a frame are whole, and suffice for its size.
pub open spec fn decodes(width: nat, height: nat, data: Seq<u8>, format: RawFormat) -> bool {
    &&& format is Yuyv ==> data.len() % 4 == 0
    &&& format is Nv12 ==> width % 2 == 0 && height % 2 == 0 && 2 * data.len() == 3 * (width * height)
    &&& colours(width, height, data, format).len() >= 3 * (width * height)
}

/// A frame can be decoded: what comes of it can be addressed. The length of a
/// row is computed even where there is none. Where four pixels share a hue, all
/// lengths are computed in 32 bits, and a frame of no width has no rows to go by.
pub open spec fn decodable(width: nat, height: nat, len: nat, format: RawFormat) -> bool {
    &&& 3 * len <= isize::MAX
    &&& height == 0 ==> 3 * width <= u32::MAX
    &&& format is Nv12 ==> {
        &&& 3 * width <= u32::MAX
        &&& 3 * (width * height) <= u32::MAX
        &&& 3 * (width * height) <= isize::MAX
        &&& width == 0 ==> height % 2 == 1 || len > 0
    }
}

/// The text of the error that `nokhwa::Buffer::decode_image` gives where it
/// decodes nothing.
pub uninterp spec fn decode_error(
    width: nat,
    height: nat,
    data: Seq<u8>,
    format: RawFormat,
) -> Seq<char>;

/// Calls `nokhwa::Buffer::decode_image` on a buffer of the given bytes. It gives
/// their colours where they make up a frame of the given size, which may be
/// followed by more, and else an error. How the error is worded is not said.
#[verifier::external_body]
fn decode(width: u32, height: u32, data: &Vec<u8>, format: RawFormat) -> (r: Result<Vec<u8>, String>)
    requires
        decodable(width as nat, height as nat, data@.len(), format),
    ensures
        match r {
            Ok(rgb) => {
                &&& decodes(width as nat, height as nat, data@, format)
                &&& rgb@ == colours(width as nat, height as nat, data@, format)
            },
            Err(e) => {
                &&& !decodes(width as nat, height as nat, data@, format)
                &&& e@ == decode_error(width as nat, height as nat, data@, format)
            },
        },
{
    let layout = match format {
        RawFormat::Yuyv => FrameFormat::YUYV,
        RawFormat::Nv12 => FrameFormat::NV12,
        RawFormat::Gray => FrameFormat::GRAY,
        RawFormat::RawRgb => FrameFormat::RAWRGB,
        RawFormat::RawBgr => FrameFormat::RAWBGR,
    };
    match Buffer::new(Resolution::new(width, height), data, layout).decode_image::<RgbFormat>() {
        Ok(image) => Ok(image.into_raw()),
        Err(e) => Err(e.to_string()),
    }
}

/// What a frame that a camera delivered comes to: its picture, or why there is
/// none.
pub open spec fn is_frame_of(
    width: nat,
    height: nat,
    data: Seq<u8>,
    format: RawFormat,
    r: Result<Frame, String>,
) -> bool {
    match r {
        Ok(f) => {
            &&& decodes(width, height, data, format)
            &&& f@.wf()
            &&& f@ == (Picture {
                width,
                height,
                data: colours(width, height, data, format).subrange(0, (3 * (width * height)) as int),
            })
        },
        Err(e) => {
            &&& !decodes(width, height, data, format)
            &&& e@ == decode_error(width, height, data, format)
        },
    }
}

/// The picture of a frame that a camera delivered, or why there is none.
pub fn camera_frame(width: u32, height: u32, data: &Vec<u8>, format: RawFormat) -> (r: Result<
    Frame,
    String,
>)
    requires
        decodable(width as nat, height as nat, data@.len(), format),
    ensures
        is_frame_of(width as nat, height as nat, data@, format, r),
{
    match decode(width, height, data, format) {
        Ok(rgb) => Ok(Frame::new(width, height, rgb).unwrap()),
        Err(e) => Err(e),
    }
}

/// Whether a frame can be decoded.
pub fn can_decode(width: u32, height: u32, len: usize, format: RawFormat) -> (r: bool)
    ensures
        r == decodable(width as nat, height as nat, len as nat, format),
{
    assert(0 <= width * height <= 0xffff_ffff * 0xffff_ffff) by (nonlinear_arith)
        requires
            0 <= width <= 0xffff_ffff,
            0 <= height <= 0xffff_ffff,
    ;
    let limit: u128 = isize::MAX as u128;
    let row: u64 = 3 * (width as u64);
    let size: u128 = 3 * (width as u128 * height as u128);
    3 * (len as u128) <= limit && (height > 0 || row <= 0xffff_ffff) && match format {
        RawFormat::Nv12 => row <= 0xffff_ffff && size <= 0xffff_ffff && size <= limit && (width > 0
            || height % 2 == 1 || len > 0),
        _ => true,
    }
}

/// Bytes of brightness become greys, and bytes of red, green and blue stay, or
/// change places where they stand in the reversed order.
pub proof fn law_plain_formats(width: nat, height: nat, data: Seq<u8>, pixel: int)
    requires
        0 <= pixel,
    ensures
        ({
            let grey = colours(width, height, data, RawFormat::Gray);
            let rgb = colours(width, height, data, RawFormat::RawRgb);
            let bgr = colours(width, height, data, RawFormat::RawBgr);
            let i = 3 * pixel;
            &&& pixel < data.len() ==> grey[i] == data[pixel] && grey[i + 1] == data[pixel] && grey[i + 2]
                == data[pixel]
            &&& rgb == data
            &&& i + 2 < data.len() ==> bgr[i] == data[i + 2] && bgr[i + 1] == data[i + 1] && bgr[i + 2]
                == data[i]
            &&& grey.len() == 3 * data.len()
            &&& bgr.len() == data.len()
        }),
{
    let i = 3 * pixel;
    assert(i / 3 == pixel && (i + 1) / 3 == pixel && (i + 2) / 3 == pixel);
    assert(i % 3 == 0 && (i + 1) % 3 == 1 && (i + 2) % 3 == 2);
}

/// A pixel has one colour for one brightness and one hue, whether it shares the
/// hue with one other pixel or with three.
pub proof fn law_hues_agree(width: nat, height: nat, a: Seq<u8>, b: Seq<u8>, pixel: int, x: int, y: int)
    requires
        decodes(width, height, b, RawFormat::Nv12),
        0 <= pixel,
        0 <= x < width,
        0 <= y < height,
        2 * pixel + 3 < a.len(),
        a[2 * pixel] == b[y * width + x],
        a[4 * (pixel / 2) + 1] == b[width * height + (y / 2) * width + 2 * (x / 2)],
        a[4 * (pixel / 2) + 3] == b[width * height + (y / 2) * width + 2 * (x / 2) + 1],
    ensures
        ({
            let yuyv = colours(width, height, a, RawFormat::Yuyv);
            let nv12 = colours(width, height, b, RawFormat::Nv12);
            let (i, j) = (3 * pixel, 3 * (y * width + x));
            &&& yuyv[i] == nv12[j]
            &&& yuyv[i + 1] == nv12[j + 1]
            &&& yuyv[i + 2] == nv12[j + 2]
        }),
{
    let j = y * width + x;
    let i = 3 * pixel;
    assert(i / 3 == pixel && (i + 1) / 3 == pixel && (i + 2) / 3 == pixel);
    assert(i % 3 == 0 && (i + 1) % 3 == 1 && (i + 2) % 3 == 2);
    assert((3 * j) / 3 == j && (3 * j + 1) / 3 == j && (3 * j + 2) / 3 == j);
    assert((3 * j) % 3 == 0 && (3 * j + 1) % 3 == 1 && (3 * j + 2) % 3 == 2);
    lemma_fundamental_div_mod_converse(j, width as int, y, x);
    assert(j < width * height) by (nonlinear_arith)
        requires
            j == y * width + x,
            x < width,
            y + 1 <= height,
    ;
    assert(3 * j + 2 < 3 * (width * height));
    let start = 4 * (pixel / 2);
    assert(start + 2 * (pixel % 2) == 2 * pixel);
    assert(i + 2 < 3 * (a.len() / 2));
}

/// A hue in the middle makes a grey, which is black at 16 and white at 235. More
/// brightness makes no colour darker; more of `v` makes no red darker and no green
/// brighter, and more of `u` no blue darker and no green brighter.
pub proof fn law_hue(y: u8, u: u8, v: u8, more: u8)
    ensures
        hued(y, 128, 128, 0) == hued(y, 128, 128, 1),
        hued(y, 128, 128, 0) == hued(y, 128, 128, 2),
        hued(16, 128, 128, 0) == 0,
        hued(235, 128, 128, 0) == 255,
        y <= more ==> hued(y, u, v, 0) <= hued(more, u, v, 0) && hued(y, u, v, 1) <= hued(more, u, v, 1)
            && hued(y, u, v, 2) <= hued(more, u, v, 2),
        v <= more ==> hued(y, u, v, 0) <= hued(y, u, more, 0) && hued(y, u, v, 1) >= hued(y, u, more, 1)
            && hued(y, u, v, 2) == hued(y, u, more, 2),
        u <= more ==> hued(y, u, v, 0) == hued(y, more, v, 0) && hued(y, u, v, 1) >= hued(y, more, v, 1)
            && hued(y, u, v, 2) <= hued(y, more, v, 2),
{
}

/// A frame has a picture where its bytes suffice: one, two or three to a pixel,
/// or three to two pixels, and whole groups of pixels that share a hue. The
/// picture has the frame's size, and its pixels stand in the order of the bytes:
/// as greys, as they are, or reversed.
pub proof fn law_frame_has_its_picture(
    width: nat,
    height: nat,
    data: Seq<u8>,
    format: RawFormat,
    r: Result<Frame, String>,
    pixel: int,
)
    requires
        is_frame_of(width, height, data, format, r),
    ensures
        r is Ok <==> match format {
            RawFormat::Gray => data.len() >= width * height,
            RawFormat::RawRgb => data.len() >= 3 * (width * height),
            RawFormat::RawBgr => data.len() >= 3 * (width * height),
            RawFormat::Yuyv => data.len() % 4 == 0 && data.len() >= 2 * (width * height),
            RawFormat::Nv12 => width % 2 == 0 && height % 2 == 0 && 2 * data.len() == 3 * (width * height),
        },
        r matches Ok(f) ==> {
            let i = 3 * pixel;
            let shown = (f.data@[i], f.data@[i + 1], f.data@[i + 2]);
            &&& f.width == width
            &&& f.height == height
            &&& f.data@.len() == 3 * (width * height)
            &&& 0 <= pixel < width * height ==> {
                &&& format is Gray ==> shown == (data[pixel], data[pixel], data[pixel])
                &&& format is RawRgb ==> shown == (data[i], data[i + 1], data[i + 2])
                &&& format is RawBgr ==> shown == (data[i + 2], data[i + 1], data[i])
            }
        },
{
    let n = width * height;
    if 0 <= pixel < n {
        law_plain_formats(width, height, data, pixel);
    }
}

} // verus!
