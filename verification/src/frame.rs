//! Pictures as bytes, and what is done to a whole picture.
use crate::text::Rgb;
use image::imageops::FilterType;
use image::ImageBuffer;
use vstd::arithmetic::div_mod::{
    lemma_fundamental_div_mod, lemma_fundamental_div_mod_converse, lemma_mod_bound,
};
use vstd::prelude::*;

verus! {

/// A picture: rows of pixels from the top, three bytes to a pixel.
#[verifier::ext_equal]
pub struct Picture {
    pub width: nat,
    pub height: nat,
    pub data: Seq<u8>,
}

/// Where the bytes of a pixel start.
pub open spec fn offset(width: nat, x: int, y: int) -> int {
    3 * (y * width + x)
}

impl Picture {
    /// The data are those of all pixels, and no more.
    pub open spec fn wf(self) -> bool {
        self.data.len() == 3 * (self.width * self.height)
    }

    /// The colour of a pixel.
    pub open spec fn pixel(self, x: int, y: int) -> Rgb {
        let i = offset(self.width, x, y);
        (self.data[i], self.data[i + 1], self.data[i + 2])
    }

    /// The picture with left and right exchanged.
    pub open spec fn mirrored(self) -> Picture {
        Picture {
            data: Seq::new(
                self.data.len(),
                |i: int|
                    {
                        let y = (i / 3) / self.width as int;
                        let x = (i / 3) % self.width as int;
                        self.data[offset(self.width, self.width - 1 - x, y) + i % 3]
                    },
            ),
            ..self
        }
    }
}

/// A picture in memory.
#[derive(Debug)]
pub struct Frame {
    pub width: u32,
    pub height: u32,
    pub data: Vec<u8>,
}

impl View for Frame {
    type V = Picture;

    open spec fn view(&self) -> Picture {
        Picture { width: self.width as nat, height: self.height as nat, data: self.data@ }
    }
}

/// How a picture is resampled.
#[derive(Clone, Copy, Debug, PartialEq, Eq, Structural)]
pub enum Filter {
    /// A windowed sinc function: slow and sharp.
    Lanczos3,
    /// Linear: fast.
    Triangle,
}

/// A pixel of a picture has its three bytes in the data.
pub proof fn lemma_pixel_in_data(p: Picture, x: int, y: int)
    requires
        p.wf(),
        0 <= x < p.width,
        0 <= y < p.height,
    ensures
        0 <= offset(p.width, x, y),
        offset(p.width, x, y) + 2 < p.data.len(),
        0 <= y * p.width + x < p.width * p.height,
{
    let w = p.width;
    let h = p.height;
    assert(0 <= y * w && y * w + x < w * h) by (nonlinear_arith)
        requires
            0 <= x < w,
            0 <= y,
            y + 1 <= h,
    ;
}

impl Frame {
    /// A picture of the given size, if the data suffice. What they hold beyond it
    /// is left out.
    pub fn new(width: u32, height: u32, data: Vec<u8>) -> (frame: Option<Frame>)
        ensures
            frame is Some <==> data@.len() >= 3 * (width * height),
            frame matches Some(f) ==> f@.wf() && f@ == (Picture {
                width: width as nat,
                height: height as nat,
                data: data@.subrange(0, 3 * (width * height)),
            }),
    {
        assert(0 <= width * height <= 0xffff_ffff * 0xffff_ffff) by (nonlinear_arith)
            requires
                0 <= width <= 0xffff_ffff,
                0 <= height <= 0xffff_ffff,
        ;
        let size: u128 = 3 * (width as u128 * height as u128);
        if data.len() as u128 >= size {
            let mut data = data;
            data.truncate(size as usize);
            Some(Frame { width, height, data })
        } else {
            None
        }
    }

    /// The colour of a pixel.
    pub fn get_pixel(&self, x: u32, y: u32) -> (c: Rgb)
        requires
            self@.wf(),
            x < self.width,
            y < self.height,
        ensures
            c == self@.pixel(x as int, y as int),
    {
        proof {
            lemma_pixel_in_data(self@, x as int, y as int);
            assert(self.data.len() == self@.data.len());
            let w = self.width as int;
            assert(0 <= y * w <= y * w + x) by (nonlinear_arith)
                requires
                    w >= 0,
            ;
        }
        let i: usize = 3 * (y as usize * self.width as usize + x as usize);
        (self.data[i], self.data[i + 1], self.data[i + 2])
    }
}

/// A side can be resampled to a new length. In single precision the place of a
/// new pixel on a side of more than `2^22` may come to lie past its end, unless
/// the new pixels are far enough apart.
pub open spec fn side_resizable(side: nat, new_side: nat) -> bool {
    side <= 0x40_0000 || new_side <= 0x20_0000
}

/// The picture can be resampled to the given size: it has that size already, or
/// both sides can, and neither the result nor what is computed on the way to it
/// is too large to be addressed.
pub open spec fn resizable(p: Picture, width: nat, height: nat) -> bool {
    &&& p.wf()
    &&& 1 <= width <= u32::MAX
    &&& 1 <= height <= u32::MAX
    &&& (width, height) == (p.width, p.height) || {
        &&& side_resizable(p.width, width)
        &&& side_resizable(p.height, height)
        &&& 16 * (p.width * height) <= isize::MAX
        &&& 3 * (width * height) <= isize::MAX
    }
}

/// What `image::imageops::resize` can give: the data of the picture resampled to
/// `new_width` by `new_height`, by a Lanczos filter of window 3 or else by a
/// triangle filter. The triangle filter computes with sums, products and
/// quotients alone, whose results are fixed, and has one outcome. The Lanczos
/// filter takes sines, whose precision the standard library leaves open, and has
/// an outcome for every way of computing them.
pub uninterp spec fn resized(
    width: nat,
    height: nat,
    data: Seq<u8>,
    new_width: nat,
    new_height: nat,
    lanczos: bool,
) -> Set<Seq<u8>>;

/// Calls `image::imageops::resize`. It gives one of the outcomes of the resampling,
/// and with the triangle filter the only one; a picture of the size that was asked
/// for; and the picture itself where that is its size already. Which bytes come
/// out of a change of size is not said.
#[verifier::external_body]
pub(crate) fn resize(frame: &Frame, width: u32, height: u32, filter: Filter) -> (out: Frame)
    requires
        resizable(frame@, width as nat, height as nat),
    ensures
        out@.wf(),
        out.width == width,
        out.height == height,
        resized(
            frame@.width,
            frame@.height,
            frame@.data,
            width as nat,
            height as nat,
            filter is Lanczos3,
        ).contains(out@.data),
        filter is Triangle ==> resized(
            frame@.width,
            frame@.height,
            frame@.data,
            width as nat,
            height as nat,
            false,
        ) == set![out@.data],
        width == frame.width && height == frame.height ==> out@ == frame@,
{
    let image: ImageBuffer<image::Rgb<u8>, Vec<u8>> = ImageBuffer::from_raw(
        frame.width,
        frame.height,
        frame.data.clone(),
    ).unwrap();
    let kernel = match filter {
        Filter::Lanczos3 => FilterType::Lanczos3,
        Filter::Triangle => FilterType::Triangle,
    };
    let out = image::imageops::resize(&image, width, height, kernel);
    Frame { width: out.width(), height: out.height(), data: out.into_raw() }
}

/// Calls `image::imageops::flip_horizontal`, which exchanges left and right.
#[verifier::external_body]
pub(crate) fn flip_horizontal(frame: &Frame) -> (out: Frame)
    requires
        frame@.wf(),
        frame@.height >= 1,
    ensures
        out@ == frame@.mirrored(),
{
    let image: ImageBuffer<image::Rgb<u8>, Vec<u8>> = ImageBuffer::from_raw(
        frame.width,
        frame.height,
        frame.data.clone(),
    ).unwrap();
    let out = image::imageops::flip_horizontal(&image);
    Frame { width: out.width(), height: out.height(), data: out.into_raw() }
}

/// Which byte of which pixel stands at an index, and back.
proof fn lemma_index(p: Picture, x: int, y: int, c: int, i: int)
    requires
        p.wf(),
    ensures
        0 <= x < p.width && 0 <= y < p.height && 0 <= c < 3 && i == offset(p.width, x, y) + c ==> {
            &&& 0 <= i < p.data.len()
            &&& (i / 3) / p.width as int == y
            &&& (i / 3) % p.width as int == x
            &&& i % 3 == c
        },
        0 <= i < p.data.len() && x == (i / 3) % p.width as int && y == (i / 3) / p.width as int && c == i
            % 3 ==> {
            &&& 0 <= x < p.width
            &&& 0 <= y < p.height
            &&& 0 <= c < 3
            &&& i == offset(p.width, x, y) + c
        },
{
    let w = p.width as int;
    let h = p.height as int;
    if 0 <= x < w && 0 <= y < h && 0 <= c < 3 && i == offset(p.width, x, y) + c {
        lemma_pixel_in_data(p, x, y);
        assert(i / 3 == y * w + x);
        lemma_fundamental_div_mod_converse(i / 3, w, y, x);
    }
    if 0 <= i < p.data.len() && x == (i / 3) % w && y == (i / 3) / w && c == i % 3 {
        let q = i / 3;
        assert(0 <= q < w * h);
        assert(w > 0) by (nonlinear_arith)
            requires
                0 <= q < w * h,
                w >= 0,
        ;
        lemma_fundamental_div_mod(q, w);
        lemma_mod_bound(q, w);
        assert(0 <= y < h) by (nonlinear_arith)
            requires
                q == w * y + x,
                0 <= x < w,
                0 <= q < w * h,
        ;
        assert(w * y == y * w) by (nonlinear_arith);
    }
}

/// Mirroring takes every pixel to the other side of its row.
pub proof fn law_mirrored_pixel(p: Picture, x: int, y: int)
    requires
        p.wf(),
        0 <= x < p.width,
        0 <= y < p.height,
    ensures
        p.mirrored().wf(),
        p.mirrored().pixel(x, y) == p.pixel(p.width - 1 - x, y),
{
    let i = offset(p.width, x, y);
    lemma_index(p, x, y, 0, i);
    lemma_index(p, x, y, 1, i + 1);
    lemma_index(p, x, y, 2, i + 2);
}

/// Mirrored twice, a picture is itself.
pub proof fn law_mirrored_twice(p: Picture)
    requires
        p.wf(),
    ensures
        p.mirrored().mirrored() == p,
{
    let m = p.mirrored();
    assert forall|i: int| 0 <= i < p.data.len() implies #[trigger] m.mirrored().data[i] == p.data[i] by {
        let x = (i / 3) % p.width as int;
        let y = (i / 3) / p.width as int;
        let c = i % 3;
        lemma_index(p, x, y, c, i);
        let j = offset(p.width, p.width - 1 - x, y) + c;
        lemma_index(p, p.width - 1 - x, y, c, j);
    }
    assert(m.mirrored().data =~= p.data);
}

/// Whether a picture can be resampled to the given size.
pub fn can_resize(frame: &Frame, width: u32, height: u32) -> (r: bool)
    requires
        frame@.wf(),
    ensures
        r == resizable(frame@, width as nat, height as nat),
{
    assert(frame.width * height <= 0xffff_ffff * 0xffff_ffff) by (nonlinear_arith)
        requires
            frame.width <= 0xffff_ffff,
            height <= 0xffff_ffff,
    ;
    assert(width * height <= 0xffff_ffff * 0xffff_ffff) by (nonlinear_arith)
        requires
            width <= 0xffff_ffff,
            height <= 0xffff_ffff,
    ;
    let limit: u128 = isize::MAX as u128;
    width >= 1 && height >= 1 && ((width == frame.width && height == frame.height) || (
    (frame.width <= 0x40_0000 || width <= 0x20_0000) && (frame.height <= 0x40_0000 || height <= 0x20_0000)
        && 16 * (frame.width as u128 * height as u128) <= limit && 3 * (width as u128 * height as u128)
        <= limit))
}

} // verus!
