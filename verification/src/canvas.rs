//! The picture type that every effect reads and writes.

use vstd::prelude::*;

verus! {

/// One pixel: red, green, blue and alpha.
#[derive(Clone, Copy, PartialEq, Eq, Debug, Structural)]
pub struct Rgba {
    pub r: u8,
    pub g: u8,
    pub b: u8,
    pub a: u8,
}

impl Rgba {
    /// Builds a pixel from its four channels.
    pub fn new(r: u8, g: u8, b: u8, a: u8) -> (p: Rgba)
        ensures
            p == (Rgba { r, g, b, a }),
    {
        Rgba { r, g, b, a }
    }
}

/// What a picture is: its size and its pixels, row after row.
#[verifier::ext_equal]
pub struct Picture {
    pub width: nat,
    pub height: nat,
    pub px: Seq<Rgba>,
}

/// The bytes of a row, and those of the whole picture, can be addressed.
pub open spec fn can_hold(width: int, height: int) -> bool {
    4 * width <= usize::MAX && 4 * (width * height) <= isize::MAX
}

impl Picture {
    /// A pixel for every cell of a grid whose sides fit in 32 bits, and bytes
    /// that can be addressed.
    pub open spec fn wf(self) -> bool {
        &&& self.width <= u32::MAX
        &&& self.height <= u32::MAX
        &&& self.px.len() == self.width * self.height
        &&& can_hold(self.width as int, self.height as int)
    }

    /// Does the cell lie in the picture?
    pub open spec fn has(self, x: int, y: int) -> bool {
        0 <= x < self.width && 0 <= y < self.height
    }

    /// Where the cell stands in the row-after-row order.
    pub open spec fn index(self, x: int, y: int) -> int {
        y * self.width + x
    }

    /// The pixel in column `x` of row `y`.
    pub open spec fn at(self, x: int, y: int) -> Rgba {
        self.px[self.index(x, y)]
    }

    /// The picture with one pixel replaced.
    pub open spec fn set(self, x: int, y: int, p: Rgba) -> Picture {
        Picture { width: self.width, height: self.height, px: self.px.update(self.index(x, y), p) }
    }

    /// Have the two pictures the same sides?
    pub open spec fn same_size(self, other: Picture) -> bool {
        self.width == other.width && self.height == other.height
    }
}

/// A cell of a picture has a place among its pixels, and no other cell has
/// the same place.
pub broadcast proof fn lemma_index_in_range(pic: Picture, x: int, y: int)
    requires
        pic.wf(),
        pic.has(x, y),
    ensures
        0 <= #[trigger] pic.index(x, y) < pic.px.len(),
        pic.index(x, y) / pic.width as int == y,
        pic.index(x, y) % pic.width as int == x,
{
    let w = pic.width as int;
    let h = pic.height as int;
    assert(0 <= y * w + x < w * h) by (nonlinear_arith)
        requires
            0 <= x < w,
            0 <= y < h,
    ;
    vstd::arithmetic::div_mod::lemma_fundamental_div_mod_converse(y * w + x, w, y, x);
}

/// Every place among a picture's pixels belongs to a cell.
pub proof fn lemma_cell_of_index(pic: Picture, i: int)
    requires
        pic.wf(),
        0 <= i < pic.px.len(),
    ensures
        pic.width > 0,
        pic.has(i % pic.width as int, i / pic.width as int),
        pic.index(i % pic.width as int, i / pic.width as int) == i,
{
    let w = pic.width as int;
    let h = pic.height as int;
    assert(w > 0) by (nonlinear_arith)
        requires
            0 <= i < w * h,
            w >= 0,
    ;
    vstd::arithmetic::div_mod::lemma_fundamental_div_mod(i, w);
    assert(0 <= i % w < w && 0 <= i / w < h && (i / w) * w + i % w == i) by (nonlinear_arith)
        requires
            0 <= i < w * h,
            w > 0,
            i == w * (i / w) + i % w,
    ;
}

/// Replacing one pixel changes that pixel alone.
pub broadcast proof fn lemma_set_at(pic: Picture, x: int, y: int, p: Rgba, x2: int, y2: int)
    requires
        pic.wf(),
        pic.has(x, y),
        pic.has(x2, y2),
    ensures
        #[trigger] pic.set(x, y, p).at(x2, y2) == (if x == x2 && y == y2 {
            p
        } else {
            pic.at(x2, y2)
        }),
{
    lemma_index_in_range(pic, x, y);
    lemma_index_in_range(pic, x2, y2);
}

/// Two pictures of one size that agree in every cell are the same picture.
pub proof fn lemma_same_cells(a: Picture, b: Picture)
    requires
        a.wf(),
        b.wf(),
        a.same_size(b),
        forall|x: int, y: int| a.has(x, y) ==> #[trigger] a.at(x, y) == b.at(x, y),
    ensures
        a == b,
{
    assert forall|i: int| 0 <= i < a.px.len() implies a.px[i] == b.px[i] by {
        lemma_cell_of_index(a, i);
        let x = i % a.width as int;
        let y = i / a.width as int;
        assert(a.at(x, y) == b.at(x, y));
    }
    assert(a.px =~= b.px);
}

/// A picture of 8-bit RGBA pixels.
#[derive(PartialEq, Eq, Debug)]
pub struct RgbaImage {
    width: u32,
    height: u32,
    pixels: Vec<Rgba>,
}

impl View for RgbaImage {
    type V = Picture;

    closed spec fn view(&self) -> Picture {
        Picture { width: self.width as nat, height: self.height as nat, px: self.pixels@ }
    }
}

impl Clone for RgbaImage {
    fn clone(&self) -> (r: RgbaImage)
        ensures
            r@ == self@,
    {
        let mut pixels: Vec<Rgba> = Vec::with_capacity(self.pixels.len());
        for i in 0..self.pixels.len()
            invariant
                pixels@ == self.pixels@.take(i as int),
        {
            pixels.push(self.pixels[i]);
            assert(self.pixels@.take(i + 1) =~= self.pixels@.take(i as int).push(self.pixels@[i as int]));
        }
        assert(self.pixels@.take(self.pixels@.len() as int) =~= self.pixels@);
        RgbaImage { width: self.width, height: self.height, pixels }
    }
}

/// Can the bytes of a picture with these sides be addressed?
pub fn holds(width: u32, height: u32) -> (r: bool)
    ensures
        r == can_hold(width as int, height as int),
{
    let n: u128 = width as u128;
    let m: u128 = height as u128;
    proof {
        assert(n * m <= u64::MAX) by (nonlinear_arith)
            requires
                n <= u32::MAX,
                m <= u32::MAX,
        ;
    }
    4 * n <= usize::MAX as u128 && 4 * (n * m) <= isize::MAX as u128
}

impl RgbaImage {
    /// A picture whose pixels are all `p`.
    pub fn from_pixel(width: u32, height: u32, p: Rgba) -> (r: RgbaImage)
        requires
            can_hold(width as int, height as int),
        ensures
            r@.wf(),
            r@.width == width,
            r@.height == height,
            forall|i: int| 0 <= i < r@.px.len() ==> r@.px[i] == p,
            forall|x: int, y: int| r@.has(x, y) ==> #[trigger] r@.at(x, y) == p,
    {
        let n: usize = (width as usize) * (height as usize);
        let mut pixels: Vec<Rgba> = Vec::with_capacity(n);
        for i in 0..n
            invariant
                pixels@.len() == i,
                forall|j: int| 0 <= j < i ==> pixels@[j] == p,
        {
            pixels.push(p);
        }
        let r = RgbaImage { width, height, pixels };
        proof {
            assert forall|x: int, y: int| r@.has(x, y) implies #[trigger] r@.at(x, y) == p by {
                lemma_index_in_range(r@, x, y);
            }
        }
        r
    }

    /// A picture made of the given pixels, row after row; `None` when their
    /// number does not match the sides, or their bytes cannot be addressed.
    pub fn from_pixels(width: u32, height: u32, pixels: Vec<Rgba>) -> (r: Option<RgbaImage>)
        ensures
            r is Some <==> pixels@.len() == width * height && can_hold(width as int, height as int),
            r matches Some(img) ==> img@.wf() && img@ == (Picture {
                width: width as nat,
                height: height as nat,
                px: pixels@,
            }),
    {
        let n: u128 = width as u128;
        let m: u128 = height as u128;
        proof {
            assert(n * m <= u64::MAX) by (nonlinear_arith)
                requires
                    n <= u32::MAX,
                    m <= u32::MAX,
            ;
        }
        if pixels.len() as u128 == n * m && holds(width, height) {
            Some(RgbaImage { width, height, pixels })
        } else {
            None
        }
    }

    pub fn width(&self) -> (w: u32)
        ensures
            w == self@.width,
    {
        self.width
    }

    pub fn height(&self) -> (h: u32)
        ensures
            h == self@.height,
    {
        self.height
    }

    /// Width and height.
    pub fn dimensions(&self) -> (d: (u32, u32))
        ensures
            d.0 == self@.width,
            d.1 == self@.height,
    {
        (self.width, self.height)
    }

    /// The pixels, row after row.
    pub fn pixels(&self) -> (r: &Vec<Rgba>)
        ensures
            r@ == self@.px,
    {
        &self.pixels
    }

    /// The pixel in column `x` of row `y`.
    pub fn get_pixel(&self, x: u32, y: u32) -> (p: Rgba)
        requires
            self@.wf(),
            self@.has(x as int, y as int),
        ensures
            p == self@.at(x as int, y as int),
    {
        proof {
            lemma_index_in_range(self@, x as int, y as int);
            assert(self.pixels@.len() == self.pixels.len());
            assert(0 <= y * self.width) by (nonlinear_arith)
                requires
                    y >= 0,
                    self.width >= 0,
            ;
        }
        self.pixels[(y as usize) * (self.width as usize) + x as usize]
    }

    /// Replaces the pixel in column `x` of row `y`.
    pub fn put_pixel(&mut self, x: u32, y: u32, p: Rgba)
        requires
            old(self)@.wf(),
            old(self)@.has(x as int, y as int),
        ensures
            final(self)@ == old(self)@.set(x as int, y as int, p),
            final(self)@.wf(),
    {
        proof {
            lemma_index_in_range(self@, x as int, y as int);
            assert(self.pixels@.len() == self.pixels.len());
            assert(0 <= y * self.width) by (nonlinear_arith)
                requires
                    y >= 0,
                    self.width >= 0,
            ;
        }
        let i: usize = (y as usize) * (self.width as usize) + x as usize;
        self.pixels.set(i, p);
    }

    /// Replaces the pixel at place `i` of the row-after-row order.
    pub fn put_nth(&mut self, i: usize, p: Rgba)
        requires
            old(self)@.wf(),
            i < old(self)@.px.len(),
        ensures
            final(self)@ == (Picture { px: old(self)@.px.update(i as int, p), ..old(self)@ }),
            final(self)@.wf(),
    {
        self.pixels.set(i, p);
    }
}

/// One channel of a pixel: red, green, blue, alpha.
pub open spec fn channel(p: Rgba, c: int) -> u8 {
    if c == 0 {
        p.r
    } else if c == 1 {
        p.g
    } else if c == 2 {
        p.b
    } else {
        p.a
    }
}

/// The bytes of a row of pixels, channel after channel.
pub open spec fn raw_bytes(px: Seq<Rgba>) -> Seq<u8> {
    Seq::new(4 * px.len(), |i: int| channel(px[i / 4], i % 4))
}

/// The pixels that a row of bytes holds.
pub open spec fn raw_pixels(raw: Seq<u8>) -> Seq<Rgba> {
    Seq::new(
        raw.len() / 4,
        |i: int|
            Rgba { r: raw[4 * i], g: raw[4 * i + 1], b: raw[4 * i + 2], a: raw[4 * i + 3] },
    )
}

/// Pixels are read back from their bytes.
pub proof fn lemma_raw_round_trip(px: Seq<Rgba>)
    ensures
        raw_pixels(raw_bytes(px)) == px,
        raw_bytes(px).len() == 4 * px.len(),
{
    let raw = raw_bytes(px);
    assert forall|i: int| 0 <= i < px.len() implies raw_pixels(raw)[i] == px[i] by {
        assert((4 * i) / 4 == i && (4 * i) % 4 == 0);
        assert((4 * i + 1) / 4 == i && (4 * i + 1) % 4 == 1);
        assert((4 * i + 2) / 4 == i && (4 * i + 2) % 4 == 2);
        assert((4 * i + 3) / 4 == i && (4 * i + 3) % 4 == 3);
    }
    assert(raw_pixels(raw) =~= px);
}

/// Bytes are written back as they were read, where they make up whole pixels.
pub proof fn lemma_pixels_round_trip(raw: Seq<u8>)
    requires
        raw.len() % 4 == 0,
    ensures
        raw_bytes(raw_pixels(raw)) == raw,
{
    let px = raw_pixels(raw);
    assert forall|i: int| 0 <= i < raw.len() implies raw_bytes(px)[i] == raw[i] by {
        assert(4 * (i / 4) + i % 4 == i);
    }
    assert(raw_bytes(px) =~= raw);
}

impl RgbaImage {
    /// The picture's bytes, row after row, pixel after pixel and channel after
    /// channel.
    pub fn to_raw(&self) -> (r: Vec<u8>)
        ensures
            r@ == raw_bytes(self@.px),
    {
        let mut r: Vec<u8> = Vec::new();
        for i in 0..self.pixels.len()
            invariant
                r@ == raw_bytes(self.pixels@.take(i as int)),
        {
            let p = self.pixels[i];
            r.push(p.r);
            r.push(p.g);
            r.push(p.b);
            r.push(p.a);
            assert(r@ =~= raw_bytes(self.pixels@.take(i + 1)));
        }
        assert(self.pixels@.take(self.pixels@.len() as int) =~= self.pixels@);
        r
    }

    /// A picture made of the given bytes; `None` when their number does not
    /// match the sides, or they cannot be addressed.
    pub fn from_raw(width: u32, height: u32, raw: &Vec<u8>) -> (r: Option<RgbaImage>)
        ensures
            r is Some <==> raw@.len() == 4 * (width * height) && can_hold(
                width as int,
                height as int,
            ),
            r matches Some(img) ==> img@.wf() && img@ == (Picture {
                width: width as nat,
                height: height as nat,
                px: raw_pixels(raw@),
            }),
    {
        if raw.len() % 4 != 0 {
            return None;
        }
        let n: usize = raw.len() / 4;
        let mut pixels: Vec<Rgba> = Vec::with_capacity(n);
        for i in 0..n
            invariant
                n == raw@.len() / 4,
                raw@.len() <= usize::MAX,
                pixels@ == raw_pixels(raw@).take(i as int),
        {
            let p = Rgba::new(raw[4 * i], raw[4 * i + 1], raw[4 * i + 2], raw[4 * i + 3]);
            pixels.push(p);
            assert(raw_pixels(raw@).take(i + 1) =~= raw_pixels(raw@).take(i as int).push(p));
        }
        assert(raw_pixels(raw@).take(n as int) =~= raw_pixels(raw@));
        RgbaImage::from_pixels(width, height, pixels)
    }
}

/// Pixels stand row after row: the cell to the right is the next one, and the cell below
/// comes a whole row later; the first cell is the one at the top left.
pub proof fn lemma_rows_follow(pic: Picture, x: int, y: int)
    ensures
        pic.at(0, 0) == pic.px[0],
        pic.index(x + 1, y) == pic.index(x, y) + 1,
        pic.index(x, y + 1) == pic.index(x, y) + pic.width,
        pic.at(x, y) == pic.px[x + pic.width * y],
{
    assert((y + 1) * pic.width == y * pic.width + pic.width) by (nonlinear_arith);
    assert(y * pic.width == pic.width * y) by (nonlinear_arith);
}

/// The bytes of a pixel: four, red first and alpha last, pixel after pixel.
pub proof fn lemma_byte_order(px: Seq<Rgba>, raw: Seq<u8>, i: int)
    ensures
        0 <= i < px.len() ==> {
            &&& raw_bytes(px)[4 * i] == px[i].r
            &&& raw_bytes(px)[4 * i + 1] == px[i].g
            &&& raw_bytes(px)[4 * i + 2] == px[i].b
            &&& raw_bytes(px)[4 * i + 3] == px[i].a
        },
        raw_pixels(raw).len() == raw.len() / 4,
        0 <= i < raw.len() / 4 ==> {
            &&& raw_pixels(raw)[i].r == raw[4 * i]
            &&& raw_pixels(raw)[i].g == raw[4 * i + 1]
            &&& raw_pixels(raw)[i].b == raw[4 * i + 2]
            &&& raw_pixels(raw)[i].a == raw[4 * i + 3]
        },
{
}

} // verus!
