use vstd::prelude::*;

verus! {

/// One 8-bit RGB colour.
#[derive(Clone, Copy, Debug, PartialEq, Eq, Structural)]
pub struct Pixel {
    pub r: u8,
    pub g: u8,
    pub b: u8,
}

/// One 8-bit RGBA colour, used by the composite only.
#[derive(Clone, Copy, Debug, PartialEq, Eq, Structural)]
pub struct Rgba {
    pub r: u8,
    pub g: u8,
    pub b: u8,
    pub a: u8,
}

/// The value of channel `c` (0 red, 1 green, 2 blue) of `p`.
pub open spec fn channel(p: Pixel, c: int) -> int {
    if c == 0 {
        p.r as int
    } else if c == 1 {
        p.g as int
    } else {
        p.b as int
    }
}

/// `p` made fully opaque.
pub open spec fn opaque(p: Pixel) -> Rgba {
    Rgba { r: p.r, g: p.g, b: p.b, a: 255 }
}

/// Mathematical model of an image: its size and its pixels in row-major order.
pub struct Grid {
    pub width: nat,
    pub height: nat,
    pub pixels: Seq<Pixel>,
}

impl Grid {
    pub open spec fn wf(self) -> bool {
        &&& self.width >= 1
        &&& self.height >= 1
        &&& self.pixels.len() == self.width * self.height
    }

    pub open spec fn in_bounds(self, x: int, y: int) -> bool {
        0 <= x < self.width && 0 <= y < self.height
    }

    /// The pixel at column `x`, row `y`.
    pub open spec fn at(self, x: int, y: int) -> Pixel {
        self.pixels[y * self.width + x]
    }
}

/// Row-major position of `(x, y)` lies inside a `w` by `h` buffer.
pub proof fn lemma_index_in_range(x: int, y: int, w: int, h: int)
    requires
        0 <= x < w,
        0 <= y < h,
    ensures
        0 <= y * w + x < w * h,
{
    assert(0 <= y * w) by (nonlinear_arith)
        requires
            0 <= y,
            0 <= w,
    ;
    assert(y * w + w <= h * w) by (nonlinear_arith)
        requires
            y + 1 <= h,
            0 <= w,
    ;
    assert(h * w == w * h) by (nonlinear_arith);
}

proof fn lemma_product_bound(x: int, y: int, w: int)
    requires
        0 <= x,
        0 <= y,
        0 <= w,
    ensures
        0 <= y * w <= y * w + x,
{
    assert(0 <= y * w) by (nonlinear_arith)
        requires
            0 <= y,
            0 <= w,
    ;
}

/// A row-major position splits back into its column and row.
pub proof fn lemma_index_split(i: int, w: int, h: int)
    requires
        w >= 1,
        0 <= i < w * h,
    ensures
        0 <= i % w < w,
        0 <= i / w < h,
        (i / w) * w + i % w == i,
{
    vstd::arithmetic::div_mod::lemma_fundamental_div_mod(i, w);
    vstd::arithmetic::div_mod::lemma_mod_bound(i, w);
    vstd::arithmetic::div_mod::lemma_div_pos_is_pos(i, w);
    let q = i / w;
    let m = i % w;
    assert(w * q == q * w) by (nonlinear_arith);
    if q >= h {
        assert(q * w >= h * w) by (nonlinear_arith)
            requires
                q >= h,
                w >= 1,
        ;
        assert(h * w == w * h) by (nonlinear_arith);
    }
}

/// An image of at least one pixel, its pixels stored row by row.
pub struct Image {
    pub width: u32,
    pub height: u32,
    pub pixels: Vec<Pixel>,
}

impl View for Image {
    type V = Grid;

    open spec fn view(&self) -> Grid {
        Grid { width: self.width as nat, height: self.height as nat, pixels: self.pixels@ }
    }
}

impl Image {
    pub open spec fn wf(&self) -> bool {
        self@.wf()
    }

    /// An image of the given size with every pixel set to `fill`; `None` when
    /// a side is zero or the pixel count does not fit in memory.
    pub fn filled(width: u32, height: u32, fill: Pixel) -> (r: Option<Image>)
        ensures
            r is None <==> (width == 0 || height == 0 || width * height > usize::MAX),
            r matches Some(img) ==> {
                &&& img.wf()
                &&& img.width == width
                &&& img.height == height
                &&& forall|i: int| 0 <= i < img.pixels.len() ==> img.pixels@[i] == fill
            },
    {
        if width == 0 || height == 0 {
            return None;
        }
        let n = (width as usize).checked_mul(height as usize);
        match n {
            None => None,
            Some(n) => {
                let mut pixels: Vec<Pixel> = Vec::new();
                while pixels.len() < n
                    invariant
                        pixels.len() <= n,
                        forall|i: int| 0 <= i < pixels.len() ==> pixels@[i] == fill,
                    decreases n - pixels.len(),
                {
                    pixels.push(fill);
                }
                Some(Image { width, height, pixels })
            },
        }
    }

    /// An image from row-major pixels; `None` when a side is zero or the
    /// number of pixels is not `width * height`.
    pub fn from_pixels(width: u32, height: u32, pixels: Vec<Pixel>) -> (r: Option<Image>)
        ensures
            r is None <==> (width == 0 || height == 0 || pixels.len() != width * height),
            r matches Some(img) ==> img.wf() && img.width == width && img.height == height
                && img.pixels@ == pixels@,
    {
        if width == 0 || height == 0 {
            return None;
        }
        match (width as usize).checked_mul(height as usize) {
            None => {
                assert(pixels.len() <= usize::MAX);
                None
            },
            Some(n) => {
                if pixels.len() == n {
                    Some(Image { width, height, pixels })
                } else {
                    None
                }
            },
        }
    }

    pub fn width(&self) -> (r: u32)
        ensures
            r == self.width,
    {
        self.width
    }

    pub fn height(&self) -> (r: u32)
        ensures
            r == self.height,
    {
        self.height
    }

    /// The pixel at column `x`, row `y`.
    pub fn get_pixel(&self, x: u32, y: u32) -> (p: Pixel)
        requires
            self.wf(),
            x < self.width,
            y < self.height,
        ensures
            p == self@.at(x as int, y as int),
    {
        proof {
            assert(self.pixels.len() == self.width * self.height);
            lemma_index_in_range(x as int, y as int, self.width as int, self.height as int);
            lemma_product_bound(x as int, y as int, self.width as int);
        }
        self.pixels[y as usize * self.width as usize + x as usize]
    }

    /// Sets the pixel at column `x`, row `y`; every other pixel stays.
    pub fn set_pixel(&mut self, x: u32, y: u32, p: Pixel)
        requires
            old(self).wf(),
            x < old(self).width,
            y < old(self).height,
        ensures
            final(self).wf(),
            final(self).width == old(self).width,
            final(self).height == old(self).height,
            final(self).pixels@ == old(self).pixels@.update(
                y * old(self).width + x,
                p,
            ),
            final(self)@.at(x as int, y as int) == p,
    {
        proof {
            assert(self.pixels.len() == self.width * self.height);
            lemma_index_in_range(x as int, y as int, self.width as int, self.height as int);
            lemma_product_bound(x as int, y as int, self.width as int);
        }
        let i = y as usize * self.width as usize + x as usize;
        self.pixels.set(i, p);
    }
}

/// An RGBA image, its pixels stored row by row.
pub struct RgbaImage {
    pub width: u32,
    pub height: u32,
    pub pixels: Vec<Rgba>,
}

impl RgbaImage {
    pub open spec fn wf(&self) -> bool {
        self.pixels.len() == self.width * self.height
    }

    /// The pixel at column `x`, row `y`.
    pub open spec fn at(&self, x: int, y: int) -> Rgba {
        self.pixels@[y * self.width + x]
    }
}

} // verus!
