use vstd::prelude::*;

verus! {

/// Alpha given to every decoded pixel: the format carries no alpha channel.
pub const DEFAULT_ALPHA_VALUE: u8 = 0;

/// The four 8-bit channels of a pixel.
#[derive(Clone, Copy, Debug, PartialEq, Eq, Structural)]
pub struct Rgba {
    pub r: u8,
    pub g: u8,
    pub b: u8,
    pub a: u8,
}

/// A pixel held as one packed 32-bit value. The channels sit in its bytes from the
/// least significant up: red, green, blue, alpha. Equality is that of the packed value.
#[derive(Clone, Copy, Debug, PartialEq, Eq, Structural)]
pub struct Pixel {
    pub color: u32,
}

/// The packed value of four channels.
pub open spec fn pack(c: Rgba) -> u32 {
    (c.r as int + c.g as int * 0x100 + c.b as int * 0x1_0000 + c.a as int * 0x100_0000) as u32
}

/// The channels of a packed value.
pub open spec fn unpack(color: u32) -> Rgba {
    Rgba {
        r: (color % 0x100) as u8,
        g: (color / 0x100 % 0x100) as u8,
        b: (color / 0x1_0000 % 0x100) as u8,
        a: (color / 0x100_0000) as u8,
    }
}

/// Packing and unpacking are inverse to each other.
pub proof fn lemma_pack_unpack(c: Rgba, color: u32)
    ensures
        unpack(pack(c)) == c,
        pack(unpack(color)) == color,
{
    let (r, g, b, a) = (c.r, c.g, c.b, c.a);
    assert(0 <= r as int + g as int * 0x100 + b as int * 0x1_0000 + a as int * 0x100_0000
        <= u32::MAX) by (nonlinear_arith);
    let p = (r as int + g as int * 0x100 + b as int * 0x1_0000 + a as int * 0x100_0000);
    assert(p % 0x100 == r as int && p / 0x100 % 0x100 == g as int && p / 0x1_0000 % 0x100
        == b as int && p / 0x100_0000 == a as int) by (nonlinear_arith)
        requires
            p == r as int + g as int * 0x100 + b as int * 0x1_0000 + a as int * 0x100_0000,
            0 <= r < 256,
            0 <= g < 256,
            0 <= b < 256,
            0 <= a < 256,
    ;
    let x = color as int;
    assert(x % 0x100 + (x / 0x100 % 0x100) * 0x100 + (x / 0x1_0000 % 0x100) * 0x1_0000 + (x
        / 0x100_0000) * 0x100_0000 == x) by (nonlinear_arith)
        requires
            0 <= x,
    ;
    assert(x / 0x100_0000 < 0x100) by (nonlinear_arith)
        requires
            0 <= x <= u32::MAX,
    ;
}

impl Pixel {
    /// The packed value.
    pub fn color(&self) -> (r: u32)
        ensures
            r == self.color,
    {
        self.color
    }

    /// The four channels.
    pub fn rgba(&self) -> (r: Rgba)
        ensures
            r == unpack(self.color),
    {
        let c = self.color;
        let r = (c & 0xff) as u8;
        let g = ((c >> 8u32) & 0xff) as u8;
        let b = ((c >> 16u32) & 0xff) as u8;
        let a = (c >> 24u32) as u8;
        assert(c & 0xff == c % 0x100) by (bit_vector);
        assert((c >> 8u32) & 0xff == c / 0x100 % 0x100) by (bit_vector);
        assert((c >> 16u32) & 0xff == c / 0x1_0000 % 0x100) by (bit_vector);
        assert(c >> 24u32 == c / 0x100_0000) by (bit_vector);
        Rgba { r, g, b, a }
    }

    /// Replaces the packed value.
    pub fn set_color(&mut self, color: u32)
        ensures
            final(self).color == color,
    {
        self.color = color;
    }

    /// Replaces the four channels.
    pub fn set_rgba(&mut self, rgba: Rgba)
        ensures
            final(self).color == pack(rgba),
            unpack(final(self).color) == rgba,
    {
        *self = Pixel::from(rgba);
        proof {
            lemma_pack_unpack(rgba, 0);
        }
    }
}

impl From<u32> for Pixel {
    fn from(color: u32) -> (r: Pixel)
        ensures
            r.color == color,
    {
        Pixel { color }
    }
}

impl vstd::std_specs::convert::FromSpecImpl<u32> for Pixel {
    open spec fn obeys_from_spec() -> bool {
        true
    }

    open spec fn from_spec(color: u32) -> Pixel {
        Pixel { color }
    }
}

impl From<Rgba> for Pixel {
    fn from(rgba: Rgba) -> (r: Pixel)
        ensures
            r.color == pack(rgba),
    {
        let (r, g, b, a) = (rgba.r as u32, rgba.g as u32, rgba.b as u32, rgba.a as u32);
        let color = r | (g << 8u32) | (b << 16u32) | (a << 24u32);
        assert(r < 256 && g < 256 && b < 256 && a < 256 ==> r | (g << 8u32) | (b << 16u32) | (a
            << 24u32) == r + g * 0x100 + b * 0x1_0000 + a * 0x100_0000) by (bit_vector);
        Pixel { color }
    }
}

impl vstd::std_specs::convert::FromSpecImpl<Rgba> for Pixel {
    open spec fn obeys_from_spec() -> bool {
        true
    }

    open spec fn from_spec(rgba: Rgba) -> Pixel {
        Pixel { color: pack(rgba) }
    }
}

/// What an image is: its size and its pixels, row after row.
pub struct ImageView {
    pub width: usize,
    pub height: usize,
    pub pixels: Seq<Pixel>,
}

/// A grid of pixels, stored row after row.
#[derive(Clone, Debug)]
pub struct Image {
    data: Vec<Pixel>,
    width: usize,
    height: usize,
}

impl View for Image {
    type V = ImageView;

    closed spec fn view(&self) -> ImageView {
        ImageView { width: self.width, height: self.height, pixels: self.data@ }
    }
}

impl Image {
    /// Holds one pixel for each cell of the grid.
    pub open spec fn wf(&self) -> bool {
        self@.pixels.len() == self@.width * self@.height
    }

    pub fn new(width: usize, height: usize, data: Vec<Pixel>) -> (r: Image)
        requires
            width * height == data@.len(),
        ensures
            r@ == (ImageView { width, height, pixels: data@ }),
            r.wf(),
    {
        Image { width, height, data }
    }

    pub fn width(&self) -> (r: usize)
        ensures
            r == self@.width,
    {
        self.width
    }

    pub fn height(&self) -> (r: usize)
        ensures
            r == self@.height,
    {
        self.height
    }

    /// The pixels, row after row.
    pub fn pixels(&self) -> (r: &[Pixel])
        ensures
            r@ == self@.pixels,
    {
        self.data.as_slice()
    }

    /// The pixel at `index` in row-major order.
    pub fn pixel(&self, index: usize) -> (r: Pixel)
        requires
            index < self@.pixels.len(),
        ensures
            r == self@.pixels[index as int],
    {
        self.data[index]
    }

    /// Replaces the pixel at `index` in row-major order; the size stays.
    pub fn set_pixel(&mut self, index: usize, pixel: Pixel)
        requires
            index < old(self)@.pixels.len(),
        ensures
            final(self)@ == (ImageView {
                pixels: old(self)@.pixels.update(index as int, pixel),
                ..old(self)@
            }),
            old(self).wf() ==> final(self).wf(),
    {
        self.data.set(index, pixel);
    }
}

impl PartialEq for Image {
    fn eq(&self, other: &Image) -> (r: bool)
        ensures
            r == (self@ == other@),
    {
        if self.width != other.width || self.height != other.height || self.data.len()
            != other.data.len() {
            return false;
        }
        let mut i: usize = 0;
        while i < self.data.len()
            invariant
                self.data@.len() == other.data@.len(),
                i <= self.data@.len(),
                forall|j: int| 0 <= j < i ==> self.data@[j] == other.data@[j],
            decreases self.data@.len() - i,
        {
            if self.data[i].color != other.data[i].color {
                return false;
            }
            i = i + 1;
        }
        assert(self.data@ =~= other.data@);
        true
    }
}

impl vstd::std_specs::cmp::PartialEqSpecImpl for Image {
    open spec fn obeys_eq_spec() -> bool {
        true
    }

    open spec fn eq_spec(&self, other: &Image) -> bool {
        self@ == other@
    }
}

impl Eq for Image {}

} // verus!
