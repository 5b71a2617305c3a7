//! Bitmap images as textures and environment maps.
//!
//! The image type comes from the `bmp` crate.  Its pixels are modelled as a
//! sequence of rows, top row first, each a sequence of (red, green, blue)
//! bytes from the left.

use crate::color::{lemma_byte_channel_is_in_unit_interval, Color};
use crate::fixed::{Fixed, ONE_RAW};
use crate::trig::{asin, atan2, PI_RAW, TWO_PI_RAW};
use crate::vector::Vec3;
use vstd::prelude::*;

verus! {

#[verifier::external_type_specification]
#[verifier::external_body]
pub struct ExImage(bmp::Image);

/// The pixels of an image: rows from the top, each from the left.
pub uninterp spec fn image_rows(image: bmp::Image) -> Seq<Seq<(u8, u8, u8)>>;

/// The largest width and height with which `blank_image` may be called.
pub const MAX_BLANK_SIDE: u32 = 16384;

/// `bmp::Image::get_width`: the number of pixels in every row.
#[verifier::external_body]
fn image_width(image: &bmp::Image) -> (w: u32)
    ensures
        forall|y: int|
            0 <= y < image_rows(*image).len() ==> (#[trigger] image_rows(*image)[y]).len() == w,
{
    image.get_width()
}

/// `bmp::Image::get_height`: the number of rows.
#[verifier::external_body]
fn image_height(image: &bmp::Image) -> (h: u32)
    ensures
        image_rows(*image).len() == h,
{
    image.get_height()
}

/// `bmp::Image::get_pixel`: the pixel in column `x` of row `y`, rows counted
/// from the top.  The crate indexes its pixel vector with 32-bit arithmetic
/// and panics outside of it, so the position must lie in the image and the
/// pixel count must fit in 32 bits.
#[verifier::external_body]
fn image_pixel(image: &bmp::Image, x: u32, y: u32) -> (p: (u8, u8, u8))
    requires
        y < image_rows(*image).len(),
        x < image_rows(*image)[y as int].len(),
        image_rows(*image).len() * image_rows(*image)[y as int].len() <= u32::MAX,
    ensures
        p == image_rows(*image)[y as int][x as int],
{
    let pixel = image.get_pixel(x, y);
    (pixel.r, pixel.g, pixel.b)
}

/// `bmp::Image::new`: a black image of the given size.  The crate computes
/// the size of the encoded file in 32-bit arithmetic, which the bound on the
/// sides keeps from overflowing.
#[verifier::external_body]
fn blank_image(width: u32, height: u32) -> (image: bmp::Image)
    requires
        width <= MAX_BLANK_SIDE,
        height <= MAX_BLANK_SIDE,
    ensures
        image_rows(image).len() == height,
        forall|y: int| 0 <= y < height ==> (#[trigger] image_rows(image)[y]).len() == width,
        forall|y: int, x: int|
            0 <= y < height && 0 <= x < width ==> (#[trigger] image_rows(image)[y][x]) == (
                0u8,
                0u8,
                0u8,
            ),
{
    bmp::Image::new(width, height)
}

/// `bmp::Image::set_pixel`: replaces the pixel in column `x` of row `y` and
/// leaves every other pixel as it was.  Panics like `get_pixel`.
#[verifier::external_body]
fn put_pixel(image: &mut bmp::Image, x: u32, y: u32, rgb: (u8, u8, u8))
    requires
        y < image_rows(*old(image)).len(),
        x < image_rows(*old(image))[y as int].len(),
        image_rows(*old(image)).len() * image_rows(*old(image))[y as int].len() <= u32::MAX,
    ensures
        image_rows(*final(image)) == image_rows(*old(image)).update(
            y as int,
            image_rows(*old(image))[y as int].update(x as int, rgb),
        ),
{
    image.set_pixel(x, y, bmp::Pixel::new(rgb.0, rgb.1, rgb.2))
}

/// The rows are not empty and hold at most `u32::MAX` pixels in all.
pub open spec fn usable_grid(rows: Seq<Seq<(u8, u8, u8)>>) -> bool {
    rows.len() > 0 && rows[0].len() > 0 && rows.len() * rows[0].len() <= u32::MAX
}

/// The horizontal texture coordinate of a direction:
/// `1/2 + atan2(z, x) / (2 pi)`.
pub open spec fn spec_texture_u(d: Vec3) -> Fixed {
    Fixed::from_ratio(1, 2).add(atan2(d.z, d.x).div(Fixed { raw: TWO_PI_RAW }))
}

/// The vertical texture coordinate of a direction: `1/2 - asin(y) / pi`.
pub open spec fn spec_texture_v(d: Vec3) -> Fixed {
    Fixed::from_ratio(1, 2).sub(asin(d.y).div(Fixed { raw: PI_RAW }))
}

/// The index among `size` pixels that a coordinate selects: the coordinate,
/// clamped to `[0, 1]`, times `size`, rounded down and kept below `size`.
pub open spec fn spec_pixel_index(coordinate: Fixed, size: u32) -> u32 {
    let c: int = if coordinate.raw < 0 {
        0
    } else if coordinate.raw > ONE_RAW {
        ONE_RAW as int
    } else {
        coordinate.raw as int
    };
    let i = (c * size) / (ONE_RAW as int);
    if i >= size {
        (size - 1) as u32
    } else {
        i as u32
    }
}

/// Computes `spec_texture_u`.
#[verifier::when_used_as_spec(spec_texture_u)]
pub fn texture_u(d: Vec3) -> (u: Fixed)
    ensures
        u == spec_texture_u(d),
{
    Fixed::from_ratio(1, 2).add(atan2(d.z, d.x).div(Fixed::from_raw(TWO_PI_RAW)))
}

/// Computes `spec_texture_v`.
#[verifier::when_used_as_spec(spec_texture_v)]
pub fn texture_v(d: Vec3) -> (v: Fixed)
    ensures
        v == spec_texture_v(d),
{
    Fixed::from_ratio(1, 2).sub(asin(d.y).div(Fixed::from_raw(PI_RAW)))
}

/// Computes `spec_pixel_index`.
#[verifier::when_used_as_spec(spec_pixel_index)]
pub fn pixel_index(coordinate: Fixed, size: u32) -> (i: u32)
    requires
        size > 0,
    ensures
        i == spec_pixel_index(coordinate, size),
        i < size,
{
    let c: u64 = if coordinate.raw < 0 {
        0
    } else if coordinate.raw > ONE_RAW {
        ONE_RAW as u64
    } else {
        coordinate.raw as u64
    };
    assert(c * size <= 0x1_0000_0000 * 0xffff_ffff) by (nonlinear_arith)
        requires
            c <= 0x1_0000_0000,
            size <= 0xffff_ffff,
    ;
    let i: u64 = (c * (size as u64)) / (ONE_RAW as u64);
    if i >= size as u64 {
        size - 1
    } else {
        i as u32
    }
}

/// An image that is not empty, to be looked up by direction.
pub struct Texture {
    image: bmp::Image,
    width: u32,
    height: u32,
}

impl Texture {
    #[verifier::type_invariant]
    spec fn inv(self) -> bool {
        &&& self.width > 0
        &&& self.height > 0
        &&& self.height * self.width <= u32::MAX
        &&& image_rows(self.image).len() == self.height
        &&& forall|y: int|
            0 <= y < self.height ==> (#[trigger] image_rows(self.image)[y]).len() == self.width
    }

    /// The pixels of the texture, rows from the top.
    pub closed spec fn rows(&self) -> Seq<Seq<(u8, u8, u8)>> {
        image_rows(self.image)
    }

    /// Number of pixels per row.
    pub closed spec fn spec_width(&self) -> u32 {
        self.width
    }

    /// Number of rows.
    pub closed spec fn spec_height(&self) -> u32 {
        self.height
    }

    /// The colour that the texture shows in direction `d`: the pixel whose
    /// column is selected by `1 - u` and whose row by `v`.
    pub open spec fn spec_lookup(&self, d: Vec3) -> Color {
        let x = pixel_index(Fixed::one().sub(texture_u(d)), self.spec_width());
        let y = pixel_index(texture_v(d), self.spec_height());
        let p = self.rows()[y as int][x as int];
        Color::from_bytes(p.0, p.1, p.2)
    }

    /// Wraps an image, unless it is empty or holds more than `u32::MAX`
    /// pixels.
    pub fn new(image: bmp::Image) -> (r: Option<Texture>)
        ensures
            r is Some <==> usable_grid(image_rows(image)),
            r matches Some(t) ==> t.rows() == image_rows(image) && t.spec_height()
                == image_rows(image).len() && t.spec_width() == image_rows(image)[0].len(),
    {
        let width = image_width(&image);
        let height = image_height(&image);
        assert(height * width <= 0xffff_ffff * 0xffff_ffff) by (nonlinear_arith)
            requires
                height <= 0xffff_ffff,
                width <= 0xffff_ffff,
        ;
        if width == 0 || height == 0 || (height as u64) * (width as u64) > u32::MAX as u64 {
            None
        } else {
            Some(Texture { image, width, height })
        }
    }

    /// Computes `spec_width`.
    #[verifier::when_used_as_spec(spec_width)]
    pub fn width(&self) -> (w: u32)
        ensures
            w == self.spec_width(),
            w > 0,
    {
        proof {
            use_type_invariant(self);
        }
        self.width
    }

    /// Computes `spec_height`.
    #[verifier::when_used_as_spec(spec_height)]
    pub fn height(&self) -> (h: u32)
        ensures
            h == self.spec_height(),
            h > 0,
    {
        proof {
            use_type_invariant(self);
        }
        self.height
    }

    /// Computes `spec_lookup`.
    #[verifier::when_used_as_spec(spec_lookup)]
    pub fn lookup(&self, d: Vec3) -> (c: Color)
        ensures
            c == self.spec_lookup(d),
    {
        proof {
            use_type_invariant(self);
        }
        let x = pixel_index(Fixed::one().sub(texture_u(d)), self.width);
        let y = pixel_index(texture_v(d), self.height);
        let p = image_pixel(&self.image, x, y);
        Color::from_bytes(p.0, p.1, p.2)
    }
}

/// The image that shows `pixels`, given row by row from the top, as bytes.
pub fn pixels_to_image(width: u32, height: u32, pixels: &Vec<Color>) -> (image: bmp::Image)
    requires
        width <= MAX_BLANK_SIDE,
        height <= MAX_BLANK_SIDE,
        pixels.len() == height * width,
    ensures
        image_rows(image).len() == height,
        forall|y: int| 0 <= y < height ==> (#[trigger] image_rows(image)[y]).len() == width,
        forall|y: int, x: int|
            0 <= y < height && 0 <= x < width ==> (#[trigger] image_rows(image)[y][x])
                == pixels[y * width + x].to_bytes(),
{
    let mut image = blank_image(width, height);
    let mut y: u32 = 0;
    assert(height * width <= MAX_BLANK_SIDE * MAX_BLANK_SIDE) by (nonlinear_arith)
        requires
            width <= MAX_BLANK_SIDE,
            height <= MAX_BLANK_SIDE,
    ;
    while y < height
        invariant
            y <= height,
            width <= MAX_BLANK_SIDE,
            height <= MAX_BLANK_SIDE,
            height * width <= MAX_BLANK_SIDE * MAX_BLANK_SIDE,
            pixels.len() == height * width,
            image_rows(image).len() == height,
            forall|j: int| 0 <= j < height ==> (#[trigger] image_rows(image)[j]).len() == width,
            forall|j: int, i: int|
                0 <= j < y && 0 <= i < width ==> (#[trigger] image_rows(image)[j][i])
                    == pixels[j * width + i].to_bytes(),
        decreases height - y,
    {
        let mut x: u32 = 0;
        while x < width
            invariant
                x <= width,
                y < height,
                width <= MAX_BLANK_SIDE,
                height <= MAX_BLANK_SIDE,
                height * width <= MAX_BLANK_SIDE * MAX_BLANK_SIDE,
                pixels.len() == height * width,
                image_rows(image).len() == height,
                forall|j: int| 0 <= j < height ==> (#[trigger] image_rows(image)[j]).len() == width,
                forall|j: int, i: int|
                    0 <= j < y && 0 <= i < width ==> (#[trigger] image_rows(image)[j][i])
                        == pixels[j * width + i].to_bytes(),
                forall|i: int|
                    0 <= i < x ==> (#[trigger] image_rows(image)[y as int][i]) == pixels[y * width
                        + i].to_bytes(),
            decreases width - x,
        {
            assert(y * width + x < height * width) by (nonlinear_arith)
                requires
                    x < width,
                    y < height,
            ;
            let index: usize = (y as usize) * (width as usize) + (x as usize);
            let rgb = pixels[index].to_bytes();
            put_pixel(&mut image, x, y, rgb);
            x = x + 1;
        }
        y = y + 1;
    }
    image
}

/// A texture shows colours of the unit range in every direction.
pub proof fn lemma_lookup_is_in_unit_range(texture: &Texture, d: Vec3)
    ensures
        texture.spec_lookup(d).in_unit_range(),
{
    let x = pixel_index(Fixed::one().sub(texture_u(d)), texture.spec_width());
    let y = pixel_index(texture_v(d), texture.spec_height());
    let p = texture.rows()[y as int][x as int];
    lemma_byte_channel_is_in_unit_interval(p.0);
    lemma_byte_channel_is_in_unit_interval(p.1);
    lemma_byte_channel_is_in_unit_interval(p.2);
}

} // verus!
