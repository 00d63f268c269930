//! Synthetic photos.

use vstd::prelude::*;

verus! {

/// An image to encode.
#[derive(Clone, Debug)]
pub struct Fixture {
    pub name: &'static str,
    pub width: u32,
    pub height: u32,
    pub rgba: Vec<u8>,
}

// ---------------------------------------------------------------------------
// Patterns
// ---------------------------------------------------------------------------

/// A pixel.
pub struct Pixel {
    pub r: u8,
    pub g: u8,
    pub b: u8,
}

/// One of the four bytes of an opaque pixel.
pub open spec fn pixel_byte(pixel: Pixel, k: int) -> u8 {
    if k == 0 {
        pixel.r
    } else if k == 1 {
        pixel.g
    } else if k == 2 {
        pixel.b
    } else {
        255
    }
}

/// What a fixture shows.
#[derive(Clone, Copy, Debug, PartialEq, Eq, Structural)]
pub enum Pattern {
    /// Gradients, a checkerboard and texture.
    Photo,
    /// The dark tones where quantization banding is easiest to see.
    DarkGradient,
    /// Saturated colors in small tiles.
    ChromaEdges,
    /// Two near grays with faint stripes.
    LowEntropy,
}

/// Left rotation by less than a word.
pub open spec fn rotated_left(x: u32, n: u32) -> u32 {
    if n == 0 {
        x
    } else {
        (x << n) | (x >> (32 - n) as u32)
    }
}

/// Product modulo the word size.
pub open spec fn wrapped_product(x: u32, y: u32) -> u32 {
    ((x * y) % 0x1_0000_0000) as u32
}

/// Sum of two bytes, at most the largest one.
pub open spec fn capped_sum(a: u8, b: u8) -> u8 {
    if a + b > 255 {
        255
    } else {
        (a + b) as u8
    }
}

/// Difference of two bytes, at least zero.
pub open spec fn capped_difference(a: u8, b: u8) -> u8 {
    if a < b {
        0
    } else {
        (a - b) as u8
    }
}

/// Sum of two bytes modulo their size.
pub open spec fn wrapped_sum(a: u8, b: u8) -> u8 {
    ((a + b) % 256) as u8
}

/// A number, or one in place of zero.
pub open spec fn at_least_one(n: int) -> int {
    if n < 1 {
        1
    } else {
        n
    }
}

/// The texture of a photo.
pub open spec fn texture_at(x: u32, y: u32) -> u8 {
    let hash = rotated_left(wrapped_product(x, 0x9e37_79b9), y & 15) ^ wrapped_product(
        y,
        0x85eb_ca6b,
    );
    ((hash ^ (hash >> 13)) & 0x1f) as u8
}

/// A pixel of a photo.
pub open spec fn photo_pixel(width: u32, height: u32, x: u32, y: u32) -> Pixel {
    let texture = texture_at(x, y);
    let gradient = (x * 173 / at_least_one(width as int) + y * 61 / at_least_one(
        height as int,
    )) as u8;
    let checker: u8 = if (x as int / 96 + y as int / 96) % 2 == 0 {
        18
    } else {
        0
    };
    Pixel {
        r: capped_sum(gradient, texture / 2),
        g: capped_sum(wrapped_sum(gradient, (x as int / 19 % 256) as u8), checker),
        b: capped_difference(wrapped_sum(gradient, (y as int / 17 % 256) as u8), texture / 3),
    }
}

/// A pixel of a dark gradient.
pub open spec fn dark_pixel(width: u32, height: u32, x: u32, y: u32) -> Pixel {
    let ramp = ((x + y) * 62 / at_least_one(width - 1 + (height - 1))) as u8;
    let wave = (((x / 37) ^ (y / 29)) & 3) as u8;
    Pixel {
        r: capped_sum(capped_sum(4, ramp), wave),
        g: capped_sum(3, ramp),
        b: capped_difference(capped_sum(8, ramp), wave),
    }
}

/// A pixel of small colored tiles.
pub open spec fn chroma_pixel(x: u32, y: u32) -> Pixel {
    let tile = (x as int / 3 + y as int / 5) % 4;
    if tile == 0 {
        Pixel { r: 240, g: 20, b: 40 }
    } else if tile == 1 {
        Pixel { r: 20, g: 220, b: 50 }
    } else if tile == 2 {
        Pixel { r: 25, g: 45, b: 235 }
    } else {
        Pixel { r: 230, g: 220, b: 25 }
    }
}

/// A pixel of two near grays.
pub open spec fn gray_pixel(width: u32, x: u32, y: u32) -> Pixel {
    let value: u8 = if x > width / 2 {
        151
    } else {
        147
    };
    let stripe: u8 = if y % 257 == 0 {
        3
    } else {
        0
    };
    Pixel { r: (value + stripe) as u8, g: value, b: (value - stripe) as u8 }
}

/// A pixel of a pattern.
pub open spec fn pattern_pixel(pattern: Pattern, width: u32, height: u32, x: u32, y: u32) -> Pixel {
    match pattern {
        Pattern::Photo => photo_pixel(width, height, x, y),
        Pattern::DarkGradient => dark_pixel(width, height, x, y),
        Pattern::ChromaEdges => chroma_pixel(x, y),
        Pattern::LowEntropy => gray_pixel(width, x, y),
    }
}

/// The bytes of a pattern, row by row.
pub open spec fn pattern_bytes(pattern: Pattern, width: u32, height: u32) -> Seq<u8> {
    Seq::new(
        (width * height * 4) as nat,
        |b: int|
            pixel_byte(
                pattern_pixel(
                    pattern,
                    width,
                    height,
                    (b / 4 % (width as int)) as u32,
                    (b / 4 / (width as int)) as u32,
                ),
                b % 4,
            ),
    )
}

/// Whether the numbers in a pattern of some dimensions stay within their words.
pub open spec fn pattern_fits(pattern: Pattern, width: u32, height: u32) -> bool {
    &&& width * height * 4 <= isize::MAX
    &&& width > 0 && height > 0 ==> match pattern {
        Pattern::Photo => (width - 1) * 173 <= u32::MAX && (height - 1) * 61 <= u32::MAX,
        Pattern::DarkGradient => width - 1 + (height - 1) <= u32::MAX,
        _ => true,
    }
}

// ---------------------------------------------------------------------------
// Painting
// ---------------------------------------------------------------------------

fn rotate_left(x: u32, n: u32) -> (r: u32)
    requires
        n < 32,
    ensures
        r == rotated_left(x, n),
{
    if n == 0 {
        x
    } else {
        (x << n) | (x >> (32 - n))
    }
}

fn multiply(x: u32, y: u32) -> (product: u32)
    ensures
        product == wrapped_product(x, y),
{
    assert(x * y <= 0xFFFF_FFFF * 0xFFFF_FFFF) by (nonlinear_arith)
        requires
            x <= 0xFFFF_FFFF,
            y <= 0xFFFF_FFFF,
    ;
    let wide: u64 = x as u64 * y as u64;
    (wide % 0x1_0000_0000) as u32
}

fn add_capped(a: u8, b: u8) -> (sum: u8)
    ensures
        sum == capped_sum(a, b),
{
    if b > 255 - a {
        255
    } else {
        a + b
    }
}

fn subtract_capped(a: u8, b: u8) -> (difference: u8)
    ensures
        difference == capped_difference(a, b),
{
    if a < b {
        0
    } else {
        a - b
    }
}

fn add_wrapped(a: u8, b: u8) -> (sum: u8)
    ensures
        sum == wrapped_sum(a, b),
{
    ((a as u32 + b as u32) % 256) as u8
}

fn nonzero(n: u32) -> (m: u32)
    ensures
        m == at_least_one(n as int),
        m >= 1,
{
    if n == 0 {
        1
    } else {
        n
    }
}

fn texture(x: u32, y: u32) -> (t: u8)
    ensures
        t == texture_at(x, y),
        t < 32,
{
    assert(y & 15 < 32) by (bit_vector);
    let hash: u32 = rotate_left(multiply(x, 0x9e37_79b9), y & 15) ^ multiply(y, 0x85eb_ca6b);
    let low: u32 = (hash ^ (hash >> 13)) & 0x1f;
    assert((hash ^ (hash >> 13)) & 0x1f < 32) by (bit_vector);
    low as u8
}

proof fn lemma_share(x: int, n: int, k: int)
    requires
        0 <= x < n,
        0 < k,
    ensures
        0 <= x * k / n < k,
{
    assert(0 <= x * k < n * k) by (nonlinear_arith)
        requires
            0 <= x < n,
            0 < k,
    ;
    vstd::arithmetic::div_mod::lemma_fundamental_div_mod(x * k, n);
    let q = x * k / n;
    let r = x * k % n;
    assert(0 <= q < k) by (nonlinear_arith)
        requires
            x * k == n * q + r,
            0 <= r < n,
            0 <= x * k < n * k,
    ;
}

fn paint_photo(width: u32, height: u32, x: u32, y: u32) -> (pixel: Pixel)
    requires
        x < width,
        y < height,
        pattern_fits(Pattern::Photo, width, height),
    ensures
        pixel == photo_pixel(width, height, x, y),
{
    proof {
        lemma_share(x as int, width as int, 173);
        lemma_share(y as int, height as int, 61);
    }
    let texture: u8 = texture(x, y);
    let gradient: u8 = (x * 173 / nonzero(width) + y * 61 / nonzero(height)) as u8;
    let checker: u8 = if (x / 96 + y / 96) % 2 == 0 {
        18
    } else {
        0
    };
    Pixel {
        r: add_capped(gradient, texture / 2),
        g: add_capped(add_wrapped(gradient, (x / 19 % 256) as u8), checker),
        b: subtract_capped(add_wrapped(gradient, (y / 17 % 256) as u8), texture / 3),
    }
}

fn paint_dark(width: u32, height: u32, x: u32, y: u32) -> (pixel: Pixel)
    requires
        x < width,
        y < height,
        pattern_fits(Pattern::DarkGradient, width, height),
    ensures
        pixel == dark_pixel(width, height, x, y),
{
    let denominator: u64 = (width - 1) as u64 + (height - 1) as u64;
    let denominator: u64 = if denominator == 0 {
        1
    } else {
        denominator
    };
    let ghost n = at_least_one(width - 1 + (height - 1));
    proof {
        lemma_share(x + y, n + 1, 62);
        assert((x + y) * 62 / n <= 62) by (nonlinear_arith)
            requires
                0 <= x + y <= n,
                0 < n,
        ;
        assert((x + y) * 62 / n >= 0) by (nonlinear_arith)
            requires
                0 <= x + y <= n,
                0 < n,
        ;
    }
    let ramp: u8 = ((x + y) as u64 * 62 / denominator) as u8;
    let bits: u32 = ((x / 37) ^ (y / 29)) & 3;
    let wave: u8 = bits as u8;
    Pixel {
        r: add_capped(add_capped(4, ramp), wave),
        g: add_capped(3, ramp),
        b: subtract_capped(add_capped(8, ramp), wave),
    }
}

fn paint_chroma(x: u32, y: u32) -> (pixel: Pixel)
    ensures
        pixel == chroma_pixel(x, y),
{
    match (x / 3 + y / 5) % 4 {
        0 => Pixel { r: 240, g: 20, b: 40 },
        1 => Pixel { r: 20, g: 220, b: 50 },
        2 => Pixel { r: 25, g: 45, b: 235 },
        _ => Pixel { r: 230, g: 220, b: 25 },
    }
}

fn paint_gray(width: u32, x: u32, y: u32) -> (pixel: Pixel)
    ensures
        pixel == gray_pixel(width, x, y),
{
    let value: u8 = if x > width / 2 {
        151
    } else {
        147
    };
    let stripe: u8 = if y % 257 == 0 {
        3
    } else {
        0
    };
    Pixel { r: value + stripe, g: value, b: value - stripe }
}

fn paint_pixel(pattern: Pattern, width: u32, height: u32, x: u32, y: u32) -> (pixel: Pixel)
    requires
        x < width,
        y < height,
        pattern_fits(pattern, width, height),
    ensures
        pixel == pattern_pixel(pattern, width, height, x, y),
{
    match pattern {
        Pattern::Photo => paint_photo(width, height, x, y),
        Pattern::DarkGradient => paint_dark(width, height, x, y),
        Pattern::ChromaEdges => paint_chroma(x, y),
        Pattern::LowEntropy => paint_gray(width, x, y),
    }
}

/// Paints a pattern.
fn paint(pattern: Pattern, width: u32, height: u32) -> (rgba: Vec<u8>)
    requires
        pattern_fits(pattern, width, height),
    ensures
        rgba@ == pattern_bytes(pattern, width, height),
{
    let ghost w = width as int;
    let ghost h = height as int;
    let ghost whole = pattern_bytes(pattern, width, height);
    let mut rgba: Vec<u8> = Vec::new();
    let mut y: u32 = 0;
    proof {
        assert(0 <= w * h * 4) by (nonlinear_arith)
            requires
                0 <= w,
                0 <= h,
        ;
        assert(rgba@ =~= whole.take(0));
    }
    while y < height
        invariant
            w == width,
            h == height,
            y <= height,
            pattern_fits(pattern, width, height),
            whole == pattern_bytes(pattern, width, height),
            0 <= y * w * 4 <= whole.len(),
            whole.len() == w * h * 4,
            rgba@ == whole.take(y * w * 4),
        decreases height - y,
    {
        let mut x: u32 = 0;
        while x < width
            invariant
                w == width,
                h == height,
                y < height,
                x <= width,
                pattern_fits(pattern, width, height),
                whole == pattern_bytes(pattern, width, height),
                whole.len() == w * h * 4,
                0 <= (y * w + x) * 4 <= whole.len(),
                rgba@ == whole.take((y * w + x) * 4),
            decreases width - x,
        {
            let pixel = paint_pixel(pattern, width, height, x, y);
            let ghost p = y * w + x;
            proof {
                vstd::arithmetic::div_mod::lemma_fundamental_div_mod_converse(
                    p,
                    w,
                    y as int,
                    x as int,
                );
                assert(p < w * h) by (nonlinear_arith)
                    requires
                        p == y * w + x,
                        0 <= x < w,
                        0 <= y < h,
                ;
            }
            rgba.push(pixel.r);
            rgba.push(pixel.g);
            rgba.push(pixel.b);
            rgba.push(255);
            x += 1;
            proof {
                assert((y * w + x) * 4 == p * 4 + 4);
                assert(rgba@ =~= whole.take((y * w + x) * 4));
            }
        }
        y += 1;
        assert((y - 1) * w + w == y * w) by (nonlinear_arith);
        assert(0 <= y * w * 4 <= w * h * 4) by (nonlinear_arith)
            requires
                0 <= y <= h,
                0 <= w,
        ;
    }
    assert(y * w * 4 == w * h * 4) by (nonlinear_arith)
        requires
            y == h,
    ;
    assert(rgba@ =~= whole);
    rgba
}

/// Whether a fixture shows a pattern under a name.
pub open spec fn shows(
    fixture: Fixture,
    pattern: Pattern,
    name: &'static str,
    width: u32,
    height: u32,
) -> bool {
    &&& fixture.name == name
    &&& fixture.width == width
    &&& fixture.height == height
    &&& fixture.rgba@ == pattern_bytes(pattern, width, height)
}

/// A synthetic photo.
pub fn synthetic_photo(name: &'static str, width: u32, height: u32) -> (fixture: Fixture)
    requires
        pattern_fits(Pattern::Photo, width, height),
    ensures
        shows(fixture, Pattern::Photo, name, width, height),
{
    Fixture { name, width, height, rgba: paint(Pattern::Photo, width, height) }
}

/// A dark gradient.
pub fn dark_gradient(name: &'static str, width: u32, height: u32) -> (fixture: Fixture)
    requires
        pattern_fits(Pattern::DarkGradient, width, height),
    ensures
        shows(fixture, Pattern::DarkGradient, name, width, height),
{
    Fixture { name, width, height, rgba: paint(Pattern::DarkGradient, width, height) }
}

/// Small colored tiles.
pub fn chroma_edges(name: &'static str, width: u32, height: u32) -> (fixture: Fixture)
    requires
        pattern_fits(Pattern::ChromaEdges, width, height),
    ensures
        shows(fixture, Pattern::ChromaEdges, name, width, height),
{
    Fixture { name, width, height, rgba: paint(Pattern::ChromaEdges, width, height) }
}

/// Two near grays.
pub fn low_entropy(name: &'static str, width: u32, height: u32) -> (fixture: Fixture)
    requires
        pattern_fits(Pattern::LowEntropy, width, height),
    ensures
        shows(fixture, Pattern::LowEntropy, name, width, height),
{
    Fixture { name, width, height, rgba: paint(Pattern::LowEntropy, width, height) }
}

/// The images that every encoder is compared on.
pub fn fixtures() -> (fixtures: Vec<Fixture>)
    ensures
        fixtures@.len() == 4,
        shows(fixtures@[0], Pattern::Photo, "photo_8mp", 3_504, 2_336),
        shows(fixtures@[1], Pattern::DarkGradient, "dark_gradient", 2_048, 1_365),
        shows(fixtures@[2], Pattern::ChromaEdges, "chroma_edges", 2_048, 1_365),
        shows(fixtures@[3], Pattern::LowEntropy, "low_entropy", 2_048, 1_365),
{
    vec![
        synthetic_photo("photo_8mp", 3_504, 2_336),
        dark_gradient("dark_gradient", 2_048, 1_365),
        chroma_edges("chroma_edges", 2_048, 1_365),
        low_entropy("low_entropy", 2_048, 1_365),
    ]
}

/// The image that sustained load is measured on.
pub fn full_resolution_fixture() -> (fixture: Fixture)
    ensures
        shows(fixture, Pattern::Photo, "photo_33mp", 7_008, 4_672),
{
    synthetic_photo("photo_33mp", 7_008, 4_672)
}

} // verus!
