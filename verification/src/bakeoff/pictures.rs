//! What the synthetic photos show.
use vstd::prelude::*;

use super::fixtures::{
    chroma_edges, dark_gradient, low_entropy, pattern_bytes, pattern_pixel, photo_pixel,
    pixel_byte, rotated_left, synthetic_photo, texture_at, wrapped_product, wrapped_sum, Fixture,
    Pattern,
};
use super::{codec_name, codec_names, listed_names, Codec};

verus! {

proof fn lemma_pixel(pattern: Pattern, width: u32, height: u32, x: u32, y: u32, k: int)
    requires
        x < width,
        y < height,
        0 <= k < 4,
    ensures
        ({
            let bytes = pattern_bytes(pattern, width, height);
            let at = 4 * (y * width + x) + k;
            &&& 0 <= at < bytes.len()
            &&& bytes[at] == pixel_byte(pattern_pixel(pattern, width, height, x, y), k)
        }),
{
    let w = width as int;
    let h = height as int;
    let p = y * w + x;
    assert(p < w * h && 0 <= p) by (nonlinear_arith)
        requires
            0 <= x < w,
            0 <= y < h,
            p == y * w + x,
    ;
    let at = 4 * p + k;
    assert(at / 4 == p && at % 4 == k);
    assert(y * w == w * y) by (nonlinear_arith);
    vstd::arithmetic::div_mod::lemma_fundamental_div_mod_converse(p, w, y as int, x as int);
}

/// Whether a pixel of a fixture has the given colors and is opaque.
pub open spec fn has_color(fixture: Fixture, x: u32, y: u32, r: int, g: int, b: int) -> bool {
    let at = 4 * (y * fixture.width + x);
    &&& 0 <= at && at + 4 <= fixture.rgba@.len()
    &&& fixture.rgba@[at] == r && fixture.rgba@[at + 1] == g && fixture.rgba@[at + 2] == b
    &&& fixture.rgba@[at + 3] == 255
}

/// Tiles three pixels wide and five high take four saturated colors in turn, across and
/// down.
pub proof fn law_tiles_take_four_colors(
    name: &'static str,
    width: u32,
    height: u32,
    fixture: Fixture,
    x: u32,
    y: u32,
    across: int,
    down: int,
)
    requires
        call_ensures(chroma_edges, (name, width, height), fixture),
        x < width,
        y < height,
        3 * across <= x < 3 * across + 3,
        5 * down <= y < 5 * down + 5,
    ensures
        fixture.name == name,
        fixture.width == width,
        fixture.height == height,
        (across + down) % 4 == 0 ==> has_color(fixture, x, y, 240, 20, 40),
        (across + down) % 4 == 1 ==> has_color(fixture, x, y, 20, 220, 50),
        (across + down) % 4 == 2 ==> has_color(fixture, x, y, 25, 45, 235),
        (across + down) % 4 == 3 ==> has_color(fixture, x, y, 230, 220, 25),
{
    lemma_pixel(Pattern::ChromaEdges, width, height, x, y, 0);
    lemma_pixel(Pattern::ChromaEdges, width, height, x, y, 1);
    lemma_pixel(Pattern::ChromaEdges, width, height, x, y, 2);
    lemma_pixel(Pattern::ChromaEdges, width, height, x, y, 3);
}

/// The left half is one gray and the right half one four steps brighter; every 257th row,
/// from the first on, leans to red.
pub proof fn law_grays_fill_the_halves(
    name: &'static str,
    width: u32,
    height: u32,
    fixture: Fixture,
    x: u32,
    y: u32,
    row: int,
    offset: int,
)
    requires
        call_ensures(low_entropy, (name, width, height), fixture),
        x < width,
        y < height,
        y == 257 * row + offset,
        0 <= offset < 257,
    ensures
        fixture.name == name,
        fixture.width == width,
        fixture.height == height,
        ({
            let gray: int = if 2 * x > width {
                151
            } else {
                147
            };
            let lean: int = if offset == 0 {
                3
            } else {
                0
            };
            has_color(fixture, x, y, gray + lean, gray, gray - lean)
        }),
{
    lemma_pixel(Pattern::LowEntropy, width, height, x, y, 0);
    lemma_pixel(Pattern::LowEntropy, width, height, x, y, 1);
    lemma_pixel(Pattern::LowEntropy, width, height, x, y, 2);
    lemma_pixel(Pattern::LowEntropy, width, height, x, y, 3);
}

/// A dark gradient rises by 62 steps from the top left to the bottom right corner. Its
/// green is the step above three; red and blue lie around it by a ripple of up to three.
pub proof fn law_dark_gradients_rise_to_the_corner(
    name: &'static str,
    width: u32,
    height: u32,
    fixture: Fixture,
    x: u32,
    y: u32,
    step: int,
) -> (ripple: int)
    requires
        call_ensures(dark_gradient, (name, width, height), fixture),
        x < width,
        y < height,
        width + height > 2,
        step * (width + height - 2) <= (x + y) * 62 < (step + 1) * (width + height - 2),
    ensures
        0 <= ripple <= 3,
        ripple == ((x / 37) ^ (y / 29)) & 3,
        fixture.name == name,
        fixture.width == width,
        fixture.height == height,
        has_color(fixture, x, y, step + 4 + ripple, step + 3, step + 8 - ripple),
{
    lemma_pixel(Pattern::DarkGradient, width, height, x, y, 0);
    lemma_pixel(Pattern::DarkGradient, width, height, x, y, 1);
    lemma_pixel(Pattern::DarkGradient, width, height, x, y, 2);
    lemma_pixel(Pattern::DarkGradient, width, height, x, y, 3);
    let size = width + height - 2;
    let n = (x + y) * 62;
    vstd::arithmetic::div_mod::lemma_fundamental_div_mod(n, size);
    let q = n / size;
    assert(q == step && 0 <= q <= 62) by (nonlinear_arith)
        requires
            n == size * q + n % size,
            0 <= n % size < size,
            step * size <= n < (step + 1) * size,
            0 <= n <= 62 * size,
            0 < size,
    ;
    let a = x / 37;
    let b = y / 29;
    assert((a ^ b) & 3 <= 3) by (bit_vector);
    ((a ^ b) & 3) as int
}

/// A photo rises from left to right and from top to bottom. Its red is that gradient with
/// half of a texture; green takes in the column and a checkerboard of 96 pixels, and blue
/// the row without a third of the texture.
pub proof fn law_photos_rise_with_texture(
    name: &'static str,
    width: u32,
    height: u32,
    fixture: Fixture,
    x: u32,
    y: u32,
    across: int,
    down: int,
) -> (texture: int)
    requires
        call_ensures(synthetic_photo, (name, width, height), fixture),
        x < width,
        y < height,
        across * width <= x * 173 < (across + 1) * width,
        down * height <= y * 61 < (down + 1) * height,
    ensures
        0 <= texture <= 31,
        fixture.name == name,
        fixture.width == width,
        fixture.height == height,
        ({
            let rise = across + down;
            let green = (rise + x as int / 19) % 256 + if (x as int / 96 + y as int / 96) % 2 == 0 {
                18int
            } else {
                0
            };
            let blue = (rise + y as int / 17) % 256 - texture / 3;
            has_color(
                fixture,
                x,
                y,
                rise + texture / 2,
                if green > 255 {
                    255
                } else {
                    green
                },
                if blue < 0 {
                    0
                } else {
                    blue
                },
            )
        }),
{
    lemma_pixel(Pattern::Photo, width, height, x, y, 0);
    lemma_pixel(Pattern::Photo, width, height, x, y, 1);
    lemma_pixel(Pattern::Photo, width, height, x, y, 2);
    lemma_pixel(Pattern::Photo, width, height, x, y, 3);
    lemma_photo(width, height, x, y, across, down);
    texture_at(x, y) as int
}

proof fn lemma_texture(x: u32, y: u32)
    ensures
        texture_at(x, y) <= 31,
{
    let hash = rotated_left(wrapped_product(x, 0x9e37_79b9), y & 15) ^ wrapped_product(
        y,
        0x85eb_ca6b,
    );
    assert((hash ^ (hash >> 13)) & 0x1f <= 31) by (bit_vector);
}

proof fn lemma_photo(width: u32, height: u32, x: u32, y: u32, across: int, down: int)
    requires
        x < width,
        y < height,
        across * width <= x * 173 < (across + 1) * width,
        down * height <= y * 61 < (down + 1) * height,
    ensures
        ({
            let pixel = photo_pixel(width, height, x, y);
            let texture = texture_at(x, y);
            let rise = across + down;
            let green = (rise + x as int / 19) % 256 + if (x as int / 96 + y as int / 96) % 2 == 0 {
                18int
            } else {
                0
            };
            let blue = (rise + y as int / 17) % 256 - texture as int / 3;
            &&& texture <= 31
            &&& pixel.r == rise + texture as int / 2
            &&& pixel.g == if green > 255 {
                255
            } else {
                green
            }
            &&& pixel.b == if blue < 0 {
                0
            } else {
                blue
            }
        }),
{
    lemma_texture(x, y);
    let texture = texture_at(x, y);
    lemma_share(x * 173, width as int, across, 173);
    lemma_share(y * 61, height as int, down, 61);
    let rise = across + down;
    let gradient = rise as u8;
    assert(gradient == rise);
    let column = (x as int / 19 % 256) as u8;
    let row = (y as int / 17 % 256) as u8;
    lemma_wrapped(gradient, column, x as int / 19);
    lemma_wrapped(gradient, row, y as int / 17);
}

proof fn lemma_wrapped(a: u8, b: u8, n: int)
    requires
        0 <= n,
        b == n % 256,
    ensures
        wrapped_sum(a, b) == (a + n) % 256,
{
}

proof fn lemma_share(n: int, size: int, q: int, most: int)
    requires
        0 < size,
        0 <= n <= most * size,
        q * size <= n < (q + 1) * size,
    ensures
        n / size == q,
        0 <= q <= most,
{
    vstd::arithmetic::div_mod::lemma_fundamental_div_mod(n, size);
    let d = n / size;
    assert(d == q && 0 <= d <= most) by (nonlinear_arith)
        requires
            n == size * d + n % size,
            0 <= n % size < size,
            q * size <= n < (q + 1) * size,
            0 <= n <= most * size,
            0 < size,
    ;
}

proof fn lemma_listed(codecs: Seq<Codec>, i: int) -> (at: int)
    requires
        0 <= i < codecs.len(),
    ensures
        ({
            let name = codec_name(codecs[i])@ + ", "@;
            &&& 0 <= at && at + name.len() <= listed_names(codecs).len()
            &&& listed_names(codecs).subrange(at, at + name.len()) == name
        }),
    decreases codecs.len(),
{
    let rest = codecs.drop_last();
    let names = listed_names(codecs);
    let name = codec_name(codecs[i])@ + ", "@;
    if i == codecs.len() - 1 {
        let at = listed_names(rest).len() as int;
        assert(names.subrange(at, at + name.len()) =~= name);
        at
    } else {
        assert(rest[i] == codecs[i]);
        let at = lemma_listed(rest, i);
        assert(names.subrange(at, at + name.len()) =~= listed_names(rest).subrange(
            at,
            at + name.len(),
        ));
        at
    }
}

/// The list of names holds that of every encoder, each with a separator behind it, and
/// ends with that of the reused C encoder.
pub proof fn law_every_name_is_listed(names: String, all: Vec<Codec>, i: int) -> (at: int)
    requires
        call_ensures(codec_names, (), names),
        call_ensures(Codec::all, (), all),
        0 <= i < all@.len(),
    ensures
        ({
            let name = codec_name(all@[i])@ + ", "@;
            let last = "libjpeg-turbo-c-reused"@;
            &&& 0 <= at && at + name.len() <= names@.len()
            &&& names@.subrange(at, at + name.len()) == name
            &&& names@.len() >= last.len()
            &&& names@.skip(names@.len() - last.len()) == last
        }),
{
    let at = lemma_listed(all@, i);
    let name = codec_name(all@[i])@ + ", "@;
    let last = "libjpeg-turbo-c-reused"@;
    assert(names@.subrange(at, at + name.len()) =~= listed_names(all@).subrange(
        at,
        at + name.len(),
    ));
    assert(names@.skip(names@.len() - last.len()) =~= last);
    at
}

} // verus!
