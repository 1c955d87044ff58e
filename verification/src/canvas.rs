//! Drawing on a canvas of premultiplied pixels. A pixel is four bytes: blue, green, red and alpha.
use vstd::arithmetic::div_mod::{lemma_fundamental_div_mod, lemma_fundamental_div_mod_converse};
use vstd::prelude::*;

verus! {

/// An opaque colour.
#[derive(Debug, Clone, Copy, PartialEq, Eq, Structural)]
pub struct Color {
    pub r: u8,
    pub g: u8,
    pub b: u8,
}

impl Color {
    /// The colour of these parts.
    pub fn rgb(r: u8, g: u8, b: u8) -> (res: Self)
        ensures
            res == (Color { r, g, b }),
    {
        Color { r, g, b }
    }
}

/// Where a glyph is drawn, and how much of each of its pixels it covers, row by row.
#[derive(Debug)]
pub struct GlyphDraw<'a> {
    pub x: i32,
    pub y: i32,
    pub width: usize,
    pub height: usize,
    pub bitmap: &'a [u8],
    pub color: Color,
}

// ---------------------------------------------------------------------------------------------
// Blending
// ---------------------------------------------------------------------------------------------

/// The part of a colour that the byte at a place of a pixel holds.
pub open spec fn color_part(color: Color, place: int) -> u8 {
    if place == 0 {
        color.b
    } else if place == 1 {
        color.g
    } else if place == 2 {
        color.r
    } else {
        255
    }
}

/// A byte of a pixel with a colour laid over it. What is laid over counts by `alpha` of 255, what is
/// under it by the rest.
pub open spec fn blended(under: u8, part: u8, alpha: u8) -> int {
    part * alpha / 255 + under * (255 - alpha) / 255
}

/// A canvas with a colour laid over the pixel that starts at a place.
pub open spec fn with_pixel(canvas: Seq<u8>, at: int, color: Color, alpha: u8) -> Seq<u8> {
    Seq::new(
        canvas.len(),
        |i: int|
            if at <= i < at + 4 {
                blended(canvas[i], color_part(color, i - at), alpha) as u8
            } else {
                canvas[i]
            },
    )
}

/// A blended byte is a byte.
pub proof fn lemma_blended(under: u8, part: u8, alpha: u8)
    ensures
        0 <= blended(under, part, alpha) <= 255,
{
    let over = part * alpha;
    let kept = under * (255 - alpha);
    assert(0 <= over <= 255 * alpha) by (nonlinear_arith)
        requires
            over == part * alpha,
            0 <= part <= 255,
            0 <= alpha,
    ;
    assert(0 <= kept <= 255 * (255 - alpha)) by (nonlinear_arith)
        requires
            kept == under * (255 - alpha),
            0 <= under <= 255,
            alpha <= 255,
    ;
}

/// What covers nothing changes nothing.
pub proof fn lemma_blended_transparent(under: u8, part: u8)
    ensures
        blended(under, part, 0) == under,
{
}

/// What covers all leaves nothing of what is under it.
pub proof fn lemma_blended_opaque(under: u8, part: u8)
    ensures
        blended(under, part, 255) == part,
{
}

/// No part of a pixel exceeds its alpha after blending where none did before.
pub proof fn lemma_blended_premultiplied(under: u8, under_alpha: u8, part: u8, alpha: u8)
    requires
        under <= under_alpha,
    ensures
        blended(under, part, alpha) <= blended(under_alpha, 255, alpha),
{
    assert(part * alpha <= 255 * alpha) by (nonlinear_arith)
        requires
            0 <= part <= 255,
            0 <= alpha,
    ;
    assert(under * (255 - alpha) <= under_alpha * (255 - alpha)) by (nonlinear_arith)
        requires
            under <= under_alpha,
            alpha <= 255,
    ;
}

fn blend_byte(under: u8, part: u8, alpha: u8) -> (res: u8)
    ensures
        res == blended(under, part, alpha),
{
    proof {
        lemma_blended(under, part, alpha);
        assert(0 <= part * alpha <= 65025) by (nonlinear_arith)
            requires
                0 <= part <= 255,
                0 <= alpha <= 255,
        ;
        assert(0 <= under * (255 - alpha) <= 65025) by (nonlinear_arith)
            requires
                0 <= under <= 255,
                0 <= alpha <= 255,
        ;
    }
    let over: u32 = part as u32 * alpha as u32 / 255;
    let kept: u32 = under as u32 * (255 - alpha as u32) / 255;
    (over + kept) as u8
}

/// Lays a colour over the pixel that starts at a place.
pub fn blend_pixel(canvas: &mut [u8], at: usize, color: Color, alpha: u8)
    requires
        at + 4 <= old(canvas)@.len(),
    ensures
        final(canvas)@ == with_pixel(old(canvas)@, at as int, color, alpha),
{
    let ghost before = canvas@;
    canvas[at] = blend_byte(canvas[at], color.b, alpha);
    canvas[at + 1] = blend_byte(canvas[at + 1], color.g, alpha);
    canvas[at + 2] = blend_byte(canvas[at + 2], color.r, alpha);
    canvas[at + 3] = blend_byte(canvas[at + 3], 255, alpha);
    assert(canvas@ =~= with_pixel(before, at as int, color, alpha));
}

// ---------------------------------------------------------------------------------------------
// Glyphs
// ---------------------------------------------------------------------------------------------

/// The number of whole rows of a canvas, as far as a signed 32-bit number tells it.
pub open spec fn rows(canvas: Seq<u8>, width: u32) -> int {
    ((canvas.len() as int / (4 * width)) as usize as i32) as int
}

/// The number of columns of a canvas, as far as a signed 32-bit number tells it.
pub open spec fn columns(width: u32) -> int {
    (width as i32) as int
}

/// The row of the canvas that a byte lies in.
pub open spec fn row_of(i: int, width: u32) -> int {
    i / 4 / width as int
}

/// The column of the canvas that a byte lies in.
pub open spec fn column_of(i: int, width: u32) -> int {
    (i / 4) % width as int
}

/// Whether a row and a column are on a canvas.
pub open spec fn on_canvas(canvas: Seq<u8>, width: u32, row: int, column: int) -> bool {
    0 <= row < rows(canvas, width) && 0 <= column < columns(width)
}

/// Whether a glyph has a pixel at a row and a column of its own.
pub open spec fn has_pixel(glyph: GlyphDraw, row: int, column: int) -> bool {
    0 <= row < glyph.height && 0 <= column < glyph.width
}

/// The place in the bitmap of a pixel of a glyph.
pub open spec fn bitmap_place(glyph: GlyphDraw, row: int, column: int) -> int {
    row * glyph.width + column
}

/// Whether the bitmap tells of every pixel of the glyph that lies on the canvas.
pub open spec fn bitmap_covers(glyph: GlyphDraw, canvas: Seq<u8>, width: u32) -> bool {
    forall|row: int, column: int|
        has_pixel(glyph, row, column) && on_canvas(canvas, width, glyph.y + row, glyph.x + column)
            ==> 0 <= #[trigger] bitmap_place(glyph, row, column) < glyph.bitmap@.len()
}

/// A byte of a canvas with a glyph drawn on it.
pub open spec fn drawn_byte(canvas: Seq<u8>, width: u32, glyph: GlyphDraw, i: int) -> u8 {
    let row = row_of(i, width) - glyph.y;
    let column = column_of(i, width) - glyph.x;
    if on_canvas(canvas, width, row_of(i, width), column_of(i, width)) && has_pixel(
        glyph,
        row,
        column,
    ) {
        blended(
            canvas[i],
            color_part(glyph.color, i % 4),
            glyph.bitmap@[bitmap_place(glyph, row, column)],
        ) as u8
    } else {
        canvas[i]
    }
}

/// A canvas with a glyph drawn on it: where a pixel of the glyph lies on a whole row of the canvas,
/// the glyph's colour is laid over it by as much as the glyph covers of it. Nothing is drawn on a
/// canvas that is wider than a signed 32-bit number tells.
pub open spec fn drawn(canvas: Seq<u8>, width: u32, glyph: GlyphDraw) -> Seq<u8> {
    Seq::new(canvas.len(), |i: int| drawn_byte(canvas, width, glyph, i))
}

/// A canvas with the rows of a glyph before `row` drawn on it, and of that row the columns before
/// `column`.
spec fn partly_drawn(canvas: Seq<u8>, width: u32, glyph: GlyphDraw, row: int, column: int) -> Seq<u8> {
    Seq::new(
        canvas.len(),
        |i: int|
            if row_of(i, width) - glyph.y < row || (row_of(i, width) - glyph.y == row && column_of(
                i,
                width,
            ) - glyph.x < column) {
                drawn_byte(canvas, width, glyph, i)
            } else {
                canvas[i]
            },
    )
}

/// The bytes in a row and a column are the four from one place on.
pub(crate) proof fn lemma_pixel_place(i: int, width: u32, row: int, column: int)
    requires
        0 <= i,
        0 < width,
        0 <= row,
        0 <= column < width,
    ensures
        row_of(i, width) == row && column_of(i, width) == column <==> (row * width + column) * 4 <= i
            < (row * width + column) * 4 + 4,
        row_of(i, width) >= 0,
        0 <= column_of(i, width) < width,
{
    let p = i / 4;
    let w = width as int;
    lemma_fundamental_div_mod(p, w);
    assert(w * (p / w) == (p / w) * w) by (nonlinear_arith);
    vstd::arithmetic::div_mod::lemma_mod_bound(p, w);
    vstd::arithmetic::div_mod::lemma_div_pos_is_pos(p, w);
    if p == row * w + column {
        lemma_fundamental_div_mod_converse(p, w, row, column);
    }
}

/// As far as a signed 32-bit number tells sizes, it does not exceed them.
pub(crate) proof fn lemma_told_sizes(size: usize, width: u32)
    ensures
        (size as i32) as int <= size,
        (width as i32) as int <= width,
        width <= i32::MAX ==> (width as i32) as int == width,
{
    assert((size as i32) >= 0 ==> (size as i32) as u32 <= size) by (bit_vector);
    assert((width as i32) >= 0 ==> (width as i32) as u32 <= width) by (bit_vector);
}

/// A pixel on a canvas lies within its bytes.
proof fn lemma_pixel_fits(canvas: Seq<u8>, width: u32, row: int, column: int)
    requires
        0 < width,
        canvas.len() <= usize::MAX,
        on_canvas(canvas, width, row, column),
    ensures
        column < width,
        0 <= row * width + column,
        (row * width + column) * 4 + 4 <= canvas.len(),
{
    let w = width as int;
    let count = canvas.len() as int / (4 * w);
    lemma_fundamental_div_mod(canvas.len() as int, 4 * w);
    vstd::arithmetic::div_mod::lemma_mod_bound(canvas.len() as int, 4 * w);
    vstd::arithmetic::div_mod::lemma_div_pos_is_pos(canvas.len() as int, 4 * w);
    vstd::arithmetic::div_mod::lemma_div_is_ordered_by_denominator(canvas.len() as int, 1, 4 * w);
    assert(0 <= count <= canvas.len());
    lemma_told_sizes(count as usize, width);
    assert((row * w + column) * 4 + 4 <= (4 * w) * count && 0 <= row * w + column)
        by (nonlinear_arith)
        requires
            0 <= row,
            row + 1 <= count,
            0 <= column,
            column + 1 <= w,
    ;
}

/// Draws a glyph on a canvas with rows of `width` pixels.
pub fn draw_glyph(canvas: &mut [u8], width: u32, glyph: GlyphDraw<'_>)
    requires
        0 < width,
        width * 4 <= usize::MAX,
        bitmap_covers(glyph, old(canvas)@, width),
    ensures
        final(canvas)@ == drawn(old(canvas)@, width, glyph),
{
    let ghost before = canvas@;
    let len: usize = canvas.len();
    let height: i32 = (len / (width as usize * 4)) as i32;
    let row_width: i32 = width as i32;
    let mut row: usize = 0;
    proof {
        assert forall|i: int| 0 <= i < before.len() implies partly_drawn(
            before,
            width,
            glyph,
            0,
            0,
        )[i] == before[i] by {}
        assert(canvas@ =~= partly_drawn(before, width, glyph, 0, 0));
    }
    while row < glyph.height
        invariant
            0 < width,
            row <= glyph.height,
            height == rows(before, width),
            row_width == columns(width),
            len == before.len(),
            canvas@.len() == before.len(),
            bitmap_covers(glyph, before, width),
            canvas@ == partly_drawn(before, width, glyph, row as int, 0),
        decreases glyph.height - row,
    {
        let py: i128 = glyph.y as i128 + row as i128;
        if py < 0 || py >= height as i128 {
            proof {
                assert forall|i: int| 0 <= i < before.len() implies canvas@[i] == partly_drawn(
                    before,
                    width,
                    glyph,
                    row + 1,
                    0,
                )[i] by {
                    lemma_pixel_place(i, width, 0, 0);
                }
                assert(canvas@ =~= partly_drawn(before, width, glyph, row + 1, 0));
            }
            row += 1;
            continue;
        }
        let mut column: usize = 0;
        while column < glyph.width
            invariant
                0 < width,
                row < glyph.height,
                column <= glyph.width,
                height == rows(before, width),
                row_width == columns(width),
                py == glyph.y + row,
                0 <= py < height,
                len == before.len(),
                canvas@.len() == before.len(),
                bitmap_covers(glyph, before, width),
                canvas@ == partly_drawn(before, width, glyph, row as int, column as int),
            decreases glyph.width - column,
        {
            let ghost now = canvas@;
            let ghost next = partly_drawn(before, width, glyph, row as int, column + 1);
            let px: i128 = glyph.x as i128 + column as i128;
            if 0 <= px && px < row_width as i128 {
                proof {
                    assert(has_pixel(glyph, row as int, column as int));
                    assert(on_canvas(before, width, glyph.y + row, glyph.x + column));
                    let place = bitmap_place(glyph, row as int, column as int);
                    assert(0 <= place < glyph.bitmap@.len());
                    assert(glyph.bitmap@.len() == glyph.bitmap.len());
                    assert(0 <= row * glyph.width <= place) by (nonlinear_arith)
                        requires
                            place == row * glyph.width + column,
                            row >= 0,
                            glyph.width >= 0,
                            column >= 0,
                    ;
                    lemma_pixel_fits(before, width, py as int, px as int);
                    assert(0 <= py * width) by (nonlinear_arith)
                        requires
                            0 <= py,
                            0 < width,
                    ;
                }
                let coverage: u8 = glyph.bitmap[row * glyph.width + column];
                let at: usize = (py as usize * width as usize + px as usize) * 4;
                if coverage != 0 {
                    blend_pixel(canvas, at, glyph.color, coverage);
                }
                proof {
                    assert(at == (py * width + px) * 4);
                    assert forall|i: int| 0 <= i < before.len() implies canvas@[i] == next[i] by {
                        lemma_pixel_place(i, width, py as int, px as int);
                        if at <= i < at + 4 {
                            assert(i % 4 == i - at);
                            lemma_blended_transparent(
                                before[i],
                                color_part(glyph.color, i - at),
                            );
                            assert(now[i] == before[i]);
                        }
                    }
                    assert(canvas@ =~= next);
                }
            } else {
                proof {
                    assert forall|i: int| 0 <= i < before.len() implies canvas@[i] == next[i] by {
                        lemma_pixel_place(i, width, 0, 0);
                    }
                    assert(canvas@ =~= next);
                }
            }
            column += 1;
        }
        proof {
            assert forall|i: int| 0 <= i < before.len() implies canvas@[i] == partly_drawn(
                before,
                width,
                glyph,
                row + 1,
                0,
            )[i] by {}
            assert(canvas@ =~= partly_drawn(before, width, glyph, row + 1, 0));
        }
        row += 1;
    }
    assert(canvas@ =~= drawn(before, width, glyph));
}

// ---------------------------------------------------------------------------------------------
// Background
// ---------------------------------------------------------------------------------------------

/// A canvas on which every whole pixel is black with the given alpha.
pub open spec fn background(canvas: Seq<u8>, alpha: u8) -> Seq<u8> {
    Seq::new(
        canvas.len(),
        |i: int|
            if i >= canvas.len() - canvas.len() as int % 4 {
                canvas[i]
            } else if i % 4 == 3 {
                alpha
            } else {
                0
            },
    )
}

/// Makes every whole pixel black with the given alpha.
pub fn fill_background(canvas: &mut [u8], alpha: u8)
    ensures
        final(canvas)@ == background(old(canvas)@, alpha),
{
    let ghost before = canvas@;
    let len: usize = canvas.len();
    let count: usize = len / 4;
    let mut pixel: usize = 0;
    while pixel < count
        invariant
            len == before.len(),
            count == len / 4,
            pixel <= count,
            canvas@.len() == len,
            forall|i: int| 0 <= i < 4 * pixel ==> canvas@[i] == background(before, alpha)[i],
            forall|i: int| 4 * pixel <= i < len ==> canvas@[i] == before[i],
        decreases count - pixel,
    {
        let ghost now = canvas@;
        let at: usize = 4 * pixel;
        canvas[at] = 0;
        canvas[at + 1] = 0;
        canvas[at + 2] = 0;
        canvas[at + 3] = alpha;
        pixel += 1;
        assert forall|i: int| 0 <= i < 4 * pixel implies canvas@[i] == background(
            before,
            alpha,
        )[i] by {
            if i < at {
                assert(canvas@[i] == now[i]);
            } else {
                assert(i % 4 == i - at);
            }
        }
    }
    assert(canvas@ =~= background(before, alpha));
}

// ---------------------------------------------------------------------------------------------
// What holds of a canvas
// ---------------------------------------------------------------------------------------------

/// Whether no part of a pixel exceeds its alpha.
pub open spec fn premultiplied(canvas: Seq<u8>) -> bool {
    forall|i: int|
        0 <= i < canvas.len() - canvas.len() as int % 4 ==> #[trigger] canvas[i] <= canvas[i - i % 4
            + 3]
}

/// The background is premultiplied, whatever was on the canvas.
pub proof fn lemma_background(canvas: Seq<u8>, alpha: u8)
    ensures
        premultiplied(background(canvas, alpha)),
{
}

/// Drawing keeps a canvas premultiplied.
pub proof fn lemma_drawn_premultiplied(canvas: Seq<u8>, width: u32, glyph: GlyphDraw)
    requires
        width > 0,
        premultiplied(canvas),
    ensures
        premultiplied(drawn(canvas, width, glyph)),
{
    let after = drawn(canvas, width, glyph);
    assert forall|i: int| 0 <= i < after.len() - after.len() as int % 4 implies #[trigger] after[i]
        <= after[i - i % 4 + 3] by {
        let j = i - i % 4 + 3;
        assert(j / 4 == i / 4);
        assert(canvas[i] <= canvas[j]);
        let row = row_of(i, width) - glyph.y;
        let column = column_of(i, width) - glyph.x;
        let alpha = glyph.bitmap@[bitmap_place(glyph, row, column)];
        let part = color_part(glyph.color, i % 4);
        lemma_blended(canvas[i], part, alpha);
        lemma_blended(canvas[j], 255, alpha);
        lemma_blended_premultiplied(canvas[i], canvas[j], part, alpha);
    }
}

/// A glyph leaves every byte alone that no pixel of it with any coverage lies on.
pub proof fn lemma_drawn_elsewhere(canvas: Seq<u8>, width: u32, glyph: GlyphDraw, i: int)
    requires
        0 <= i < canvas.len(),
        has_pixel(glyph, row_of(i, width) - glyph.y, column_of(i, width) - glyph.x)
            ==> glyph.bitmap@[bitmap_place(
            glyph,
            row_of(i, width) - glyph.y,
            column_of(i, width) - glyph.x,
        )] == 0,
    ensures
        drawn(canvas, width, glyph)[i] == canvas[i],
{
    lemma_blended_transparent(canvas[i], color_part(glyph.color, i % 4));
}

/// On a canvas that is wider than a signed 32-bit number tells, nothing is drawn.
pub proof fn lemma_drawn_too_wide(canvas: Seq<u8>, width: u32, glyph: GlyphDraw)
    requires
        width > i32::MAX,
    ensures
        drawn(canvas, width, glyph) == canvas,
{
    assert(width > 0x7fff_ffff ==> (width as i32) < 0) by (bit_vector);
    assert forall|i: int| 0 <= i < canvas.len() implies drawn_byte(canvas, width, glyph, i)
        == canvas[i] by {
        lemma_pixel_place(i, width, 0, 0);
    }
    assert(drawn(canvas, width, glyph) =~= canvas);
}

/// Where a glyph covers a pixel fully, its colour stands there.
pub proof fn lemma_drawn_opaque(canvas: Seq<u8>, width: u32, glyph: GlyphDraw, i: int)
    requires
        0 <= i < canvas.len(),
        on_canvas(canvas, width, row_of(i, width), column_of(i, width)),
        has_pixel(glyph, row_of(i, width) - glyph.y, column_of(i, width) - glyph.x),
        glyph.bitmap@[bitmap_place(
            glyph,
            row_of(i, width) - glyph.y,
            column_of(i, width) - glyph.x,
        )] == 255,
    ensures
        drawn(canvas, width, glyph)[i] == color_part(glyph.color, i % 4),
{
    lemma_blended_opaque(canvas[i], color_part(glyph.color, i % 4));
}

} // verus!
