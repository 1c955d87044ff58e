//! What holds of every drawing, byte by byte, and of what a profile tells.
use vstd::arithmetic::div_mod::lemma_fundamental_div_mod_converse;
use vstd::prelude::*;

use crate::canvas::{
    background, bitmap_covers, bitmap_place, drawn, has_pixel, lemma_blended, lemma_pixel_place,
    lemma_told_sizes, on_canvas, with_pixel, Color, GlyphDraw,
};
use crate::report::{
    plan_view, queries_of, sum, times, truncated, ProfileError, QueryProfile, Timings,
};
use crate::text::string_views;

verus! {

/// A colour laid over a pixel: its blue, green and red and full alpha go to the four bytes of the
/// pixel in this order, each by `alpha` of 255, and what was there by the rest. Other bytes stay.
pub proof fn lemma_pixel_bytes(canvas: Seq<u8>, at: int, color: Color, alpha: u8, i: int)
    requires
        0 <= at,
        at + 4 <= canvas.len(),
        0 <= i < canvas.len(),
    ensures
        ({
            let after = with_pixel(canvas, at, color, alpha);
            &&& after.len() == canvas.len()
            &&& after[at] == color.b * alpha / 255 + canvas[at] * (255 - alpha) / 255
            &&& after[at + 1] == color.g * alpha / 255 + canvas[at + 1] * (255 - alpha) / 255
            &&& after[at + 2] == color.r * alpha / 255 + canvas[at + 2] * (255 - alpha) / 255
            &&& after[at + 3] == 255 * alpha / 255 + canvas[at + 3] * (255 - alpha) / 255
            &&& i < at || i >= at + 4 ==> after[i] == canvas[i]
        }),
{
    lemma_blended(canvas[at], color.b, alpha);
    lemma_blended(canvas[at + 1], color.g, alpha);
    lemma_blended(canvas[at + 2], color.r, alpha);
    lemma_blended(canvas[at + 3], 255, alpha);
}

/// Where a pixel of a glyph lies on the canvas, the glyph's colour is laid over the four bytes there,
/// by what the bitmap has for this pixel. Bitmaps are read row by row from the glyph's top left.
pub proof fn lemma_glyph_bytes(
    canvas: Seq<u8>,
    width: u32,
    glyph: GlyphDraw,
    row: int,
    column: int,
    whole_rows: int,
)
    requires
        0 < width <= i32::MAX,
        0 <= whole_rows <= i32::MAX,
        4 * (width * whole_rows) <= canvas.len() < 4 * (width * whole_rows) + 4 * width,
        0 <= row < glyph.height,
        0 <= column < glyph.width,
        0 <= glyph.y + row < whole_rows,
        0 <= glyph.x + column < width,
    ensures
        ({
            let at = 4 * ((glyph.y + row) * width + (glyph.x + column));
            let alpha = glyph.bitmap@[row * glyph.width + column];
            let after = drawn(canvas, width, glyph);
            &&& 0 <= at
            &&& at + 4 <= canvas.len()
            &&& after.len() == canvas.len()
            &&& after[at] == glyph.color.b * alpha / 255 + canvas[at] * (255 - alpha) / 255
            &&& after[at + 1] == glyph.color.g * alpha / 255 + canvas[at + 1] * (255 - alpha) / 255
            &&& after[at + 2] == glyph.color.r * alpha / 255 + canvas[at + 2] * (255 - alpha) / 255
            &&& after[at + 3] == 255 * alpha / 255 + canvas[at + 3] * (255 - alpha) / 255
        }),
{
    let py = glyph.y + row;
    let px = glyph.x + column;
    let w = width as int;
    let at = 4 * (py * w + px);
    let alpha = glyph.bitmap@[row * glyph.width + column];
    assert(canvas.len() == whole_rows * (4 * w) + (canvas.len() - 4 * (w * whole_rows)))
        by (nonlinear_arith);
    lemma_fundamental_div_mod_converse(
        canvas.len() as int,
        4 * w,
        whole_rows,
        canvas.len() - 4 * (w * whole_rows),
    );
    lemma_told_sizes(0, width);
    assert(0 <= at && at + 4 <= 4 * (w * whole_rows)) by (nonlinear_arith)
        requires
            at == 4 * (py * w + px),
            0 <= py,
            py + 1 <= whole_rows,
            0 <= px,
            px + 1 <= w,
    ;
    lemma_pixel_place(at, width, py, px);
    lemma_pixel_place(at + 1, width, py, px);
    lemma_pixel_place(at + 2, width, py, px);
    lemma_pixel_place(at + 3, width, py, px);
    lemma_blended(canvas[at], glyph.color.b, alpha);
    lemma_blended(canvas[at + 1], glyph.color.g, alpha);
    lemma_blended(canvas[at + 2], glyph.color.r, alpha);
    lemma_blended(canvas[at + 3], 255, alpha);
    assert(bitmap_place(glyph, row, column) == row * glyph.width + column);
}

/// A byte stays where no pixel of the glyph lies on its pixel, and where its row is not whole.
pub proof fn lemma_glyph_elsewhere(
    canvas: Seq<u8>,
    width: u32,
    glyph: GlyphDraw,
    row: int,
    column: int,
    i: int,
)
    requires
        0 < width,
        canvas.len() <= usize::MAX,
        0 <= row,
        0 <= column < width,
        0 <= i < canvas.len(),
        4 * (row * width + column) <= i < 4 * (row * width + column) + 4,
        row < glyph.y || row >= glyph.y + glyph.height || column < glyph.x || column >= glyph.x
            + glyph.width || 4 * (width * (row + 1)) > canvas.len(),
    ensures
        drawn(canvas, width, glyph)[i] == canvas[i],
{
    let w = width as int;
    lemma_pixel_place(i, width, row, column);
    if 4 * (w * (row + 1)) > canvas.len() {
        let count = canvas.len() as int / (4 * w);
        vstd::arithmetic::div_mod::lemma_fundamental_div_mod(canvas.len() as int, 4 * w);
        vstd::arithmetic::div_mod::lemma_mod_bound(canvas.len() as int, 4 * w);
        vstd::arithmetic::div_mod::lemma_div_pos_is_pos(canvas.len() as int, 4 * w);
        vstd::arithmetic::div_mod::lemma_div_is_ordered_by_denominator(
            canvas.len() as int,
            1,
            4 * w,
        );
        lemma_told_sizes(count as usize, width);
        assert(count < row + 1) by (nonlinear_arith)
            requires
                4 * (w * (row + 1)) > (4 * w) * count,
                w > 0,
        ;
    }
}

/// A bitmap with a byte for each pixel of the glyph is enough, wherever the glyph is drawn.
pub proof fn lemma_full_bitmap(canvas: Seq<u8>, width: u32, glyph: GlyphDraw)
    requires
        glyph.bitmap@.len() == glyph.height * glyph.width,
    ensures
        bitmap_covers(glyph, canvas, width),
{
    assert forall|row: int, column: int|
        has_pixel(glyph, row, column) && on_canvas(
            canvas,
            width,
            glyph.y + row,
            glyph.x + column,
        ) implies 0 <= #[trigger] bitmap_place(glyph, row, column) < glyph.bitmap@.len() by {
        assert(0 <= row * glyph.width + column < glyph.height * glyph.width) by (nonlinear_arith)
            requires
                0 <= row,
                row + 1 <= glyph.height,
                0 <= column < glyph.width,
        ;
    }
}

/// The background makes the colours of every whole pixel zero and its alpha the given one; the bytes
/// after the last whole pixel stay.
pub proof fn lemma_background_bytes(canvas: Seq<u8>, alpha: u8, pixel: int, i: int)
    requires
        0 <= pixel,
        0 <= i < canvas.len(),
    ensures
        background(canvas, alpha).len() == canvas.len(),
        4 * pixel + 4 <= canvas.len() ==> background(canvas, alpha)[4 * pixel] == 0 && background(
            canvas,
            alpha,
        )[4 * pixel + 1] == 0 && background(canvas, alpha)[4 * pixel + 2] == 0 && background(
            canvas,
            alpha,
        )[4 * pixel + 3] == alpha,
        4 * (i / 4) + 4 > canvas.len() ==> background(canvas, alpha)[i] == canvas[i],
{
}

// ---------------------------------------------------------------------------------------------
// Reports
// ---------------------------------------------------------------------------------------------

/// A text that is not too long stays; of any other there is left what fits before an ellipsis.
pub proof fn lemma_shortened_text(text: Seq<char>, max_chars: nat)
    ensures
        text.len() <= max_chars ==> truncated(text, max_chars) == text,
        text.len() > max_chars && max_chars > 0 ==> truncated(text, max_chars) == text.take(
            max_chars - 1,
        ) + seq!['\u{2026}'],
        text.len() > max_chars && max_chars == 0 ==> truncated(text, max_chars) == seq!['\u{2026}'],
{
    if text.len() > max_chars && max_chars > 0 {
        assert(truncated(text, max_chars) =~= text.take(max_chars - 1) + seq!['\u{2026}']);
    }
}

/// A profile is made of the given queries, and of three of its own where none are given.
pub proof fn lemma_profile_queries(
    given: Seq<Seq<char>>,
    queries: Vec<String>,
    error: ProfileError,
)
    ensures
        given.len() > 0 ==> queries_of(given) == given,
        given.len() == 0 ==> queries_of(given) == seq!["firefox"@, "chrmoe"@, "hotspot"@],
        plan_view(Ok(queries)) == Ok::<Seq<Seq<char>>, ProfileError>(string_views(queries@)),
        plan_view(Err(error)) == Err::<Seq<Seq<char>>, ProfileError>(error),
{
}

/// The timings of some runs and one more: its duration is added to the total, and the least and the
/// greatest duration are those of all runs.
pub proof fn lemma_timings(timings: Timings, durations: Seq<u128>, elapsed: u128)
    requires
        times(timings, durations.push(elapsed)),
    ensures
        sum(seq![]) == 0,
        timings.total == sum(durations) + elapsed,
        timings.min <= elapsed <= timings.max,
        forall|i: int|
            0 <= i < durations.len() ==> timings.min <= #[trigger] durations[i] <= timings.max,
        timings.min == elapsed || durations.contains(timings.min),
        timings.max == elapsed || durations.contains(timings.max),
{
    let all = durations.push(elapsed);
    assert(all.drop_last() =~= durations);
    assert(all[durations.len() as int] == elapsed);
    assert forall|i: int| 0 <= i < durations.len() implies timings.min <= #[trigger] durations[i]
        <= timings.max by {
        assert(all[i] == durations[i]);
    }
    let low = choose|k: int| 0 <= k < all.len() && all[k] == timings.min;
    if low < durations.len() {
        assert(durations[low] == timings.min);
    }
    let high = choose|k: int| 0 <= k < all.len() && all[k] == timings.max;
    if high < durations.len() {
        assert(durations[high] == timings.max);
    }
}

/// The timings of no runs: nothing in total, and no least and no greatest duration.
pub proof fn lemma_no_timings(timings: Timings)
    ensures
        times(timings, seq![]) <==> timings.total == 0 && timings.min == u128::MAX && timings.max
            == 0,
{
}

/// What the model of a profile holds: all of its parts.
pub proof fn lemma_profile_model(profile: QueryProfile)
    ensures
        profile@.query == profile.query@,
        profile@.runs == profile.runs,
        profile@.timings == profile.timings,
        profile@.result_count == profile.result_count,
        profile@.best_match is Some <==> profile.best_match is Some,
        profile.best_match is Some ==> profile@.best_match->0 == profile.best_match->0@,
{
}

} // verus!
