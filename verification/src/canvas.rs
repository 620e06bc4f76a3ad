//! The drawing surface: an RGBA8 pixel buffer plus a grid of write-version tiles.
//!
//! Every pixel-mutating call stamps the tiles its region overlaps with a fresh version, so a
//! later `region_version` query tells whether anything may have been written into an area
//! since an earlier point in time.

use vstd::prelude::*;
use crate::geometry::{Color, Rect, transparent, max_int, min_int};
use crate::grid::{lemma_grid_index_bounds, lemma_grid_index_injective, lemma_mul_le};
use crate::ids::fresh_id;

verus! {

/// Side length, in pixels, of one tile of the region-version grid.
pub const TILE_SIZE: u32 = 32;

/// Number of tiles needed to cover `n` pixels along one axis (at least one).
pub open spec fn tiles_for(n: int) -> int {
    if n <= 0 { 1 } else { (n - 1) / 32 + 1 }
}

/// The mathematical model of a canvas.
pub struct CanvasView {
    pub id: u64,
    pub width: u32,
    pub height: u32,
    /// Row-major pixels: `(x, y)` is at `y * width + x`.
    pub pixels: Seq<Color>,
    pub tiles_x: u32,
    pub tiles_y: u32,
    /// Row-major tile versions: tile `(tx, ty)` is at `ty * tiles_x + tx`.
    pub tiles: Seq<u64>,
    /// The version most recently handed out.
    pub next_version: u64,
}

impl CanvasView {
    pub open spec fn in_bounds(self, x: int, y: int) -> bool {
        0 <= x < self.width && 0 <= y < self.height
    }

    /// The color of pixel `(x, y)`.
    pub open spec fn at(self, x: int, y: int) -> Color {
        self.pixels[y * self.width + x]
    }

    pub open spec fn in_grid(self, tx: int, ty: int) -> bool {
        0 <= tx < self.tiles_x && 0 <= ty < self.tiles_y
    }

    /// The version of tile `(tx, ty)`.
    pub open spec fn tile(self, tx: int, ty: int) -> u64 {
        self.tiles[ty * self.tiles_x + tx]
    }

    /// Internal consistency: buffer sizes match the dimensions, and no tile carries a
    /// version newer than the last one handed out.
    pub open spec fn wf(self) -> bool {
        &&& self.pixels.len() == self.width * self.height
        &&& self.tiles_x == tiles_for(self.width as int)
        &&& self.tiles_y == tiles_for(self.height as int)
        &&& self.tiles.len() == self.tiles_x * self.tiles_y
        &&& forall|tx: int, ty: int| #[trigger]
            self.in_grid(tx, ty) ==> self.tile(tx, ty) <= self.next_version
    }

    /// Same canvas instance and geometry.
    pub open spec fn same_frame(self, other: CanvasView) -> bool {
        &&& self.id == other.id
        &&& self.width == other.width
        &&& self.height == other.height
        &&& self.tiles_x == other.tiles_x
        &&& self.tiles_y == other.tiles_y
    }

    /// `new` is this canvas after some writes: versions only ever move forward.
    pub open spec fn versions_advance_to(self, new: CanvasView) -> bool {
        &&& self.next_version <= new.next_version
        &&& forall|tx: int, ty: int| #[trigger] self.in_grid(tx, ty) ==> self.tile(tx, ty) <= new.tile(tx, ty)
    }

    /// The pixel grids of the two canvases agree everywhere.
    pub open spec fn same_pixels(self, other: CanvasView) -> bool {
        forall|x: int, y: int| #[trigger] self.in_bounds(x, y) ==> self.at(x, y) == other.at(x, y)
    }
}

/// The part of `region` inside a `w` x `h` canvas, as half-open bounds
/// `(x_lo, x_hi, y_lo, y_hi)`.
pub open spec fn clip_region(w: int, h: int, region: Rect) -> (int, int, int, int) {
    (
        max_int(region.x as int, 0),
        min_int(region.x + region.width, w),
        max_int(region.y as int, 0),
        min_int(region.y + region.height, h),
    )
}

/// The inclusive tile range `(tx_lo, tx_hi, ty_lo, ty_hi)` that the on-canvas part of
/// `region` overlaps, or `None` when that part is empty.
pub open spec fn tile_range_spec(v: CanvasView, region: Rect) -> Option<(int, int, int, int)> {
    let (x_lo, x_hi, y_lo, y_hi) = clip_region(v.width as int, v.height as int, region);
    if x_hi <= x_lo || y_hi <= y_lo {
        None
    } else {
        Some((x_lo / 32, (x_hi - 1) / 32, y_lo / 32, (y_hi - 1) / 32))
    }
}

/// Whether tile `(tx, ty)` is among those `region` overlaps.
pub open spec fn tile_in_region(v: CanvasView, region: Rect, tx: int, ty: int) -> bool {
    match tile_range_spec(v, region) {
        None => false,
        Some((a, b, c, d)) => a <= tx <= b && c <= ty <= d,
    }
}

pub open spec fn max_u64(a: u64, b: u64) -> u64 {
    if a >= b { a } else { b }
}

/// The newest version among tiles `tx_lo..tx_end` of row `ty`.
pub open spec fn row_max(v: CanvasView, ty: int, tx_lo: int, tx_end: int) -> u64
    decreases tx_end - tx_lo,
{
    if tx_end <= tx_lo {
        0
    } else {
        max_u64(row_max(v, ty, tx_lo, tx_end - 1), v.tile(tx_end - 1, ty))
    }
}

/// The newest version among tiles `tx_lo..tx_end` of rows `ty_lo..ty_end`.
pub open spec fn grid_max(v: CanvasView, ty_lo: int, ty_end: int, tx_lo: int, tx_end: int) -> u64
    decreases ty_end - ty_lo,
{
    if ty_end <= ty_lo {
        0
    } else {
        max_u64(grid_max(v, ty_lo, ty_end - 1, tx_lo, tx_end), row_max(v, ty_end - 1, tx_lo, tx_end))
    }
}

/// The newest version among the tiles `region` overlaps; `0` when it overlaps none.
pub open spec fn region_version_spec(v: CanvasView, region: Rect) -> u64 {
    match tile_range_spec(v, region) {
        None => 0,
        Some((a, b, c, d)) => grid_max(v, c, d + 1, a, b + 1),
    }
}

/// The version counter after one more write, saturating at `u64::MAX`.
pub open spec fn bump(n: u64) -> u64 {
    if n == u64::MAX { n } else { (n + 1) as u64 }
}

/// `new` is `old` after stamping the tiles `region` overlaps with a fresh version.
pub open spec fn touch_post(old: CanvasView, region: Rect, new: CanvasView) -> bool {
    &&& new.same_frame(old)
    &&& new.pixels == old.pixels
    &&& new.tiles.len() == old.tiles.len()
    &&& match tile_range_spec(old, region) {
        None => new.tiles == old.tiles && new.next_version == old.next_version,
        Some(_) => {
            &&& new.next_version == bump(old.next_version)
            &&& forall|tx: int, ty: int| #[trigger]
                old.in_grid(tx, ty) ==> new.tile(tx, ty) == (if tile_in_region(old, region, tx, ty) {
                    new.next_version
                } else {
                    old.tile(tx, ty)
                })
        },
    }
}

/// The one-pixel region `set_pixel` stamps for `(x, y)`; coordinates are reinterpreted as
/// `i32`, so on a canvas wider or taller than `i32::MAX` the far pixels stamp nothing.
pub open spec fn pixel_region(x: u32, y: u32) -> Rect {
    Rect { x: x as i32, y: y as i32, width: 1, height: 1 }
}

/// `new` is `old` after `set_pixel(x, y, c)`.
pub open spec fn set_pixel_post(old: CanvasView, x: u32, y: u32, c: Color, new: CanvasView) -> bool {
    if old.in_bounds(x as int, y as int) {
        &&& new.pixels == old.pixels.update(y * old.width + x, c)
        &&& touch_post(old.with_pixels(new.pixels), pixel_region(x, y), new)
    } else {
        new == old
    }
}

impl CanvasView {
    /// This view with its pixel buffer replaced.
    pub open spec fn with_pixels(self, pixels: Seq<Color>) -> CanvasView {
        CanvasView { pixels, ..self }
    }
}

/// Every tile of the range is covered by `grid_max`.
pub proof fn lemma_grid_max_ge(v: CanvasView, ty_lo: int, ty_end: int, tx_lo: int, tx_end: int, tx: int, ty: int)
    requires
        ty_lo <= ty < ty_end,
        tx_lo <= tx < tx_end,
    ensures
        v.tile(tx, ty) <= grid_max(v, ty_lo, ty_end, tx_lo, tx_end),
    decreases ty_end - ty_lo,
{
    if ty < ty_end - 1 {
        lemma_grid_max_ge(v, ty_lo, ty_end - 1, tx_lo, tx_end, tx, ty);
    } else {
        lemma_row_max_ge(v, ty, tx_lo, tx_end, tx);
    }
}

proof fn lemma_row_max_ge(v: CanvasView, ty: int, tx_lo: int, tx_end: int, tx: int)
    requires
        tx_lo <= tx < tx_end,
    ensures
        v.tile(tx, ty) <= row_max(v, ty, tx_lo, tx_end),
    decreases tx_end - tx_lo,
{
    if tx < tx_end - 1 {
        lemma_row_max_ge(v, ty, tx_lo, tx_end - 1, tx);
    }
}

/// `grid_max` never exceeds a bound that every tile of the range respects.
pub proof fn lemma_grid_max_le(v: CanvasView, ty_lo: int, ty_end: int, tx_lo: int, tx_end: int, bound: u64)
    requires
        forall|tx: int, ty: int| ty_lo <= ty < ty_end && tx_lo <= tx < tx_end ==> #[trigger] v.tile(tx, ty) <= bound,
    ensures
        grid_max(v, ty_lo, ty_end, tx_lo, tx_end) <= bound,
    decreases ty_end - ty_lo,
{
    if ty_end > ty_lo {
        lemma_grid_max_le(v, ty_lo, ty_end - 1, tx_lo, tx_end, bound);
        lemma_row_max_le(v, ty_end - 1, tx_lo, tx_end, bound);
    }
}

proof fn lemma_row_max_le(v: CanvasView, ty: int, tx_lo: int, tx_end: int, bound: u64)
    requires
        forall|tx: int| tx_lo <= tx < tx_end ==> #[trigger] v.tile(tx, ty) <= bound,
    ensures
        row_max(v, ty, tx_lo, tx_end) <= bound,
    decreases tx_end - tx_lo,
{
    if tx_end > tx_lo {
        lemma_row_max_le(v, ty, tx_lo, tx_end - 1, bound);
    }
}

/// `grid_max` only depends on the tiles of its range.
pub proof fn lemma_grid_max_frame(v1: CanvasView, v2: CanvasView, ty_lo: int, ty_end: int, tx_lo: int, tx_end: int)
    requires
        forall|tx: int, ty: int| ty_lo <= ty < ty_end && tx_lo <= tx < tx_end ==> #[trigger] v1.tile(tx, ty) == v2.tile(tx, ty),
    ensures
        grid_max(v1, ty_lo, ty_end, tx_lo, tx_end) == grid_max(v2, ty_lo, ty_end, tx_lo, tx_end),
    decreases ty_end - ty_lo,
{
    if ty_end > ty_lo {
        lemma_grid_max_frame(v1, v2, ty_lo, ty_end - 1, tx_lo, tx_end);
        lemma_row_max_frame(v1, v2, ty_end - 1, tx_lo, tx_end);
    }
}

proof fn lemma_row_max_frame(v1: CanvasView, v2: CanvasView, ty: int, tx_lo: int, tx_end: int)
    requires
        forall|tx: int| tx_lo <= tx < tx_end ==> #[trigger] v1.tile(tx, ty) == v2.tile(tx, ty),
    ensures
        row_max(v1, ty, tx_lo, tx_end) == row_max(v2, ty, tx_lo, tx_end),
    decreases tx_end - tx_lo,
{
    if tx_end > tx_lo {
        lemma_row_max_frame(v1, v2, ty, tx_lo, tx_end - 1);
    }
}

/// `grid_max` is monotone in the tiles.
pub proof fn lemma_grid_max_mono(v1: CanvasView, v2: CanvasView, ty_lo: int, ty_end: int, tx_lo: int, tx_end: int)
    requires
        forall|tx: int, ty: int| ty_lo <= ty < ty_end && tx_lo <= tx < tx_end ==> #[trigger] v1.tile(tx, ty) <= v2.tile(tx, ty),
    ensures
        grid_max(v1, ty_lo, ty_end, tx_lo, tx_end) <= grid_max(v2, ty_lo, ty_end, tx_lo, tx_end),
    decreases ty_end - ty_lo,
{
    if ty_end > ty_lo {
        lemma_grid_max_mono(v1, v2, ty_lo, ty_end - 1, tx_lo, tx_end);
        lemma_row_max_mono(v1, v2, ty_end - 1, tx_lo, tx_end);
    }
}

proof fn lemma_row_max_mono(v1: CanvasView, v2: CanvasView, ty: int, tx_lo: int, tx_end: int)
    requires
        forall|tx: int| tx_lo <= tx < tx_end ==> #[trigger] v1.tile(tx, ty) <= v2.tile(tx, ty),
    ensures
        row_max(v1, ty, tx_lo, tx_end) <= row_max(v2, ty, tx_lo, tx_end),
    decreases tx_end - tx_lo,
{
    if tx_end > tx_lo {
        lemma_row_max_mono(v1, v2, ty, tx_lo, tx_end - 1);
    }
}

/// The tiles a region overlaps lie inside the tile grid.
pub proof fn lemma_tile_range_in_grid(v: CanvasView, region: Rect, tx: int, ty: int)
    requires
        v.wf(),
        tile_in_region(v, region, tx, ty),
    ensures
        v.in_grid(tx, ty),
{
}

/// A pixel of the canvas inside `region` lies in a tile `region` overlaps.
pub proof fn lemma_pixel_tile_in_region(v: CanvasView, region: Rect, x: int, y: int)
    requires
        v.in_bounds(x, y),
        region.contains(x, y),
    ensures
        tile_in_region(v, region, x / 32, y / 32),
{
}

/// `set_pixel` only moves versions forward.
pub proof fn lemma_set_pixel_advances(old: CanvasView, x: u32, y: u32, c: Color, new: CanvasView)
    requires
        old.wf(),
        new.wf(),
        set_pixel_post(old, x, y, c, new),
    ensures
        new.same_frame(old),
        old.versions_advance_to(new),
{
    if old.in_bounds(x as int, y as int) {
        let mid = old.with_pixels(new.pixels);
        assert forall|tx: int, ty: int| #[trigger] old.in_grid(tx, ty) implies old.tile(tx, ty) <= new.tile(tx, ty) by {
            assert(mid.in_grid(tx, ty));
            assert(mid.tile(tx, ty) == old.tile(tx, ty));
        }
    }
}

/// Advancing versions is transitive.
pub proof fn lemma_advance_trans(a: CanvasView, b: CanvasView, c: CanvasView)
    requires
        b.same_frame(a),
        a.versions_advance_to(b),
        b.versions_advance_to(c),
    ensures
        a.versions_advance_to(c),
{
    assert forall|tx: int, ty: int| #[trigger] a.in_grid(tx, ty) implies a.tile(tx, ty) <= c.tile(tx, ty) by {
        assert(b.in_grid(tx, ty));
    }
}

/// While no write has reached any tile (all still at version `0`), every region's version
/// is `0`.
pub proof fn law_unwritten_region_version_is_zero(v: CanvasView, region: Rect)
    requires
        v.wf(),
        forall|tx: int, ty: int| #[trigger] v.in_grid(tx, ty) ==> v.tile(tx, ty) == 0,
    ensures
        region_version_spec(v, region) == 0,
{
    match tile_range_spec(v, region) {
        None => {},
        Some((a, b, c, d)) => {
            assert forall|tx: int, ty: int| c <= ty < d + 1 && a <= tx < b + 1 implies #[trigger] v.tile(tx, ty)
                <= 0 by {
                assert(v.in_grid(tx, ty));
            }
            lemma_grid_max_le(v, c, d + 1, a, b + 1, 0);
        },
    }
}

/// No write ever makes a region look older: region versions are monotone.
pub proof fn law_region_version_monotone(old: CanvasView, new: CanvasView, region: Rect)
    requires
        old.wf(),
        new.same_frame(old),
        old.versions_advance_to(new),
    ensures
        region_version_spec(old, region) <= region_version_spec(new, region),
{
    match tile_range_spec(old, region) {
        None => {},
        Some((a, b, c, d)) => {
            assert forall|tx: int, ty: int| c <= ty < d + 1 && a <= tx < b + 1 implies #[trigger] old.tile(tx, ty)
                <= new.tile(tx, ty) by {
                assert(old.in_grid(tx, ty));
            }
            lemma_grid_max_mono(old, new, c, d + 1, a, b + 1);
        },
    }
}

/// Reading a pixel back gives what `set_pixel` wrote there, and every other pixel keeps
/// its color.
pub proof fn law_set_pixel_then_read(old: CanvasView, x: u32, y: u32, c: Color, new: CanvasView)
    requires
        old.wf(),
        set_pixel_post(old, x, y, c, new),
    ensures
        old.in_bounds(x as int, y as int) ==> new.at(x as int, y as int) == c,
        forall|a: int, b: int| #[trigger] old.in_bounds(a, b) && (a != x || b != y) ==> new.at(a, b) == old.at(a, b),
{
    if old.in_bounds(x as int, y as int) {
        lemma_grid_index_bounds(old.width as int, old.height as int, x as int, y as int);
        assert forall|a: int, b: int| #[trigger] old.in_bounds(a, b) && (a != x || b != y) implies new.at(a, b)
            == old.at(a, b) by {
            lemma_grid_index_bounds(old.width as int, old.height as int, a, b);
            if b * old.width + a == y * old.width + x {
                lemma_grid_index_injective(old.width as int, a, b, x as int, y as int);
            }
        }
    }
}

/// A write to a pixel inside `region` makes the region's version strictly newer (as long as
/// the version counter has not saturated, and the pixel's coordinates fit in `i32`).
pub proof fn law_write_inside_region_is_seen(old: CanvasView, x: u32, y: u32, c: Color, new: CanvasView, region: Rect)
    requires
        old.wf(),
        set_pixel_post(old, x, y, c, new),
        old.in_bounds(x as int, y as int),
        region.contains(x as int, y as int),
        x <= i32::MAX,
        y <= i32::MAX,
        old.next_version < u64::MAX,
    ensures
        region_version_spec(old, region) < region_version_spec(new, region),
{
    lemma_set_pixel_stamps_its_tile(old, x, y, c, new);
    lemma_newer_tile_is_seen(old, new, region, x as int, y as int);
}

/// A write to a pixel whose tile `region` does not overlap leaves the region's version
/// unchanged.
pub proof fn law_write_outside_region_is_unseen(old: CanvasView, x: u32, y: u32, c: Color, new: CanvasView, region: Rect)
    requires
        old.wf(),
        set_pixel_post(old, x, y, c, new),
        !tile_in_region(old, region, x as int / 32, y as int / 32),
    ensures
        region_version_spec(old, region) == region_version_spec(new, region),
{
    if old.in_bounds(x as int, y as int) {
        let mid = old.with_pixels(new.pixels);
        match tile_range_spec(old, region) {
            None => {},
            Some((a, b, cc, d)) => {
                assert forall|ttx: int, tty: int| cc <= tty < d + 1 && a <= ttx < b + 1 implies #[trigger] old.tile(ttx, tty)
                    == new.tile(ttx, tty) by {
                    assert(mid.in_grid(ttx, tty));
                    if tile_in_region(old, pixel_region(x, y), ttx, tty) {
                        // the one-pixel region overlaps exactly the tile of (x, y), if any
                        assert(x as i32 == x || (x as i32) < 0) by (bit_vector);
                        assert(y as i32 == y || (y as i32) < 0) by (bit_vector);
                    }
                }
                lemma_grid_max_frame(old, new, cc, d + 1, a, b + 1);
            },
        }
    }
}

/// A history of one canvas: each state is reached from the one before by writes, which only
/// ever move versions forward (as every writer of `Canvas` ensures).
pub open spec fn is_history(h: Seq<CanvasView>) -> bool {
    &&& forall|i: int| 0 <= i < h.len() ==> (#[trigger] h[i]).wf()
    &&& forall|i: int| #![trigger h[i + 1]] 0 <= i < h.len() - 1 ==> h[i + 1].same_frame(h[i])
        && h[i].versions_advance_to(h[i + 1])
}

/// Over any history of writes and reads, a region's version never decreases.
pub proof fn law_region_version_never_decreases(h: Seq<CanvasView>, region: Rect, i: int, j: int)
    requires
        is_history(h),
        0 <= i <= j < h.len(),
    ensures
        region_version_spec(h[i], region) <= region_version_spec(h[j], region),
    decreases j - i,
{
    if i < j {
        law_region_version_never_decreases(h, region, i, j - 1);
        assert(h[(j - 1) + 1].same_frame(h[j - 1]));
        law_region_version_monotone(h[j - 1], h[j], region);
    }
}

/// Over any history, a step that makes the tile of an on-canvas pixel of `region` newer than
/// anything before it (as a `set_pixel` there, or a `draw_shape`, `draw_text` or `place`
/// over it does while the version counter has not saturated) leaves the region's version at
/// the end strictly above its version at the start.
pub proof fn law_change_in_history_is_seen(h: Seq<CanvasView>, region: Rect, k: int, x: int, y: int)
    requires
        is_history(h),
        0 <= k < h.len() - 1,
        h[k].in_bounds(x, y),
        region.contains(x, y),
        h[k].next_version < h[k + 1].tile(x / 32, y / 32),
    ensures
        region_version_spec(h[0], region) < region_version_spec(h[h.len() - 1], region),
{
    law_region_version_never_decreases(h, region, 0, k);
    assert(h[k].wf());
    assert(h[k + 1].same_frame(h[k]));
    lemma_newer_tile_is_seen(h[k], h[k + 1], region, x, y);
    law_region_version_never_decreases(h, region, k + 1, h.len() - 1);
}

/// The version of a region over a history of one canvas: it never decreases from one state
/// to a later one, and it ends strictly above where it started as soon as some step made
/// the tile of an on-canvas pixel of the region newer than anything before that step (as a
/// `set_pixel` there, or a `draw_shape`, `draw_text`, `place` or footprint restore over it
/// does while the version counter has not saturated). Reads leave the canvas, and so every
/// version, as it is.
pub proof fn law_region_version_over_history(h: Seq<CanvasView>, region: Rect)
    requires
        is_history(h),
        h.len() > 0,
    ensures
        forall|i: int, j: int| #![trigger h[i], h[j]]
            0 <= i <= j < h.len() ==> region_version_spec(h[i], region) <= region_version_spec(h[j], region),
        forall|k: int, x: int, y: int| #![trigger h[k].in_bounds(x, y), region.contains(x, y)]
            0 <= k < h.len() - 1 && h[k].in_bounds(x, y) && region.contains(x, y) && h[k].next_version < h[k
                + 1].tile(x / 32, y / 32) ==> region_version_spec(h[0], region) < region_version_spec(h[h.len() - 1], region),
{
    assert forall|i: int, j: int| #![trigger h[i], h[j]]
        0 <= i <= j < h.len() implies region_version_spec(h[i], region) <= region_version_spec(h[j], region) by {
        law_region_version_never_decreases(h, region, i, j);
    }
    assert forall|k: int, x: int, y: int| #![trigger h[k].in_bounds(x, y), region.contains(x, y)]
        0 <= k < h.len() - 1 && h[k].in_bounds(x, y) && region.contains(x, y) && h[k].next_version < h[k + 1].tile(
            x / 32,
            y / 32,
        ) implies region_version_spec(h[0], region) < region_version_spec(h[h.len() - 1], region) by {
        law_change_in_history_is_seen(h, region, k, x, y);
    }
}

/// Every tile `region` overlaps now carries a version newer than any `old` had.
pub open spec fn stamps(old: CanvasView, region: Rect, new: CanvasView) -> bool {
    forall|tx: int, ty: int| #[trigger] tile_in_region(old, region, tx, ty) ==> old.next_version < new.tile(tx, ty)
}

/// A tile newer than anything `old` had makes every region over one of its on-canvas pixels
/// newer than anything `old` had.
pub proof fn lemma_newer_tile_is_seen(old: CanvasView, new: CanvasView, region: Rect, x: int, y: int)
    requires
        old.wf(),
        new.same_frame(old),
        old.in_bounds(x, y),
        region.contains(x, y),
        old.next_version < new.tile(x / 32, y / 32),
    ensures
        region_version_spec(old, region) <= old.next_version < region_version_spec(new, region),
{
    lemma_pixel_tile_in_region(old, region, x, y);
    let (a, b, c, d) = tile_range_spec(old, region).unwrap();
    assert(tile_range_spec(new, region) == tile_range_spec(old, region));
    lemma_grid_max_ge(new, c, d + 1, a, b + 1, x / 32, y / 32);
    assert forall|tx: int, ty: int| c <= ty < d + 1 && a <= tx < b + 1 implies #[trigger] old.tile(tx, ty)
        <= old.next_version by {
        assert(old.in_grid(tx, ty));
    }
    lemma_grid_max_le(old, c, d + 1, a, b + 1, old.next_version);
}

/// After a stamp over `stamped`, every region sharing an on-canvas pixel with `stamped` has a
/// version newer than any before: the change is seen from every region it touches.
pub proof fn law_stamp_is_seen(old: CanvasView, new: CanvasView, stamped: Rect, region: Rect, x: int, y: int)
    requires
        old.wf(),
        new.same_frame(old),
        stamps(old, stamped, new),
        old.in_bounds(x, y),
        stamped.contains(x, y),
        region.contains(x, y),
    ensures
        region_version_spec(old, region) <= old.next_version < region_version_spec(new, region),
{
    lemma_pixel_tile_in_region(old, stamped, x, y);
    lemma_newer_tile_is_seen(old, new, region, x, y);
}

/// `set_pixel` on an on-canvas pixel whose coordinates fit in `i32` gives that pixel's tile
/// the newest version.
pub proof fn lemma_set_pixel_stamps_its_tile(old: CanvasView, x: u32, y: u32, c: Color, new: CanvasView)
    requires
        old.wf(),
        set_pixel_post(old, x, y, c, new),
        old.in_bounds(x as int, y as int),
        x <= i32::MAX,
        y <= i32::MAX,
    ensures
        new.next_version == bump(old.next_version),
        new.tile(x as int / 32, y as int / 32) == new.next_version,
{
    assert((x as i32) as int == x) by (bit_vector)
        requires
            x <= 0x7fff_ffffu32,
    ;
    assert((y as i32) as int == y) by (bit_vector)
        requires
            y <= 0x7fff_ffffu32,
    ;
    let mid = old.with_pixels(new.pixels);
    lemma_pixel_tile_in_region(old, pixel_region(x, y), x as int, y as int);
    assert(mid.in_grid(x as int / 32, y as int / 32));
}

/// The RGBA8 bytes of a row of pixels: R, G, B, A for each pixel in turn.
#[verifier::opaque]
pub open spec fn rgba_seq(pixels: Seq<Color>) -> Seq<u8>
    decreases pixels.len(),
{
    if pixels.len() == 0 {
        Seq::empty()
    } else {
        let c = pixels.last();
        rgba_seq(pixels.drop_last()) + seq![c.r, c.g, c.b, c.a]
    }
}

/// A byte sequence holding the channels of each pixel in turn is `rgba_seq` of the pixels.
pub proof fn lemma_rgba_seq_from_channels(bytes: Seq<u8>, pixels: Seq<Color>)
    requires
        bytes.len() == 4 * pixels.len(),
        forall|i: int|
            0 <= i < pixels.len() ==> {
                &&& #[trigger] bytes[4 * i] == pixels[i].r
                &&& bytes[4 * i + 1] == pixels[i].g
                &&& bytes[4 * i + 2] == pixels[i].b
                &&& bytes[4 * i + 3] == pixels[i].a
            },
    ensures
        bytes == rgba_seq(pixels),
    decreases pixels.len(),
{
    reveal(rgba_seq);
    if pixels.len() > 0 {
        let n = pixels.len() - 1;
        let front = bytes.take(4 * n);
        assert forall|i: int| 0 <= i < n implies {
            &&& #[trigger] front[4 * i] == pixels.drop_last()[i].r
            &&& front[4 * i + 1] == pixels.drop_last()[i].g
            &&& front[4 * i + 2] == pixels.drop_last()[i].b
            &&& front[4 * i + 3] == pixels.drop_last()[i].a
        } by {
            assert(bytes[4 * i] == pixels[i].r);
        }
        lemma_rgba_seq_from_channels(front, pixels.drop_last());
        assert(bytes[4 * n] == pixels[n].r);
        assert(bytes =~= front + seq![pixels.last().r, pixels.last().g, pixels.last().b, pixels.last().a]);
    } else {
        assert(bytes =~= Seq::<u8>::empty());
    }
}

/// The number of pixels of the canvas.
pub open spec fn area(v: CanvasView) -> int {
    v.width * v.height
}

/// Counting `k` rows of `n` cells one row further.
pub proof fn lemma_rows_step(n: int, k: int)
    ensures
        n * k + n == n * (k + 1),
{
    assert(n * k + n == n * (k + 1)) by (nonlinear_arith);
}

/// `n` cells in each of at most `h` rows of a `w` x `h` canvas, with `n <= w`, are at most
/// its area.
pub proof fn lemma_rows_within_area(v: CanvasView, n: int, k: int)
    requires
        0 <= n <= v.width,
        0 <= k <= v.height,
    ensures
        0 <= n * k <= area(v),
{
    lemma_mul_le(n, k, v.width as int, v.height as int);
    assert(0 <= n * k) by (nonlinear_arith)
        requires
            0 <= n,
            0 <= k,
    ;
}

/// `new` is `old` with exactly the in-bounds pixels satisfying `covered` recolored to `color`;
/// versions only moved forward.
pub open spec fn recolors(old: CanvasView, new: CanvasView, color: Color, covered: spec_fn(int, int) -> bool) -> bool {
    &&& new.same_frame(old)
    &&& old.versions_advance_to(new)
    &&& forall|x: int, y: int| #[trigger]
        old.in_bounds(x, y) ==> new.at(x, y) == (if covered(x, y) { color } else { old.at(x, y) })
}

/// Tile `(tx, ty)` of `v` holds an on-canvas pixel satisfying `covered`.
pub open spec fn tile_holds(v: CanvasView, covered: spec_fn(int, int) -> bool, tx: int, ty: int) -> bool {
    exists|x: int, y: int| #![trigger covered(x, y)] v.in_bounds(x, y) && covered(x, y) && x / 32 == tx && y / 32 == ty
}

/// Every tile of `old` holding no pixel of `covered` keeps its version in `new`.
pub open spec fn keeps_other_tiles(old: CanvasView, new: CanvasView, covered: spec_fn(int, int) -> bool) -> bool {
    forall|tx: int, ty: int| #[trigger]
        old.in_grid(tx, ty) && !tile_holds(old, covered, tx, ty) ==> new.tile(tx, ty) == old.tile(tx, ty)
}

/// Every tile of `old` that `region` does not overlap keeps its version in `new`.
pub open spec fn keeps_tiles_outside(old: CanvasView, region: Rect, new: CanvasView) -> bool {
    forall|tx: int, ty: int| #[trigger]
        old.in_grid(tx, ty) && !tile_in_region(old, region, tx, ty) ==> new.tile(tx, ty) == old.tile(tx, ty)
}

/// `new` is `old` with exactly the in-bounds pixels satisfying `covered` painted `color`, pixel
/// by pixel: versions only moved forward, and only in tiles holding a painted pixel.
pub open spec fn paints(old: CanvasView, new: CanvasView, color: Color, covered: spec_fn(int, int) -> bool) -> bool {
    &&& recolors(old, new, color, covered)
    &&& keeps_other_tiles(old, new, covered)
}

/// `set_pixel` changes the version of the written pixel's tile only.
pub proof fn lemma_set_pixel_keeps_other_tiles(old: CanvasView, x: u32, y: u32, c: Color, new: CanvasView)
    requires
        old.wf(),
        set_pixel_post(old, x, y, c, new),
    ensures
        forall|tx: int, ty: int| #[trigger]
            old.in_grid(tx, ty) && !(tx == x as int / 32 && ty == y as int / 32) ==> new.tile(tx, ty) == old.tile(tx, ty),
{
    if old.in_bounds(x as int, y as int) {
        let mid = old.with_pixels(new.pixels);
        assert forall|tx: int, ty: int| #[trigger]
            old.in_grid(tx, ty) && !(tx == x as int / 32 && ty == y as int / 32) implies new.tile(tx, ty) == old.tile(tx, ty) by {
            assert(mid.in_grid(tx, ty));
            assert(x as i32 == x || (x as i32) < 0) by (bit_vector);
            assert(y as i32 == y || (y as i32) < 0) by (bit_vector);
        }
    }
}

/// A `set_pixel` at an on-canvas pixel inside `region` keeps every tile outside `region` as
/// `c0` had it, if the canvas before the write did.
pub proof fn lemma_set_pixel_inside_keeps_outside(
    c0: CanvasView,
    region: Rect,
    before: CanvasView,
    x: u32,
    y: u32,
    color: Color,
    after: CanvasView,
)
    requires
        c0.wf(),
        before.wf(),
        before.same_frame(c0),
        keeps_tiles_outside(c0, region, before),
        set_pixel_post(before, x, y, color, after),
        c0.in_bounds(x as int, y as int),
        region.contains(x as int, y as int),
    ensures
        keeps_tiles_outside(c0, region, after),
{
    lemma_set_pixel_keeps_other_tiles(before, x, y, color, after);
    lemma_pixel_tile_in_region(c0, region, x as int, y as int);
    assert forall|tx: int, ty: int| #[trigger]
        c0.in_grid(tx, ty) && !tile_in_region(c0, region, tx, ty) implies after.tile(tx, ty) == c0.tile(tx, ty) by {
        assert(before.in_grid(tx, ty));
    }
}

/// Writes confined to the tiles `region` overlaps leave the version of every region that
/// shares no tile with it unchanged.
pub proof fn law_disjoint_regions_keep_versions(old: CanvasView, new: CanvasView, region: Rect, other: Rect)
    requires
        old.wf(),
        new.same_frame(old),
        keeps_tiles_outside(old, region, new),
        forall|tx: int, ty: int| #[trigger] tile_in_region(old, other, tx, ty) ==> !tile_in_region(old, region, tx, ty),
    ensures
        region_version_spec(new, other) == region_version_spec(old, other),
{
    match tile_range_spec(old, other) {
        None => {},
        Some((a, b, cc, d)) => {
            assert forall|tx: int, ty: int| cc <= ty < d + 1 && a <= tx < b + 1 implies #[trigger] old.tile(tx, ty)
                == new.tile(tx, ty) by {
                assert(tile_in_region(old, other, tx, ty));
                lemma_tile_range_in_grid(old, other, tx, ty);
            }
            lemma_grid_max_frame(old, new, cc, d + 1, a, b + 1);
        },
    }
}

/// Painting nothing: the canvas as it is.
pub proof fn lemma_paint_nothing(c: CanvasView, color: Color)
    requires
        c.wf(),
    ensures
        paints(c, c, color, |x: int, y: int| false),
{
}

/// One more `set_pixel` with the same color extends the painted set by that pixel.
pub proof fn lemma_paint_step(
    c0: CanvasView,
    before: CanvasView,
    after: CanvasView,
    color: Color,
    covered: spec_fn(int, int) -> bool,
    x: u32,
    y: u32,
)
    requires
        c0.wf(),
        before.wf(),
        after.wf(),
        paints(c0, before, color, covered),
        set_pixel_post(before, x, y, color, after),
    ensures
        paints(c0, after, color, |a: int, b: int| covered(a, b) || (a == x && b == y)),
{
    let grown = |a: int, b: int| covered(a, b) || (a == x && b == y);
    law_set_pixel_then_read(before, x, y, color, after);
    lemma_set_pixel_advances(before, x, y, color, after);
    lemma_set_pixel_keeps_other_tiles(before, x, y, color, after);
    lemma_advance_trans(c0, before, after);
    assert forall|a: int, b: int| #[trigger] c0.in_bounds(a, b) implies after.at(a, b) == (if covered(a, b) || (a == x
        && b == y) {
        color
    } else {
        c0.at(a, b)
    }) by {
        assert(before.in_bounds(a, b));
    }
    assert forall|tx: int, ty: int| #[trigger]
        c0.in_grid(tx, ty) && !tile_holds(c0, grown, tx, ty) implies after.tile(tx, ty) == c0.tile(tx, ty) by {
        if tile_holds(c0, covered, tx, ty) {
            let (a, b) = choose|a: int, b: int| #![trigger covered(a, b)]
                c0.in_bounds(a, b) && covered(a, b) && a / 32 == tx && b / 32 == ty;
            assert(grown(a, b));
        }
        assert(before.in_grid(tx, ty));
        if before.in_bounds(x as int, y as int) {
            assert(grown(x as int, y as int));
        }
    }
}

/// Two recoloring passes with the same color compose.
pub proof fn lemma_recolor_trans(
    c0: CanvasView,
    c1: CanvasView,
    c2: CanvasView,
    color: Color,
    p1: spec_fn(int, int) -> bool,
    p2: spec_fn(int, int) -> bool,
)
    requires
        recolors(c0, c1, color, p1),
        recolors(c1, c2, color, p2),
    ensures
        recolors(c0, c2, color, |a: int, b: int| p1(a, b) || p2(a, b)),
{
    lemma_advance_trans(c0, c1, c2);
    assert forall|a: int, b: int| #[trigger] c0.in_bounds(a, b) implies c2.at(a, b) == (if p1(a, b) || p2(a, b) {
        color
    } else {
        c0.at(a, b)
    }) by {
        assert(c1.in_bounds(a, b));
    }
}

/// Two paint passes with the same color compose.
pub proof fn lemma_paint_trans(
    c0: CanvasView,
    c1: CanvasView,
    c2: CanvasView,
    color: Color,
    p1: spec_fn(int, int) -> bool,
    p2: spec_fn(int, int) -> bool,
)
    requires
        paints(c0, c1, color, p1),
        paints(c1, c2, color, p2),
    ensures
        paints(c0, c2, color, |a: int, b: int| p1(a, b) || p2(a, b)),
{
    let both = |a: int, b: int| p1(a, b) || p2(a, b);
    lemma_recolor_trans(c0, c1, c2, color, p1, p2);
    assert forall|tx: int, ty: int| #[trigger]
        c0.in_grid(tx, ty) && !tile_holds(c0, both, tx, ty) implies c2.tile(tx, ty) == c0.tile(tx, ty) by {
        if tile_holds(c0, p1, tx, ty) {
            let (a, b) = choose|a: int, b: int| #![trigger p1(a, b)]
                c0.in_bounds(a, b) && p1(a, b) && a / 32 == tx && b / 32 == ty;
            assert(both(a, b));
        }
        if tile_holds(c1, p2, tx, ty) {
            let (a, b) = choose|a: int, b: int| #![trigger p2(a, b)]
                c1.in_bounds(a, b) && p2(a, b) && a / 32 == tx && b / 32 == ty;
            assert(both(a, b));
        }
        assert(c1.in_grid(tx, ty));
    }
}

/// Recoloring is insensitive to how the recolored set is written down.
pub proof fn lemma_recolor_same_set(
    c0: CanvasView,
    c1: CanvasView,
    color: Color,
    p1: spec_fn(int, int) -> bool,
    p2: spec_fn(int, int) -> bool,
)
    requires
        recolors(c0, c1, color, p1),
        forall|a: int, b: int| c0.in_bounds(a, b) ==> (p1(a, b) <==> p2(a, b)),
    ensures
        recolors(c0, c1, color, p2),
{
    assert forall|a: int, b: int| #[trigger] c0.in_bounds(a, b) implies c1.at(a, b) == (if p2(a, b) {
        color
    } else {
        c0.at(a, b)
    }) by {
        assert(p1(a, b) <==> p2(a, b));
    }
}

/// Painting is insensitive to how the painted set is written down.
pub proof fn lemma_paint_same_set(
    c0: CanvasView,
    c1: CanvasView,
    color: Color,
    p1: spec_fn(int, int) -> bool,
    p2: spec_fn(int, int) -> bool,
)
    requires
        paints(c0, c1, color, p1),
        forall|a: int, b: int| c0.in_bounds(a, b) ==> (p1(a, b) <==> p2(a, b)),
    ensures
        paints(c0, c1, color, p2),
{
    lemma_recolor_same_set(c0, c1, color, p1, p2);
    assert forall|tx: int, ty: int| #[trigger]
        c0.in_grid(tx, ty) && !tile_holds(c0, p2, tx, ty) implies c1.tile(tx, ty) == c0.tile(tx, ty) by {
        if tile_holds(c0, p1, tx, ty) {
            let (a, b) = choose|a: int, b: int| #![trigger p1(a, b)]
                c0.in_bounds(a, b) && p1(a, b) && a / 32 == tx && b / 32 == ty;
            assert(p2(a, b));
        }
    }
}

/// Stamping a region recolors no pixel, changes only the tiles the region overlaps, and
/// makes every one of them newer than anything before (unless the version counter
/// saturated).
pub proof fn lemma_touch_recolors_nothing(old: CanvasView, region: Rect, new: CanvasView, color: Color)
    requires
        old.wf(),
        touch_post(old, region, new),
    ensures
        recolors(old, new, color, |x: int, y: int| false),
        keeps_tiles_outside(old, region, new),
        old.next_version < u64::MAX ==> stamps(old, region, new),
{
    assert forall|tx: int, ty: int| #[trigger] old.in_grid(tx, ty) implies old.tile(tx, ty) <= new.tile(tx, ty) by {
    }
    assert forall|x: int, y: int| #[trigger] old.in_bounds(x, y) implies new.at(x, y) == old.at(x, y) by {
    }
    if old.next_version < u64::MAX {
        assert forall|tx: int, ty: int| #[trigger] tile_in_region(old, region, tx, ty) implies old.next_version < new.tile(tx, ty) by {
            lemma_tile_range_in_grid(old, region, tx, ty);
        }
    }
}

/// Stamping `region` and then painting `covered` recolors exactly `covered`, makes the
/// region's tiles newer than anything before (unless the version counter saturated), and,
/// when every painted pixel lies inside `region`, leaves every tile outside it as it was.
pub proof fn lemma_stamp_then_paint(
    c0: CanvasView,
    c1: CanvasView,
    c2: CanvasView,
    region: Rect,
    color: Color,
    covered: spec_fn(int, int) -> bool,
)
    requires
        c0.wf(),
        touch_post(c0, region, c1),
        paints(c1, c2, color, covered),
    ensures
        recolors(c0, c2, color, covered),
        c0.next_version < u64::MAX ==> stamps(c0, region, c2),
        (forall|x: int, y: int| #[trigger] covered(x, y) && c0.in_bounds(x, y) ==> region.contains(x, y))
            ==> keeps_tiles_outside(c0, region, c2),
{
    lemma_touch_recolors_nothing(c0, region, c1, color);
    lemma_recolor_trans(c0, c1, c2, color, |x: int, y: int| false, covered);
    lemma_recolor_same_set(c0, c2, color, |x: int, y: int| false || covered(x, y), covered);
    if c0.next_version < u64::MAX {
        assert forall|tx: int, ty: int| #[trigger] tile_in_region(c0, region, tx, ty) implies c0.next_version
            < c2.tile(tx, ty) by {
            lemma_tile_range_in_grid(c0, region, tx, ty);
            assert(c1.in_grid(tx, ty));
        }
    }
    if forall|x: int, y: int| #[trigger] covered(x, y) && c0.in_bounds(x, y) ==> region.contains(x, y) {
        assert forall|tx: int, ty: int| #[trigger]
            c0.in_grid(tx, ty) && !tile_in_region(c0, region, tx, ty) implies c2.tile(tx, ty) == c0.tile(tx, ty) by {
            if tile_holds(c1, covered, tx, ty) {
                let (x, y) = choose|x: int, y: int| #![trigger covered(x, y)]
                    c1.in_bounds(x, y) && covered(x, y) && x / 32 == tx && y / 32 == ty;
                assert(c0.in_bounds(x, y));
                lemma_pixel_tile_in_region(c0, region, x, y);
            }
            assert(c1.in_grid(tx, ty));
        }
    }
}

/// Replacing the pixels by a buffer of the same size keeps a view consistent.
pub proof fn lemma_wf_with_pixels(v: CanvasView, pixels: Seq<Color>)
    requires
        v.wf(),
        pixels.len() == v.pixels.len(),
    ensures
        v.with_pixels(pixels).wf(),
{
    let w = v.with_pixels(pixels);
    assert forall|tx: int, ty: int| #[trigger] w.in_grid(tx, ty) implies w.tile(tx, ty) <= w.next_version by {
        assert(v.in_grid(tx, ty));
    }
}

/// A pixel buffer that can be drawn into: RGBA8, origin top-left, row-major.
///
/// Each canvas carries an identity (`id`) so that a sprite's saved pixels are never restored
/// onto another canvas. Identities are drawn at random (a process-wide counter would need
/// global state, which this library does not keep): distinct canvases get distinct ids with
/// overwhelming probability, but only a clone is guaranteed an id different from its source.
#[derive(Debug)]
pub struct Canvas {
    id: u64,
    width: u32,
    height: u32,
    pixels: Vec<Color>,
    tiles_x: u32,
    tiles_y: u32,
    tile_versions: Vec<u64>,
    next_version: u64,
}

impl View for Canvas {
    type V = CanvasView;

    closed spec fn view(&self) -> CanvasView {
        CanvasView {
            id: self.id,
            width: self.width,
            height: self.height,
            pixels: self.pixels@,
            tiles_x: self.tiles_x,
            tiles_y: self.tiles_y,
            tiles: self.tile_versions@,
            next_version: self.next_version,
        }
    }
}

/// Every tile version stays within the bound, and the grid sizes are consistent.
proof fn lemma_tiles_cover(w: u32, h: u32)
    ensures
        1 <= tiles_for(w as int) <= 134217728,
        1 <= tiles_for(h as int) <= 134217728,
        tiles_for(w as int) * tiles_for(h as int) <= usize::MAX || (w as int) * (h as int) > usize::MAX,
        w > 0 ==> tiles_for(w as int) <= w,
        h > 0 ==> tiles_for(h as int) <= h,
{
    let tw = tiles_for(w as int);
    let th = tiles_for(h as int);
    if w > 0 && h > 0 {
        lemma_mul_le(tw, th, w as int, h as int);
    } else if w == 0 {
        assert(tw * th == th);
    } else {
        assert(tw * th == tw);
    }
}

impl Clone for Canvas {
    /// A copy of the pixels under a fresh identity (never the original's), with a fresh version
    /// history.
    fn clone(&self) -> (c: Self)
        ensures
            c@.id != self@.id,
            c@.width == self@.width,
            c@.height == self@.height,
            c@.pixels == self@.pixels,
            c@.tiles_x == self@.tiles_x,
            c@.tiles_y == self@.tiles_y,
            c@.tiles.len() == self@.tiles.len(),
            forall|i: int| 0 <= i < c@.tiles.len() ==> c@.tiles[i] == 0,
            c@.next_version == 0,
            self.wf() ==> c.wf(),
    {
        let mut pixels: Vec<Color> = Vec::new();
        let n = self.pixels.len();
        let mut i: usize = 0;
        while i < n
            invariant
                n == self.pixels@.len(),
                i <= n,
                pixels@ == self.pixels@.subrange(0, i as int),
            decreases n - i,
        {
            pixels.push(self.pixels[i]);
            i += 1;
            assert(pixels@ =~= self.pixels@.subrange(0, i as int));
        }
        assert(pixels@ =~= self.pixels@);
        let tile_versions = zeroed_versions(self.tile_versions.len());
        let drawn = fresh_id(0);
        let id = if drawn != self.id {
            drawn
        } else if self.id == u64::MAX {
            0
        } else {
            self.id + 1
        };
        let c = Canvas {
            id,
            width: self.width,
            height: self.height,
            pixels,
            tiles_x: self.tiles_x,
            tiles_y: self.tiles_y,
            tile_versions,
            next_version: 0,
        };
        proof {
            if self.wf() {
                assert forall|tx: int, ty: int| #[trigger] c@.in_grid(tx, ty) implies c@.tile(tx, ty)
                    <= c@.next_version by {
                    lemma_grid_index_bounds(c@.tiles_x as int, c@.tiles_y as int, tx, ty);
                }
            }
        }
        c
    }
}

/// A vector of `n` zero versions.
fn zeroed_versions(n: usize) -> (v: Vec<u64>)
    ensures
        v@.len() == n,
        forall|i: int| 0 <= i < n ==> v@[i] == 0,
{
    let mut v: Vec<u64> = Vec::new();
    let mut i: usize = 0;
    while i < n
        invariant
            i <= n,
            v@.len() == i,
            forall|j: int| 0 <= j < i ==> v@[j] == 0,
        decreases n - i,
    {
        v.push(0);
        i += 1;
    }
    v
}

impl Canvas {
    /// Internal consistency of the canvas (see `CanvasView::wf`).
    pub open spec fn wf(&self) -> bool {
        &&& self@.wf()
        &&& self@.pixels.len() <= usize::MAX
        &&& self@.tiles.len() <= usize::MAX
    }

    /// A `width` x `height` canvas with every pixel fully transparent and no writes yet.
    pub fn new(width: u32, height: u32) -> (c: Self)
        requires
            width * height <= usize::MAX,
        ensures
            c.wf(),
            c@.width == width,
            c@.height == height,
            c@.next_version == 0,
            forall|x: int, y: int| #[trigger] c@.in_bounds(x, y) ==> c@.at(x, y) == transparent(),
            forall|tx: int, ty: int| #[trigger] c@.in_grid(tx, ty) ==> c@.tile(tx, ty) == 0,
    {
        let len = width as usize * height as usize;
        let mut pixels: Vec<Color> = Vec::new();
        let mut i: usize = 0;
        while i < len
            invariant
                i <= len,
                pixels@.len() == i,
                forall|j: int| 0 <= j < i ==> pixels@[j] == transparent(),
            decreases len - i,
        {
            pixels.push(Color::default());
            i += 1;
        }
        let tiles_x: u32 = if width == 0 { 1 } else { (width - 1) / TILE_SIZE + 1 };
        let tiles_y: u32 = if height == 0 { 1 } else { (height - 1) / TILE_SIZE + 1 };
        proof {
            lemma_tiles_cover(width, height);
        }
        let tile_versions = zeroed_versions(tiles_x as usize * tiles_y as usize);
        let c = Canvas {
            id: fresh_id(0),
            width,
            height,
            pixels,
            tiles_x,
            tiles_y,
            tile_versions,
            next_version: 0,
        };
        proof {
            assert forall|x: int, y: int| #[trigger] c@.in_bounds(x, y) implies c@.at(x, y)
                == transparent() by {
                lemma_grid_index_bounds(width as int, height as int, x, y);
            }
            assert forall|tx: int, ty: int| #[trigger] c@.in_grid(tx, ty) implies c@.tile(tx, ty)
                == 0 by {
                lemma_grid_index_bounds(tiles_x as int, tiles_y as int, tx, ty);
            }
        }
        c
    }

    /// Identifies this canvas instance: drawn at random, so distinct canvases differ with
    /// overwhelming probability; a clone is guaranteed one different from its source.
    pub fn id(&self) -> (r: u64)
        ensures
            r == self@.id,
    {
        self.id
    }

    /// Width in pixels.
    pub fn width(&self) -> (r: u32)
        ensures
            r == self@.width,
    {
        self.width
    }

    /// Height in pixels.
    pub fn height(&self) -> (r: u32)
        ensures
            r == self@.height,
    {
        self.height
    }

    /// Row-major buffer index of `(x, y)`, or `None` when out of bounds.
    fn index(&self, x: u32, y: u32) -> (r: Option<usize>)
        requires
            self.wf(),
        ensures
            r is Some <==> self@.in_bounds(x as int, y as int),
            r matches Some(i) ==> i == y * self@.width + x && i < self@.pixels.len(),
    {
        if x >= self.width || y >= self.height {
            return None;
        }
        proof {
            lemma_grid_index_bounds(self.width as int, self.height as int, x as int, y as int);
        }
        Some(y as usize * self.width as usize + x as usize)
    }

    /// The color at `(x, y)`, or `None` when out of bounds.
    pub fn pixel(&self, x: u32, y: u32) -> (r: Option<Color>)
        requires
            self.wf(),
        ensures
            r == (if self@.in_bounds(x as int, y as int) {
                Some(self@.at(x as int, y as int))
            } else {
                None
            }),
    {
        match self.index(x, y) {
            Some(i) => Some(self.pixels[i]),
            None => None,
        }
    }

    /// Sets the color at `(x, y)`; out-of-bounds coordinates are ignored.
    pub fn set_pixel(&mut self, x: u32, y: u32, color: Color)
        requires
            old(self).wf(),
        ensures
            final(self).wf(),
            set_pixel_post(old(self)@, x, y, color, final(self)@),
            final(self)@.next_version <= old(self)@.next_version + 1,
    {
        match self.index(x, y) {
            Some(i) => {
                let ghost v0 = self@;
                self.pixels.set(i, color);
                proof {
                    lemma_wf_with_pixels(v0, self@.pixels);
                    assert(self@ == v0.with_pixels(self@.pixels));
                }
                let ghost v1 = self@;
                self.touch_region(Rect::new(x as i32, y as i32, 1, 1));
                assert(v1 == v0.with_pixels(self@.pixels));
            },
            None => {},
        }
    }

    /// Flattens the pixels into row-major RGBA8 bytes: R, G, B, A for each pixel.
    pub fn rgba8_bytes(&self) -> (bytes: Vec<u8>)
        requires
            self.wf(),
        ensures
            bytes@.len() == 4 * self@.pixels.len(),
            forall|i: int|
                0 <= i < self@.pixels.len() ==> {
                    &&& #[trigger] bytes@[4 * i] == self@.pixels[i].r
                    &&& bytes@[4 * i + 1] == self@.pixels[i].g
                    &&& bytes@[4 * i + 2] == self@.pixels[i].b
                    &&& bytes@[4 * i + 3] == self@.pixels[i].a
                },
            bytes@ == rgba_seq(self@.pixels),
    {
        let mut bytes: Vec<u8> = Vec::new();
        let n = self.pixels.len();
        let mut i: usize = 0;
        while i < n
            invariant
                n == self@.pixels.len(),
                i <= n,
                bytes@.len() == 4 * i,
                forall|j: int|
                    0 <= j < i ==> {
                        &&& #[trigger] bytes@[4 * j] == self@.pixels[j].r
                        &&& bytes@[4 * j + 1] == self@.pixels[j].g
                        &&& bytes@[4 * j + 2] == self@.pixels[j].b
                        &&& bytes@[4 * j + 3] == self@.pixels[j].a
                    },
            decreases n - i,
        {
            let c = self.pixels[i];
            let ghost old_bytes = bytes@;
            bytes.push(c.r);
            bytes.push(c.g);
            bytes.push(c.b);
            bytes.push(c.a);
            proof {
                assert forall|j: int| 0 <= j < i + 1 implies {
                    &&& #[trigger] bytes@[4 * j] == self@.pixels[j].r
                    &&& bytes@[4 * j + 1] == self@.pixels[j].g
                    &&& bytes@[4 * j + 2] == self@.pixels[j].b
                    &&& bytes@[4 * j + 3] == self@.pixels[j].a
                } by {
                    if j < i {
                        assert(bytes@[4 * j] == old_bytes[4 * j]);
                        assert(bytes@[4 * j + 1] == old_bytes[4 * j + 1]);
                        assert(bytes@[4 * j + 2] == old_bytes[4 * j + 2]);
                        assert(bytes@[4 * j + 3] == old_bytes[4 * j + 3]);
                    }
                }
            }
            i += 1;
        }
        proof {
            lemma_rgba_seq_from_channels(bytes@, self@.pixels);
        }
        bytes
    }

    /// The newest write-version among the tiles `region` overlaps: `0` when it overlaps none
    /// or none of them was ever written.
    pub fn region_version(&self, region: Rect) -> (r: u64)
        requires
            self.wf(),
        ensures
            r == region_version_spec(self@, region),
    {
        match self.tile_range(region) {
            None => 0,
            Some((tx_lo, tx_hi, ty_lo, ty_hi)) => {
                let mut max_version: u64 = 0;
                let mut ty = ty_lo;
                while ty <= ty_hi
                    invariant
                        self.wf(),
                        ty_lo <= ty <= ty_hi + 1,
                        tx_lo <= tx_hi < self@.tiles_x,
                        ty_hi < self@.tiles_y,
                        max_version == grid_max(self@, ty_lo as int, ty as int, tx_lo as int, tx_hi + 1),
                    decreases ty_hi + 1 - ty,
                {
                    let mut row: u64 = 0;
                    let mut tx = tx_lo;
                    while tx <= tx_hi
                        invariant
                            self.wf(),
                            tx_lo <= tx <= tx_hi + 1,
                            tx_hi < self@.tiles_x,
                            ty_lo <= ty <= ty_hi,
                            ty_hi < self@.tiles_y,
                            row == row_max(self@, ty as int, tx_lo as int, tx as int),
                        decreases tx_hi + 1 - tx,
                    {
                        proof {
                            lemma_grid_index_bounds(self.tiles_x as int, self.tiles_y as int, tx as int, ty as int);
                        }
                        let v = self.tile_versions[ty as usize * self.tiles_x as usize + tx as usize];
                        if v > row {
                            row = v;
                        }
                        tx += 1;
                    }
                    if row > max_version {
                        max_version = row;
                    }
                    ty += 1;
                }
                max_version
            },
        }
    }

    /// Stamps every tile `region` overlaps with a fresh version; a no-op when `region` lies
    /// entirely off the canvas.
    pub(crate) fn touch_region(&mut self, region: Rect)
        requires
            old(self).wf(),
        ensures
            final(self).wf(),
            touch_post(old(self)@, region, final(self)@),
    {
        match self.tile_range(region) {
            None => {},
            Some((tx_lo, tx_hi, ty_lo, ty_hi)) => {
                let ghost old_v = self@;
                self.next_version = self.next_version.saturating_add(1);
                let version = self.next_version;
                let mut ty = ty_lo;
                while ty <= ty_hi
                    invariant
                        old_v.wf(),
                        old_v.tiles.len() <= usize::MAX,
                        self@.same_frame(old_v),
                        self@.pixels == old_v.pixels,
                        self@.tiles.len() == old_v.tiles.len(),
                        self.next_version == version,
                        version == bump(old_v.next_version),
                        tile_range_spec(old_v, region) == Some((tx_lo as int, tx_hi as int, ty_lo as int, ty_hi as int)),
                        ty_lo <= ty <= ty_hi + 1,
                        tx_lo <= tx_hi < old_v.tiles_x,
                        ty_hi < old_v.tiles_y,
                        forall|a: int, b: int| #[trigger]
                            old_v.in_grid(a, b) ==> self@.tile(a, b) == (if tx_lo <= a <= tx_hi && ty_lo <= b < ty {
                                version
                            } else {
                                old_v.tile(a, b)
                            }),
                    decreases ty_hi + 1 - ty,
                {
                    let mut tx = tx_lo;
                    while tx <= tx_hi
                        invariant
                            old_v.wf(),
                            old_v.tiles.len() <= usize::MAX,
                            self@.same_frame(old_v),
                            self@.pixels == old_v.pixels,
                            self@.tiles.len() == old_v.tiles.len(),
                            self.next_version == version,
                            ty_lo <= ty <= ty_hi,
                            tx_lo <= tx <= tx_hi + 1,
                            tx_hi < old_v.tiles_x,
                            ty_hi < old_v.tiles_y,
                            forall|a: int, b: int| #[trigger]
                                old_v.in_grid(a, b) ==> self@.tile(a, b) == (if (tx_lo <= a <= tx_hi && ty_lo <= b < ty) || (
                                tx_lo <= a < tx && b == ty) {
                                    version
                                } else {
                                    old_v.tile(a, b)
                                }),
                        decreases tx_hi + 1 - tx,
                    {
                        let ghost before = self@;
                        proof {
                            lemma_grid_index_bounds(old_v.tiles_x as int, old_v.tiles_y as int, tx as int, ty as int);
                        }
                        let idx = ty as usize * self.tiles_x as usize + tx as usize;
                        self.tile_versions.set(idx, version);
                        proof {
                            assert forall|a: int, b: int| #[trigger] old_v.in_grid(a, b) implies self@.tile(a, b) == (if (
                            tx_lo <= a <= tx_hi && ty_lo <= b < ty) || (tx_lo <= a < tx + 1 && b == ty) {
                                version
                            } else {
                                old_v.tile(a, b)
                            }) by {
                                lemma_grid_index_bounds(old_v.tiles_x as int, old_v.tiles_y as int, a, b);
                                if b * old_v.tiles_x + a == idx {
                                    lemma_grid_index_injective(old_v.tiles_x as int, a, b, tx as int, ty as int);
                                }
                                assert(before.tile(a, b) == before.tiles[b * old_v.tiles_x + a]);
                            }
                        }
                        tx += 1;
                    }
                    ty += 1;
                }
                proof {
                    assert forall|a: int, b: int| #[trigger] self@.in_grid(a, b) implies self@.tile(a, b)
                        <= self@.next_version by {
                        assert(old_v.in_grid(a, b));
                    }
                }
            },
        }
    }

    /// The inclusive tile range the on-canvas part of `region` overlaps, or `None` when that
    /// part is empty. Computed in `i64`, so no `Rect` can overflow it.
    fn tile_range(&self, region: Rect) -> (r: Option<(u32, u32, u32, u32)>)
        requires
            self.wf(),
        ensures
            match r {
                None => tile_range_spec(self@, region) is None,
                Some((a, b, c, d)) => {
                    &&& tile_range_spec(self@, region) == Some((a as int, b as int, c as int, d as int))
                    &&& a <= b < self@.tiles_x
                    &&& c <= d < self@.tiles_y
                },
            },
    {
        let canvas_w = self.width as i64;
        let canvas_h = self.height as i64;
        let x_lo = if (region.x as i64) > 0 { region.x as i64 } else { 0 };
        let x_end = region.x as i64 + region.width as i64;
        let x_hi = if x_end < canvas_w { x_end } else { canvas_w };
        let y_lo = if (region.y as i64) > 0 { region.y as i64 } else { 0 };
        let y_end = region.y as i64 + region.height as i64;
        let y_hi = if y_end < canvas_h { y_end } else { canvas_h };
        if x_hi <= x_lo || y_hi <= y_lo {
            return None;
        }
        Some(
            (
                (x_lo as u32) / TILE_SIZE,
                ((x_hi - 1) as u32) / TILE_SIZE,
                (y_lo as u32) / TILE_SIZE,
                ((y_hi - 1) as u32) / TILE_SIZE,
            ),
        )
    }
}

} // verus!
