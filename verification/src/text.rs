//! Text: a built-in 3x5 bitmap font (space, digits and upper-case `A`-`Z`), drawn at an
//! integer scale. Unsupported characters leave a blank glyph-width gap.

use vstd::prelude::*;
use vstd::string::StrSliceExecFns;
use crate::canvas::{
    Canvas, area, lemma_rows_step, lemma_rows_within_area, paints, stamps, keeps_tiles_outside, recolors, lemma_stamp_then_paint, lemma_paint_trans, lemma_paint_same_set,
    lemma_paint_nothing,
};
use crate::draw::rect_from_bounds;
use crate::geometry::{Color, Point, Rect, max_int, min_int, max_i64, min_i64};

verus! {

/// Width of a glyph in font pixels.
pub const GLYPH_WIDTH: u32 = 3;

/// Height of a glyph in font pixels.
pub const GLYPH_HEIGHT: u32 = 5;

/// Styling for `draw_text`.
#[derive(Debug, Clone, Copy, PartialEq, Eq, Structural)]
pub struct TextStyle {
    pub color: Color,
    /// Size of each font pixel in canvas pixels; `0` is drawn as `1`.
    pub scale: u32,
}

impl Default for TextStyle {
    /// White text at native size.
    fn default() -> (s: Self)
        ensures
            s == (TextStyle { color: Color { r: 255, g: 255, b: 255, a: 255 }, scale: 1 }),
    {
        TextStyle { color: Color::rgb(255, 255, 255), scale: 1 }
    }
}

/// The glyph rows, `'#'` for a lit font pixel and `'.'` for an unlit one.
pub open spec fn row_empty() -> Seq<char> { seq!['.', '.', '.'] }
pub open spec fn row_full() -> Seq<char> { seq!['#', '#', '#'] }
pub open spec fn row_sides() -> Seq<char> { seq!['#', '.', '#'] }
pub open spec fn row_middle() -> Seq<char> { seq!['.', '#', '.'] }
pub open spec fn row_left_two() -> Seq<char> { seq!['#', '#', '.'] }
pub open spec fn row_right() -> Seq<char> { seq!['.', '.', '#'] }
pub open spec fn row_left() -> Seq<char> { seq!['#', '.', '.'] }

/// The built-in font: five rows of three font pixels per supported character.
pub open spec fn glyph_rows(ch: char) -> Option<Seq<Seq<char>>> {
    let e = row_empty();
    let f = row_full();
    let s = row_sides();
    let m = row_middle();
    let l2 = row_left_two();
    let r = row_right();
    let l = row_left();
    if ch == ' ' { Some(seq![e, e, e, e, e]) }
    else if ch == '0' { Some(seq![f, s, s, s, f]) }
    else if ch == '1' { Some(seq![m, l2, m, m, f]) }
    else if ch == '2' { Some(seq![f, r, f, l, f]) }
    else if ch == '3' { Some(seq![f, r, f, r, f]) }
    else if ch == '4' { Some(seq![s, s, f, r, r]) }
    else if ch == '5' { Some(seq![f, l, f, r, f]) }
    else if ch == '6' { Some(seq![f, l, f, s, f]) }
    else if ch == '7' { Some(seq![f, r, r, r, r]) }
    else if ch == '8' { Some(seq![f, s, f, s, f]) }
    else if ch == '9' { Some(seq![f, s, f, r, f]) }
    else if ch == 'A' { Some(seq![m, s, f, s, s]) }
    else if ch == 'B' { Some(seq![l2, s, l2, s, l2]) }
    else if ch == 'C' { Some(seq![f, l, l, l, f]) }
    else if ch == 'D' { Some(seq![l2, s, s, s, l2]) }
    else if ch == 'E' { Some(seq![f, l, l2, l, f]) }
    else if ch == 'F' { Some(seq![f, l, l2, l, l]) }
    else if ch == 'G' { Some(seq![f, l, s, s, f]) }
    else if ch == 'H' { Some(seq![s, s, f, s, s]) }
    else if ch == 'I' { Some(seq![f, m, m, m, f]) }
    else if ch == 'J' { Some(seq![r, r, r, s, f]) }
    else if ch == 'K' { Some(seq![s, s, l2, s, s]) }
    else if ch == 'L' { Some(seq![l, l, l, l, f]) }
    else if ch == 'M' { Some(seq![s, f, f, s, s]) }
    else if ch == 'N' { Some(seq![s, f, f, f, s]) }
    else if ch == 'O' { Some(seq![f, s, s, s, f]) }
    else if ch == 'P' { Some(seq![f, s, f, l, l]) }
    else if ch == 'Q' { Some(seq![f, s, s, f, r]) }
    else if ch == 'R' { Some(seq![f, s, l2, s, s]) }
    else if ch == 'S' { Some(seq![f, l, f, r, f]) }
    else if ch == 'T' { Some(seq![f, m, m, m, m]) }
    else if ch == 'U' { Some(seq![s, s, s, s, f]) }
    else if ch == 'V' { Some(seq![s, s, s, s, m]) }
    else if ch == 'W' { Some(seq![s, s, f, f, s]) }
    else if ch == 'X' { Some(seq![s, s, m, s, s]) }
    else if ch == 'Y' { Some(seq![s, s, m, m, m]) }
    else if ch == 'Z' { Some(seq![f, r, m, l, f]) }
    else { None }
}

/// The built-in font, character by character: each supported character's five rows of
/// three font pixels (`'#'` lit, `'.'` unlit), and no glyph for any other character.
pub proof fn law_font_table(ch: char)
    ensures
        glyph_rows(' ') == Some(seq![seq!['.', '.', '.'], seq!['.', '.', '.'], seq!['.', '.', '.'], seq!['.', '.', '.'], seq!['.', '.', '.']]),
        glyph_rows('0') == Some(seq![seq!['#', '#', '#'], seq!['#', '.', '#'], seq!['#', '.', '#'], seq!['#', '.', '#'], seq!['#', '#', '#']]),
        glyph_rows('1') == Some(seq![seq!['.', '#', '.'], seq!['#', '#', '.'], seq!['.', '#', '.'], seq!['.', '#', '.'], seq!['#', '#', '#']]),
        glyph_rows('2') == Some(seq![seq!['#', '#', '#'], seq!['.', '.', '#'], seq!['#', '#', '#'], seq!['#', '.', '.'], seq!['#', '#', '#']]),
        glyph_rows('3') == Some(seq![seq!['#', '#', '#'], seq!['.', '.', '#'], seq!['#', '#', '#'], seq!['.', '.', '#'], seq!['#', '#', '#']]),
        glyph_rows('4') == Some(seq![seq!['#', '.', '#'], seq!['#', '.', '#'], seq!['#', '#', '#'], seq!['.', '.', '#'], seq!['.', '.', '#']]),
        glyph_rows('5') == Some(seq![seq!['#', '#', '#'], seq!['#', '.', '.'], seq!['#', '#', '#'], seq!['.', '.', '#'], seq!['#', '#', '#']]),
        glyph_rows('6') == Some(seq![seq!['#', '#', '#'], seq!['#', '.', '.'], seq!['#', '#', '#'], seq!['#', '.', '#'], seq!['#', '#', '#']]),
        glyph_rows('7') == Some(seq![seq!['#', '#', '#'], seq!['.', '.', '#'], seq!['.', '.', '#'], seq!['.', '.', '#'], seq!['.', '.', '#']]),
        glyph_rows('8') == Some(seq![seq!['#', '#', '#'], seq!['#', '.', '#'], seq!['#', '#', '#'], seq!['#', '.', '#'], seq!['#', '#', '#']]),
        glyph_rows('9') == Some(seq![seq!['#', '#', '#'], seq!['#', '.', '#'], seq!['#', '#', '#'], seq!['.', '.', '#'], seq!['#', '#', '#']]),
        glyph_rows('A') == Some(seq![seq!['.', '#', '.'], seq!['#', '.', '#'], seq!['#', '#', '#'], seq!['#', '.', '#'], seq!['#', '.', '#']]),
        glyph_rows('B') == Some(seq![seq!['#', '#', '.'], seq!['#', '.', '#'], seq!['#', '#', '.'], seq!['#', '.', '#'], seq!['#', '#', '.']]),
        glyph_rows('C') == Some(seq![seq!['#', '#', '#'], seq!['#', '.', '.'], seq!['#', '.', '.'], seq!['#', '.', '.'], seq!['#', '#', '#']]),
        glyph_rows('D') == Some(seq![seq!['#', '#', '.'], seq!['#', '.', '#'], seq!['#', '.', '#'], seq!['#', '.', '#'], seq!['#', '#', '.']]),
        glyph_rows('E') == Some(seq![seq!['#', '#', '#'], seq!['#', '.', '.'], seq!['#', '#', '.'], seq!['#', '.', '.'], seq!['#', '#', '#']]),
        glyph_rows('F') == Some(seq![seq!['#', '#', '#'], seq!['#', '.', '.'], seq!['#', '#', '.'], seq!['#', '.', '.'], seq!['#', '.', '.']]),
        glyph_rows('G') == Some(seq![seq!['#', '#', '#'], seq!['#', '.', '.'], seq!['#', '.', '#'], seq!['#', '.', '#'], seq!['#', '#', '#']]),
        glyph_rows('H') == Some(seq![seq!['#', '.', '#'], seq!['#', '.', '#'], seq!['#', '#', '#'], seq!['#', '.', '#'], seq!['#', '.', '#']]),
        glyph_rows('I') == Some(seq![seq!['#', '#', '#'], seq!['.', '#', '.'], seq!['.', '#', '.'], seq!['.', '#', '.'], seq!['#', '#', '#']]),
        glyph_rows('J') == Some(seq![seq!['.', '.', '#'], seq!['.', '.', '#'], seq!['.', '.', '#'], seq!['#', '.', '#'], seq!['#', '#', '#']]),
        glyph_rows('K') == Some(seq![seq!['#', '.', '#'], seq!['#', '.', '#'], seq!['#', '#', '.'], seq!['#', '.', '#'], seq!['#', '.', '#']]),
        glyph_rows('L') == Some(seq![seq!['#', '.', '.'], seq!['#', '.', '.'], seq!['#', '.', '.'], seq!['#', '.', '.'], seq!['#', '#', '#']]),
        glyph_rows('M') == Some(seq![seq!['#', '.', '#'], seq!['#', '#', '#'], seq!['#', '#', '#'], seq!['#', '.', '#'], seq!['#', '.', '#']]),
        glyph_rows('N') == Some(seq![seq!['#', '.', '#'], seq!['#', '#', '#'], seq!['#', '#', '#'], seq!['#', '#', '#'], seq!['#', '.', '#']]),
        glyph_rows('O') == Some(seq![seq!['#', '#', '#'], seq!['#', '.', '#'], seq!['#', '.', '#'], seq!['#', '.', '#'], seq!['#', '#', '#']]),
        glyph_rows('P') == Some(seq![seq!['#', '#', '#'], seq!['#', '.', '#'], seq!['#', '#', '#'], seq!['#', '.', '.'], seq!['#', '.', '.']]),
        glyph_rows('Q') == Some(seq![seq!['#', '#', '#'], seq!['#', '.', '#'], seq!['#', '.', '#'], seq!['#', '#', '#'], seq!['.', '.', '#']]),
        glyph_rows('R') == Some(seq![seq!['#', '#', '#'], seq!['#', '.', '#'], seq!['#', '#', '.'], seq!['#', '.', '#'], seq!['#', '.', '#']]),
        glyph_rows('S') == Some(seq![seq!['#', '#', '#'], seq!['#', '.', '.'], seq!['#', '#', '#'], seq!['.', '.', '#'], seq!['#', '#', '#']]),
        glyph_rows('T') == Some(seq![seq!['#', '#', '#'], seq!['.', '#', '.'], seq!['.', '#', '.'], seq!['.', '#', '.'], seq!['.', '#', '.']]),
        glyph_rows('U') == Some(seq![seq!['#', '.', '#'], seq!['#', '.', '#'], seq!['#', '.', '#'], seq!['#', '.', '#'], seq!['#', '#', '#']]),
        glyph_rows('V') == Some(seq![seq!['#', '.', '#'], seq!['#', '.', '#'], seq!['#', '.', '#'], seq!['#', '.', '#'], seq!['.', '#', '.']]),
        glyph_rows('W') == Some(seq![seq!['#', '.', '#'], seq!['#', '.', '#'], seq!['#', '#', '#'], seq!['#', '#', '#'], seq!['#', '.', '#']]),
        glyph_rows('X') == Some(seq![seq!['#', '.', '#'], seq!['#', '.', '#'], seq!['.', '#', '.'], seq!['#', '.', '#'], seq!['#', '.', '#']]),
        glyph_rows('Y') == Some(seq![seq!['#', '.', '#'], seq!['#', '.', '#'], seq!['.', '#', '.'], seq!['.', '#', '.'], seq!['.', '#', '.']]),
        glyph_rows('Z') == Some(seq![seq!['#', '#', '#'], seq!['.', '.', '#'], seq!['.', '#', '.'], seq!['#', '.', '.'], seq!['#', '#', '#']]),
        ch != ' ' && ch != '0' && ch != '1' && ch != '2' && ch != '3' && ch != '4' && ch != '5' && ch != '6' && ch != '7' && ch != '8' && ch != '9' && ch != 'A' && ch != 'B' && ch != 'C' && ch != 'D' && ch != 'E' && ch != 'F' && ch != 'G' && ch != 'H' && ch != 'I' && ch != 'J' && ch != 'K' && ch != 'L' && ch != 'M' && ch != 'N' && ch != 'O' && ch != 'P' && ch != 'Q' && ch != 'R' && ch != 'S' && ch != 'T' && ch != 'U' && ch != 'V' && ch != 'W' && ch != 'X' && ch != 'Y' && ch != 'Z' ==> glyph_rows(ch) is None,
{
}

/// The views of the row literals used by `glyph`.
proof fn lemma_row_literals()
    ensures
        "..."@ == row_empty(),
        "###"@ == row_full(),
        "#.#"@ == row_sides(),
        ".#."@ == row_middle(),
        "##."@ == row_left_two(),
        "..#"@ == row_right(),
        "#.."@ == row_left(),
{
    reveal_strlit("...");
    reveal_strlit("###");
    reveal_strlit("#.#");
    reveal_strlit(".#.");
    reveal_strlit("##.");
    reveal_strlit("..#");
    reveal_strlit("#..");
    assert("..."@ =~= row_empty());
    assert("###"@ =~= row_full());
    assert("#.#"@ =~= row_sides());
    assert(".#."@ =~= row_middle());
    assert("##."@ =~= row_left_two());
    assert("..#"@ =~= row_right());
    assert("#.."@ =~= row_left());
}

/// The rows of a glyph as strings, viewed as character sequences.
pub open spec fn rows_view(rows: [&'static str; 5]) -> Seq<Seq<char>> {
    seq![rows[0]@, rows[1]@, rows[2]@, rows[3]@, rows[4]@]
}

/// The glyph for `ch` as five rows of three characters (`'#'` lit, `'.'` unlit), or `None`
/// for a character the font does not cover.
pub fn glyph(ch: char) -> (r: Option<[&'static str; 5]>)
    ensures
        r is Some <==> glyph_rows(ch) is Some,
        r matches Some(rows) ==> rows_view(rows) == glyph_rows(ch).unwrap(),
{
    proof {
        lemma_row_literals();
    }
    let rows = match ch {
        ' ' => ["...", "...", "...", "...", "..."],
        '0' => ["###", "#.#", "#.#", "#.#", "###"],
        '1' => [".#.", "##.", ".#.", ".#.", "###"],
        '2' => ["###", "..#", "###", "#..", "###"],
        '3' => ["###", "..#", "###", "..#", "###"],
        '4' => ["#.#", "#.#", "###", "..#", "..#"],
        '5' => ["###", "#..", "###", "..#", "###"],
        '6' => ["###", "#..", "###", "#.#", "###"],
        '7' => ["###", "..#", "..#", "..#", "..#"],
        '8' => ["###", "#.#", "###", "#.#", "###"],
        '9' => ["###", "#.#", "###", "..#", "###"],
        'A' => [".#.", "#.#", "###", "#.#", "#.#"],
        'B' => ["##.", "#.#", "##.", "#.#", "##."],
        'C' => ["###", "#..", "#..", "#..", "###"],
        'D' => ["##.", "#.#", "#.#", "#.#", "##."],
        'E' => ["###", "#..", "##.", "#..", "###"],
        'F' => ["###", "#..", "##.", "#..", "#.."],
        'G' => ["###", "#..", "#.#", "#.#", "###"],
        'H' => ["#.#", "#.#", "###", "#.#", "#.#"],
        'I' => ["###", ".#.", ".#.", ".#.", "###"],
        'J' => ["..#", "..#", "..#", "#.#", "###"],
        'K' => ["#.#", "#.#", "##.", "#.#", "#.#"],
        'L' => ["#..", "#..", "#..", "#..", "###"],
        'M' => ["#.#", "###", "###", "#.#", "#.#"],
        'N' => ["#.#", "###", "###", "###", "#.#"],
        'O' => ["###", "#.#", "#.#", "#.#", "###"],
        'P' => ["###", "#.#", "###", "#..", "#.."],
        'Q' => ["###", "#.#", "#.#", "###", "..#"],
        'R' => ["###", "#.#", "##.", "#.#", "#.#"],
        'S' => ["###", "#..", "###", "..#", "###"],
        'T' => ["###", ".#.", ".#.", ".#.", ".#."],
        'U' => ["#.#", "#.#", "#.#", "#.#", "###"],
        'V' => ["#.#", "#.#", "#.#", "#.#", ".#."],
        'W' => ["#.#", "#.#", "###", "###", "#.#"],
        'X' => ["#.#", "#.#", ".#.", "#.#", "#.#"],
        'Y' => ["#.#", "#.#", ".#.", ".#.", ".#."],
        'Z' => ["###", "..#", ".#.", "#..", "###"],
        _ => {
            return None;
        },
    };
    assert(rows_view(rows) =~= glyph_rows(ch).unwrap());
    Some(rows)
}

/// `d` lies in the `k`-th block of width `s` starting at 0.
pub open spec fn in_block(d: int, s: int, k: int) -> bool {
    k * s <= d < k * s + s
}

/// Block membership is division: `d` is in block `k` exactly when `d / s == k`.
pub proof fn lemma_block_index(d: int, s: int, k: int)
    requires
        s > 0,
        k >= 0,
    ensures
        in_block(d, s, k) <==> (d >= 0 && d / s == k),
{
    vstd::arithmetic::div_mod::lemma_fundamental_div_mod(d, s);
    vstd::arithmetic::div_mod::lemma_mod_bound(d, s);
    let q = d / s;
    let r = d % s;
    assert(in_block(d, s, k) <==> (d >= 0 && q == k)) by (nonlinear_arith)
        requires
            d == s * q + r,
            0 <= r < s,
            s > 0,
            k >= 0,
    {
        if in_block(d, s, k) {
            assert(s * (q - k) + r == d - k * s);
        }
    }
}

/// The font pixel at `row`, `col` of the glyph `rows` is lit.
pub open spec fn lit(rows: Seq<Seq<char>>, row: int, col: int) -> bool {
    &&& 0 <= row < GLYPH_HEIGHT
    &&& 0 <= col < GLYPH_WIDTH
    &&& rows[row][col] == '#'
}

/// Pixel `(x, y)` lies in the `s` x `s` block of a lit font pixel of the glyph `rows` whose
/// top-left corner is at `(gx, gy)`.
pub open spec fn glyph_covers(rows: Seq<Seq<char>>, gx: int, gy: int, s: int, x: int, y: int) -> bool {
    &&& x >= gx
    &&& y >= gy
    &&& lit(rows, (y - gy) / s, (x - gx) / s)
}

/// Like `glyph_covers`, but only for the font pixels before row `row`, column `col` in
/// reading order.
pub open spec fn glyph_covers_before(
    rows: Seq<Seq<char>>,
    gx: int,
    gy: int,
    s: int,
    row: int,
    col: int,
    x: int,
    y: int,
) -> bool {
    &&& glyph_covers(rows, gx, gy, s, x, y)
    &&& ((y - gy) / s < row || ((y - gy) / s == row && (x - gx) / s < col))
}

/// What character `ch` paints when its glyph's top-left corner is at `(gx, gy)`: nothing
/// for a character the font does not cover.
pub open spec fn char_covers(ch: char, gx: int, gy: int, s: int, x: int, y: int) -> bool {
    match glyph_rows(ch) {
        Some(rows) => glyph_covers(rows, gx, gy, s, x, y),
        None => false,
    }
}

/// The scale `draw_text` draws at: `0` counts as `1`.
pub open spec fn scale_of(style: TextStyle) -> int {
    if style.scale == 0 { 1 } else { style.scale as int }
}

/// The distance from one glyph to the next: the glyph width plus one blank column.
pub open spec fn advance_of(s: int) -> int {
    (GLYPH_WIDTH + 1) * s
}

/// The `i`-th character of `text` covers `(x, y)` when the text starts at `origin`.
pub open spec fn nth_char_covers(text: Seq<char>, i: int, origin: Point, s: int, x: int, y: int) -> bool {
    &&& 0 <= i < text.len()
    &&& char_covers(text[i], origin.x + i * advance_of(s), origin.y as int, s, x, y)
}

/// One of the first `n` characters of `text` covers `(x, y)`.
pub open spec fn text_prefix_covers(text: Seq<char>, n: int, origin: Point, s: int, x: int, y: int) -> bool {
    exists|i: int| 0 <= i < n && #[trigger] nth_char_covers(text, i, origin, s, x, y)
}

/// The pixels `draw_text` paints for `text` at `origin` and scale `s`.
pub open spec fn text_covers(text: Seq<char>, origin: Point, s: int, x: int, y: int) -> bool {
    text_prefix_covers(text, text.len() as int, origin, s, x, y)
}

/// A character the font lacks draws exactly like a space: no pixel, but a full advance, so
/// the text around it stays aligned.
pub proof fn law_unsupported_char_draws_like_space(text: Seq<char>, i: int, origin: Point, s: int, x: int, y: int)
    requires
        0 <= i < text.len(),
        glyph_rows(text[i]) is None,
    ensures
        text_covers(text, origin, s, x, y) == text_covers(text.update(i, ' '), origin, s, x, y),
{
    let spaced = text.update(i, ' ');
    assert forall|j: int| #![trigger nth_char_covers(text, j, origin, s, x, y)]
        #![trigger nth_char_covers(spaced, j, origin, s, x, y)]
        nth_char_covers(text, j, origin, s, x, y) == nth_char_covers(spaced, j, origin, s, x, y) by {
        if j == i {
            let rows = glyph_rows(' ').unwrap();
            assert(!lit(rows, (y - origin.y) / s, (x - (origin.x + j * advance_of(s))) / s));
        }
    }
    if text_covers(text, origin, s, x, y) {
        let j = choose|j: int| 0 <= j < text.len() && #[trigger] nth_char_covers(text, j, origin, s, x, y);
        assert(nth_char_covers(spaced, j, origin, s, x, y));
    }
    if text_covers(spaced, origin, s, x, y) {
        let j = choose|j: int| 0 <= j < spaced.len() && #[trigger] nth_char_covers(spaced, j, origin, s, x, y);
        assert(nth_char_covers(text, j, origin, s, x, y));
    }
}

/// The region `draw_text` stamps in the version grid: one advance per character, one glyph
/// tall.
pub open spec fn text_bbox_spec(len: int, origin: Point, s: int) -> Rect {
    rect_from_bounds(
        origin.x as int,
        origin.y as int,
        origin.x + len * advance_of(s),
        origin.y + GLYPH_HEIGHT * s,
    )
}

/// Everything `draw_text` paints on a canvas no wider and no taller than `i32::MAX` lies
/// inside the region it stamps.
pub proof fn law_text_within_its_box(text: Seq<char>, origin: Point, s: int, w: int, h: int, x: int, y: int)
    requires
        s >= 1,
        0 <= x < w <= i32::MAX,
        0 <= y < h <= i32::MAX,
        text_covers(text, origin, s, x, y),
    ensures
        text_bbox_spec(text.len() as int, origin, s).contains(x, y),
{
    let i = choose|i: int| 0 <= i < text.len() && #[trigger] nth_char_covers(text, i, origin, s, x, y);
    let gx = origin.x + i * advance_of(s);
    let rows = glyph_rows(text[i]).unwrap();
    let col = (x - gx) / s;
    let row = (y - origin.y) / s;
    assert(lit(rows, row, col));
    lemma_block_index(x - gx, s, col);
    lemma_block_index(y - origin.y, s, row);
    let n = text.len() as int;
    assert(x < origin.x + n * advance_of(s)) by (nonlinear_arith)
        requires
            x - gx < col * s + s,
            0 <= col < 3,
            gx == origin.x + i * advance_of(s),
            advance_of(s) == 4 * s,
            0 <= i < n,
            s >= 1,
    ;
    assert(y < origin.y + GLYPH_HEIGHT * s) by (nonlinear_arith)
        requires
            y - origin.y < row * s + s,
            0 <= row < 5,
            GLYPH_HEIGHT == 5,
            s >= 1,
    ;
    assert(origin.x <= x) by (nonlinear_arith)
        requires
            gx <= x,
            gx == origin.x + i * advance_of(s),
            advance_of(s) == 4 * s,
            0 <= i,
            s >= 1,
    ;
    crate::draw::lemma_rect_from_bounds_contains(origin.x as int, origin.y as int, origin.x + n * advance_of(s),
        origin.y + GLYPH_HEIGHT * s, x, y);
}

impl Canvas {
    /// Draws `text` with its top-left corner at `origin`, in the built-in font at
    /// `style.scale` (`0` drawn as `1`). Each character advances the pen by the glyph width
    /// plus one blank column; characters the font lacks are left blank but still advance.
    /// The text's bounding region is stamped in the version grid first; every tile outside it
    /// keeps its version (on a canvas whose sides fit in `i32`).
    pub fn draw_text(&mut self, text: &str, origin: Point, style: &TextStyle)
        requires
            old(self).wf(),
            text@.len() * advance_of(scale_of(*style)) <= i64::MAX,
            origin.x + text@.len() * advance_of(scale_of(*style)) <= i64::MAX,
        ensures
            final(self).wf(),
            recolors(old(self)@, final(self)@, style.color,
                |x: int, y: int| text_covers(text@, origin, scale_of(*style), x, y)),
            old(self)@.next_version < u64::MAX ==> stamps(old(self)@,
                text_bbox_spec(text@.len() as int, origin, scale_of(*style)), final(self)@),
            old(self)@.width <= i32::MAX && old(self)@.height <= i32::MAX ==> keeps_tiles_outside(old(self)@,
                text_bbox_spec(text@.len() as int, origin, scale_of(*style)), final(self)@),
            final(self)@.next_version <= old(self)@.next_version + 1 + (15 * area(old(self)@)) * text@.len(),
    {
        broadcast use vstd::string::group_string_axioms;
        let ghost c0 = self@;
        let ghost s = scale_of(*style);
        let ghost n = text@.len() as int;
        let scale: i64 = if style.scale == 0 { 1 } else { style.scale as i64 };
        let advance: i64 = (GLYPH_WIDTH as i64 + 1) * scale;
        let canvas_w = self.width() as i64;
        let canvas_h = self.height() as i64;
        let origin_y = origin.y as i64;
        let count = text.unicode_len();
        proof {
            assert(count * advance <= i64::MAX);
            assert(count <= count * advance && advance * count == count * advance) by (nonlinear_arith)
                requires
                    advance >= 4,
                    count >= 0,
            ;
            assert(1 <= scale <= 0x1_0000_0000);
        }
        let text_width: i64 = advance * count as i64;
        let glyph_height: i64 = GLYPH_HEIGHT as i64;
        assert(glyph_height * scale <= 5 * 0x1_0000_0000) by (nonlinear_arith)
            requires
                glyph_height == 5,
                1 <= scale <= 0x1_0000_0000,
        ;
        let text_height: i64 = glyph_height * scale;
        let bbox = Self::rect_from_i64_bounds(
            origin.x as i64,
            origin_y,
            origin.x as i64 + text_width,
            origin_y + text_height,
        );
        self.touch_region(bbox);
        let ghost c1 = self@;
        proof {
            lemma_paint_nothing(c1, style.color);
            lemma_paint_same_set(c1, c1, style.color, |x: int, y: int| false,
                |x: int, y: int| text_prefix_covers(text@, 0, origin, s, x, y));
        }
        let mut cursor_x: i64 = origin.x as i64;
        for ch in iter: text.chars()
            invariant
                c1.wf(),
                self.wf(),
                iter.seq() == text@,
                n == text@.len(),
                s == scale as int,
                1 <= scale <= 0x1_0000_0000,
                advance == advance_of(s),
                canvas_w == c1.width,
                canvas_h == c1.height,
                origin_y == origin.y,
                n * advance <= i64::MAX,
                origin.x + n * advance <= i64::MAX,
                cursor_x == origin.x + iter.index() * advance,
                iter.index() * advance <= n * advance,
                paints(c1, self@, style.color, |x: int, y: int| text_prefix_covers(text@, iter.index() as int, origin, s, x, y)),
                c1.next_version <= c0.next_version + 1,
                area(c1) == area(c0),
                self@.next_version <= c1.next_version + (15 * area(c0)) * iter.index(),
        {
            let ghost k = iter.index() as int;
            let ghost before = self@;
            let ghost gx = cursor_x as int;
            let ghost step = |x: int, y: int| char_covers(ch, gx, origin.y as int, s, x, y);
            let ghost done = |x: int, y: int| text_prefix_covers(text@, k, origin, s, x, y);
            assert(ch == text@[k]);
            if cursor_x < canvas_w {
                match glyph(ch) {
                    Some(rows) => {
                        self.draw_glyph(&rows, cursor_x, origin_y, scale, canvas_w, canvas_h, style.color);
                        proof {
                            lemma_paint_same_set(before, self@, style.color,
                                |x: int, y: int| glyph_covers(rows_view(rows), gx, origin.y as int, s, x, y), step);
                        }
                    },
                    None => {
                        proof {
                            lemma_paint_nothing(before, style.color);
                            lemma_paint_same_set(before, self@, style.color, |x: int, y: int| false, step);
                        }
                    },
                }
            } else {
                proof {
                    lemma_paint_nothing(before, style.color);
                    lemma_paint_same_set(before, self@, style.color, |x: int, y: int| false, step);
                }
            }
            proof {
                lemma_paint_trans(c1, before, self@, style.color, done, step);
                assert forall|x: int, y: int| c1.in_bounds(x, y) implies
                    ((done(x, y) || step(x, y))
                        <==> text_prefix_covers(text@, k + 1, origin, s, x, y)) by {
                    if step(x, y) {
                        assert(nth_char_covers(text@, k, origin, s, x, y));
                    }
                    if text_prefix_covers(text@, k + 1, origin, s, x, y) {
                        let i = choose|i: int| 0 <= i < k + 1 && #[trigger] nth_char_covers(text@, i, origin, s, x, y);
                        if i == k {
                            assert(step(x, y));
                        }
                    }
                }
                lemma_paint_same_set(c1, self@, style.color, |a: int, b: int| done(a, b) || step(a, b),
                    |x: int, y: int| text_prefix_covers(text@, k + 1, origin, s, x, y));
                lemma_rows_within_area(c0, 0, 0);
                lemma_rows_step(15 * area(c0), k);
                assert((k + 1) * advance <= n * advance && (k + 1) * advance == k * advance + advance)
                    by (nonlinear_arith)
                    requires
                        k + 1 <= n,
                        advance >= 0,
                ;
            }
            cursor_x = cursor_x + advance;
        }
        proof {
            let covered = |x: int, y: int| text_covers(text@, origin, s, x, y);
            lemma_paint_same_set(c1, self@, style.color,
                |x: int, y: int| text_prefix_covers(text@, n, origin, s, x, y), covered);
            if c0.width <= i32::MAX && c0.height <= i32::MAX {
                assert forall|x: int, y: int| #[trigger] covered(x, y) && c0.in_bounds(x, y) implies bbox.contains(x, y) by {
                    law_text_within_its_box(text@, origin, s, c0.width as int, c0.height as int, x, y);
                }
            }
            lemma_stamp_then_paint(c0, c1, self@, bbox, style.color, covered);
        }
    }

    /// Paints the lit font pixels of the glyph `rows`, each as a `scale` x `scale` block, with
    /// the glyph's top-left corner at `(gx, gy)`; blocks are clipped to the canvas first.
    fn draw_glyph(
        &mut self,
        rows: &[&'static str; 5],
        gx: i64,
        gy: i64,
        scale: i64,
        canvas_w: i64,
        canvas_h: i64,
        color: Color,
    )
        requires
            old(self).wf(),
            canvas_w == old(self)@.width,
            canvas_h == old(self)@.height,
            1 <= scale <= 0x1_0000_0000,
            -0x8000_0000 <= gx < canvas_w,
            -0x8000_0000 <= gy <= 0x7fff_ffff,
            forall|r: int| 0 <= r < 5 ==> (#[trigger] rows[r])@.len() == GLYPH_WIDTH,
        ensures
            final(self).wf(),
            paints(old(self)@, final(self)@, color,
                |x: int, y: int| glyph_covers(rows_view(*rows), gx as int, gy as int, scale as int, x, y)),
            final(self)@.next_version <= old(self)@.next_version + 15 * area(old(self)@),
    {
        let ghost c0 = self@;
        let ghost g = rows_view(*rows);
        let ghost s = scale as int;
        proof {
            lemma_paint_nothing(c0, color);
            lemma_paint_same_set(c0, c0, color, |x: int, y: int| false,
                |x: int, y: int| glyph_covers_before(g, gx as int, gy as int, s, 0, 0, x, y));
        }
        let mut r: usize = 0;
        while r < 5
            invariant
                c0.wf(),
                self.wf(),
                r <= 5,
                canvas_w == c0.width,
                canvas_h == c0.height,
                s == scale,
                1 <= scale <= 0x1_0000_0000,
                -0x8000_0000 <= gx < canvas_w,
                -0x8000_0000 <= gy <= 0x7fff_ffff,
                g == rows_view(*rows),
                forall|i: int| 0 <= i < 5 ==> (#[trigger] rows[i])@.len() == GLYPH_WIDTH,
                paints(c0, self@, color, |x: int, y: int| glyph_covers_before(g, gx as int, gy as int, s, r as int, 0, x, y)),
                self@.next_version <= c0.next_version + area(c0) * (3 * r),
            decreases 5 - r,
        {
            let ghost ri = r as int;
            assert(ri * s <= 4 * 0x1_0000_0000) by (nonlinear_arith)
                requires
                    0 <= ri < 5,
                    1 <= s <= 0x1_0000_0000,
            ;
            let py0 = gy + r as i64 * scale;
            if py0 + scale <= 0 || py0 >= canvas_h {
                proof {
                    assert forall|x: int, y: int| c0.in_bounds(x, y) implies
                        (glyph_covers_before(g, gx as int, gy as int, s, ri, 0, x, y)
                            <==> glyph_covers_before(g, gx as int, gy as int, s, ri + 1, 0, x, y)) by {
                        lemma_block_index(y - gy, s, ri);
                    }
                    lemma_paint_same_set(c0, self@, color,
                        |x: int, y: int| glyph_covers_before(g, gx as int, gy as int, s, ri, 0, x, y),
                        |x: int, y: int| glyph_covers_before(g, gx as int, gy as int, s, ri + 1, 0, x, y));
                    lemma_rows_within_area(c0, 0, 0);
                    assert(area(c0) * (3 * ri) <= area(c0) * (3 * (ri + 1))) by (nonlinear_arith)
                        requires
                            0 <= area(c0),
                            0 <= ri,
                    ;
                }
            } else {
                let row: &str = rows[r];
                assert(row@ == g[ri]);
                let mut c: usize = 0;
                while c < 3
                    invariant
                        c0.wf(),
                        self.wf(),
                        r < 5,
                        ri == r,
                        c <= 3,
                        canvas_w == c0.width,
                        canvas_h == c0.height,
                        s == scale,
                        1 <= scale <= 0x1_0000_0000,
                        -0x8000_0000 <= gx < canvas_w,
                        -0x8000_0000 <= gy <= 0x7fff_ffff,
                        py0 == gy + ri * s,
                        0 < py0 + scale,
                        py0 < canvas_h,
                        row@ == g[ri],
                        row@.len() == GLYPH_WIDTH,
                        paints(c0, self@, color,
                            |x: int, y: int| glyph_covers_before(g, gx as int, gy as int, s, ri, c as int, x, y)),
                        self@.next_version <= c0.next_version + area(c0) * (3 * ri + c),
                    decreases 3 - c,
                {
                    let ghost ci = c as int;
                    let ghost before = self@;
                    let pixel = row.get_char(c);
                    assert(ci * s <= 2 * 0x1_0000_0000) by (nonlinear_arith)
                        requires
                            0 <= ci < 3,
                            1 <= s <= 0x1_0000_0000,
                    ;
                    let px0 = gx + c as i64 * scale;
                    let drawn = pixel == '#' && !(px0 + scale <= 0 || px0 >= canvas_w);
                    if drawn {
                        let x_lo = max_i64(px0, 0);
                        let x_hi = min_i64(px0 + scale, canvas_w);
                        let y_lo = max_i64(py0, 0);
                        let y_hi = min_i64(py0 + scale, canvas_h);
                        self.fill_clipped_rect(x_lo, x_hi, y_lo, y_hi, color);
                    }
                    proof {
                        let block = |x: int, y: int| drawn && in_block(x - gx, s, ci) && in_block(y - gy, s, ri);
                        if drawn {
                            lemma_paint_same_set(before, self@, color,
                                |x: int, y: int| max_int(px0 as int, 0) <= x < min_int(px0 + scale, canvas_w as int)
                                    && max_int(py0 as int, 0) <= y < min_int(py0 + scale, canvas_h as int),
                                block);
                        } else {
                            lemma_paint_nothing(before, color);
                            lemma_paint_same_set(before, self@, color, |x: int, y: int| false, block);
                        }
                        let prev = |x: int, y: int| glyph_covers_before(g, gx as int, gy as int, s, ri, ci, x, y);
                        lemma_paint_trans(c0, before, self@, color, prev, block);
                        assert forall|x: int, y: int| c0.in_bounds(x, y) implies
                            ((prev(x, y) || block(x, y))
                                <==> glyph_covers_before(g, gx as int, gy as int, s, ri, ci + 1, x, y)) by {
                            lemma_block_index(x - gx, s, ci);
                            lemma_block_index(y - gy, s, ri);
                        }
                        lemma_paint_same_set(c0, self@, color, |a: int, b: int| prev(a, b) || block(a, b),
                            |x: int, y: int| glyph_covers_before(g, gx as int, gy as int, s, ri, ci + 1, x, y));
                        if drawn {
                            let bw = max_int(min_int(px0 + scale, canvas_w as int) - max_int(px0 as int, 0), 0);
                            let bh = max_int(min_int(py0 + scale, canvas_h as int) - max_int(py0 as int, 0), 0);
                            lemma_rows_within_area(c0, bw, bh);
                        }
                        lemma_rows_step(area(c0), 3 * ri + ci);
                    }
                    c += 1;
                }
                proof {
                    lemma_paint_same_set(c0, self@, color,
                        |x: int, y: int| glyph_covers_before(g, gx as int, gy as int, s, ri, 3, x, y),
                        |x: int, y: int| glyph_covers_before(g, gx as int, gy as int, s, ri + 1, 0, x, y));
                }
            }
            r += 1;
        }
        proof {
            lemma_paint_same_set(c0, self@, color,
                |x: int, y: int| glyph_covers_before(g, gx as int, gy as int, s, 5, 0, x, y),
                |x: int, y: int| glyph_covers(g, gx as int, gy as int, s, x, y));
            assert(area(c0) * (3 * r) == 15 * area(c0)) by (nonlinear_arith)
                requires
                    r == 5,
            ;
        }
    }
}

} // verus!
