//! Pixel buffer that maps 2×4 pixel blocks to Unicode Braille characters.
//!
//! Each terminal cell represents a 2-wide by 4-tall grid of pixels using
//! Unicode Braille patterns (U+2800..U+28FF). Foreground and background
//! colors are tracked per cell using xterm-256 color indices.

use crate::text::char_text;
use crate::utils::{ones, population};
use unicode_width::UnicodeWidthStr;
use vstd::arithmetic::div_mod::*;
use vstd::arithmetic::power2::pow2;
use vstd::prelude::*;

verus! {

/// xterm-256 color index (0 = no color / default).
pub type ColorIdx = u8;

// -- xterm-256 palette -----------------------------------------------------

/// The intensity of one channel of the 6x6x6 color cube.
pub open spec fn cube_level(step: int) -> int {
    if step == 0 {
        0
    } else {
        55 + 40 * step
    }
}

/// The red, green and blue of an entry of the xterm-256 palette.
pub open spec fn palette_color(i: int) -> (int, int, int) {
    if i == 7 {
        (192, 192, 192)
    } else if i == 8 {
        (128, 128, 128)
    } else if i < 16 {
        // One bit per channel, dark below 8 and bright above it.
        let level: int = if i < 8 {
            128
        } else {
            255
        };
        (level * (i % 2), level * (i / 2 % 2), level * (i / 4 % 2))
    } else if i < 232 {
        (cube_level((i - 16) / 36), cube_level((i - 16) / 6 % 6), cube_level((i - 16) % 6))
    } else {
        (8 + 10 * (i - 232), 8 + 10 * (i - 232), 8 + 10 * (i - 232))
    }
}

/// The squared distance between two colors.
pub open spec fn color_distance(a: (int, int, int), b: (int, int, int)) -> int {
    (a.0 - b.0) * (a.0 - b.0) + (a.1 - b.1) * (a.1 - b.1) + (a.2 - b.2) * (a.2 - b.2)
}

/// An entry of the xterm-256 palette as [r, g, b].
pub fn xterm_color(idx: ColorIdx) -> (r: [u8; 3])
    ensures
        (r[0] as int, r[1] as int, r[2] as int) == palette_color(idx as int),
{
    if idx == 7 {
        [192, 192, 192]
    } else if idx == 8 {
        [128, 128, 128]
    } else if idx < 16 {
        let level: u8 = if idx < 8 {
            128
        } else {
            255
        };
        [
            if idx % 2 == 1 { level } else { 0 },
            if idx / 2 % 2 == 1 { level } else { 0 },
            if idx / 4 % 2 == 1 { level } else { 0 },
        ]
    } else if idx < 232 {
        let cube: u8 = idx - 16;
        [cube_channel(cube / 36), cube_channel(cube / 6 % 6), cube_channel(cube % 6)]
    } else {
        let v: u8 = 8 + 10 * (idx - 232);
        [v, v, v]
    }
}

fn cube_channel(step: u8) -> (r: u8)
    requires
        step < 6,
    ensures
        r == cube_level(step as int),
{
    if step == 0 {
        0
    } else {
        55 + 40 * step
    }
}

fn squared_difference(a: u8, b: u8) -> (r: u32)
    ensures
        r == (a - b) * (a - b),
        r <= 65025,
{
    let d: i32 = a as i32 - b as i32;
    proof {
        assert(0 <= d * d <= 65025) by (nonlinear_arith)
            requires
                -255 <= d <= 255,
        ;
    }
    (d * d) as u32
}

/// Whether an entry of the palette is the closest to a color, and of several
/// that are equally close the least.
pub open spec fn is_closest(rgb: (int, int, int), idx: u8) -> bool {
    &&& forall|j: int|
        0 <= j < 256 ==> color_distance(rgb, palette_color(idx as int))
            <= #[trigger] color_distance(rgb, palette_color(j))
    &&& forall|j: int|
        0 <= j < idx ==> color_distance(rgb, palette_color(idx as int))
            < #[trigger] color_distance(rgb, palette_color(j))
}

/// The closest entry of the palette.
pub open spec fn closest_color(rgb: (int, int, int)) -> u8 {
    choose|idx: u8| is_closest(rgb, idx)
}

/// Find the closest xterm-256 color index for an RGB triple; of several that
/// are equally close, the least.
pub fn rgb_to_xterm(r: u8, g: u8, b: u8) -> (idx: ColorIdx)
    ensures
        is_closest((r as int, g as int, b as int), idx),
        idx == closest_color((r as int, g as int, b as int)),
{
    let ghost rgb = (r as int, g as int, b as int);
    let mut best_idx: u8 = 0;
    let mut best_dist: u32 = u32::MAX;
    let mut i: u16 = 0;
    while i < 256
        invariant
            i <= 256,
            rgb == (r as int, g as int, b as int),
            i == 0 ==> best_idx == 0 && best_dist == u32::MAX,
            i > 0 ==> best_idx < i && best_dist == color_distance(
                rgb,
                palette_color(best_idx as int),
            ),
            forall|j: int|
                0 <= j < i ==> best_dist <= #[trigger] color_distance(rgb, palette_color(j)),
            forall|j: int|
                0 <= j < best_idx ==> best_dist < #[trigger] color_distance(rgb, palette_color(j)),
        decreases 256 - i,
    {
        let p: [u8; 3] = xterm_color(i as u8);
        let dist: u32 = squared_difference(r, p[0]) + squared_difference(g, p[1])
            + squared_difference(b, p[2]);
        if dist < best_dist {
            best_dist = dist;
            best_idx = i as u8;
        }
        i = i + 1;
    }
    proof {
        let other = closest_color(rgb);
        assert(is_closest(rgb, best_idx));
        if other < best_idx {
            assert(color_distance(rgb, palette_color(other as int)) > best_dist);
            assert(color_distance(rgb, palette_color(best_idx as int)) >= color_distance(
                rgb,
                palette_color(other as int),
            ));
        } else if best_idx < other {
            assert(color_distance(rgb, palette_color(best_idx as int)) > color_distance(
                rgb,
                palette_color(other as int),
            ));
        }
    }
    best_idx
}

// -- Braille dot layout ----------------------------------------------------

/// The bit of a braille pattern that stands for the dot in column `x % 2` and
/// row `y % 4` of its cell:
///
/// ```text
///   col 0   col 1
///   0x01    0x08   row 0
///   0x02    0x10   row 1
///   0x04    0x20   row 2
///   0x40    0x80   row 3
/// ```
pub open spec fn dot_bit(x: int, y: int) -> u8 {
    if x % 2 == 0 {
        if y % 4 == 0 {
            0x01
        } else if y % 4 == 1 {
            0x02
        } else if y % 4 == 2 {
            0x04
        } else {
            0x40
        }
    } else {
        if y % 4 == 0 {
            0x08
        } else if y % 4 == 1 {
            0x10
        } else if y % 4 == 2 {
            0x20
        } else {
            0x80
        }
    }
}

// -- ASCII fallback --------------------------------------------------------

/// The dots that the `k`-th block character covers, in the bit layout of
/// [`ascii_layout`].
pub open spec fn block_mask(k: int) -> u8 {
    if k == 0 {
        51  // upper half
    } else if k == 1 {
        204  // lower half
    } else if k == 2 {
        102  // middle
    } else if k == 3 {
        15  // left half
    } else if k == 4 {
        240  // right half
    } else {
        255  // full block
    }
}

/// The `k`-th block character.
pub open spec fn block_char(k: int) -> char {
    if k == 0 {
        '\u{2580}'
    } else if k == 1 {
        '\u{2584}'
    } else if k == 2 {
        '\u{25A0}'
    } else if k == 3 {
        '\u{258C}'
    } else if k == 4 {
        '\u{2590}'
    } else {
        '\u{2588}'
    }
}

/// A braille pattern with its bits moved to the layout of the block masks.
pub open spec fn ascii_layout(pattern: u8) -> u8 {
    (pattern & 7) | ((pattern & 56) << 1) | ((pattern & 64) >> 3) | (pattern & 128)
}

/// How many of the pattern's dots the `k`-th block covers.
pub open spec fn block_cover(k: int, pattern: u8) -> nat {
    ones((block_mask(k) & ascii_layout(pattern)) as nat)
}

/// The best of the first `n` blocks for a pattern: the first that covers the
/// most dots, `None` where none covers any.
pub open spec fn best_block(n: nat, pattern: u8) -> Option<int>
    decreases n,
{
    if n == 0 {
        None
    } else {
        let k = n - 1;
        let before = best_block(k as nat, pattern);
        let bar = match before {
            Some(b) => block_cover(b, pattern),
            None => 0,
        };
        if block_cover(k, pattern) > bar {
            Some(k)
        } else {
            before
        }
    }
}

/// The block character shown for a braille pattern where Braille is off.
pub open spec fn ascii_char(pattern: u8) -> char {
    match best_block(6, pattern) {
        Some(k) => block_char(k),
        None => ' ',
    }
}

fn block_of(k: u8) -> (r: (u8, char))
    requires
        k < 6,
    ensures
        r == (block_mask(k as int), block_char(k as int)),
{
    if k == 0 {
        (51, '\u{2580}')
    } else if k == 1 {
        (204, '\u{2584}')
    } else if k == 2 {
        (102, '\u{25A0}')
    } else if k == 3 {
        (15, '\u{258C}')
    } else if k == 4 {
        (240, '\u{2590}')
    } else {
        (255, '\u{2588}')
    }
}

/// The block character for one braille pattern.
fn best_ascii(pattern: u8) -> (r: char)
    ensures
        r == ascii_char(pattern),
{
    let braille: u8 = (pattern & 7) | ((pattern & 56) << 1) | ((pattern & 64) >> 3) | (pattern
        & 128);
    let mut best_char: char = ' ';
    let mut best_covered: u32 = 0;
    let mut k: u8 = 0;
    while k < 6
        invariant
            k <= 6,
            braille == ascii_layout(pattern),
            match best_block(k as nat, pattern) {
                Some(b) => best_char == block_char(b) && best_covered == block_cover(b, pattern),
                None => best_char == ' ' && best_covered == 0,
            },
        decreases 6 - k,
    {
        let (mask, ch): (u8, char) = block_of(k);
        let covered: u32 = population((mask & braille) as u32);
        if covered > best_covered {
            best_covered = covered;
            best_char = ch;
        }
        k = k + 1;
    }
    best_char
}

// -- Model -----------------------------------------------------------------

/// What a buffer holds, cell by cell, in row-major order.
#[verifier::ext_equal]
pub struct Grid {
    /// Width in pixels.
    pub width: nat,
    /// Height in pixels.
    pub height: nat,
    /// The braille pattern of each cell.
    pub dots: Seq<u8>,
    /// The text that replaces the pattern of a cell.
    pub texts: Seq<Option<Seq<char>>>,
    /// Foreground and background colors.
    pub fg: Seq<u8>,
    pub bg: Seq<u8>,
    /// The background color of the whole.
    pub background: u8,
}

impl Grid {
    pub open spec fn cols(self) -> nat {
        self.width / 2
    }

    pub open spec fn rows(self) -> nat {
        self.height / 4
    }

    pub open spec fn cells(self) -> nat {
        self.cols() * self.rows()
    }

    pub open spec fn wf(self) -> bool {
        &&& self.width % 2 == 0
        &&& self.height % 4 == 0
        &&& self.dots.len() == self.cells()
        &&& self.texts.len() == self.cells()
        &&& self.fg.len() == self.cells()
        &&& self.bg.len() == self.cells()
    }

    /// A grid with nothing in it.
    pub open spec fn blank(width: nat, height: nat, background: u8) -> Grid {
        let n = (width / 2) * (height / 4);
        Grid {
            width,
            height,
            dots: Seq::new(n, |i: int| 0u8),
            texts: Seq::new(n, |i: int| None),
            fg: Seq::new(n, |i: int| 0u8),
            bg: Seq::new(n, |i: int| 0u8),
            background,
        }
    }

    /// Whether `(x, y)` is a pixel of the grid.
    pub open spec fn contains(self, x: int, y: int) -> bool {
        0 <= x < self.width && 0 <= y < self.height
    }

    /// The cell that holds pixel `(x, y)`.
    pub open spec fn cell(self, x: int, y: int) -> int {
        x / 2 + self.cols() * (y / 4)
    }

    /// The cell of pixel `(x, y)` with the dot in it; `None` outside the buffer.
    pub open spec fn place(self, x: int, y: int) -> Option<(int, u8)> {
        if self.contains(x, y) {
            Some((self.cell(x, y), dot_bit(x, y)))
        } else {
            None
        }
    }

    /// Whether pixel `(x, y)` is set.
    pub open spec fn lit(self, x: int, y: int) -> bool {
        self.contains(x, y) && self.dots[self.cell(x, y)] & dot_bit(x, y) != 0
    }

    /// The color of pixel `(x, y)`: that of its cell where the pixel is set,
    /// else 0.
    pub open spec fn color_at(self, x: int, y: int) -> u8 {
        if self.lit(x, y) {
            self.fg[self.cell(x, y)]
        } else {
            0
        }
    }

    /// The grid after a pixel was set.
    pub open spec fn set_pixel(self, x: int, y: int, color: u8) -> Grid {
        if self.contains(x, y) {
            let c = self.cell(x, y);
            Grid {
                dots: self.dots.update(c, self.dots[c] | dot_bit(x, y)),
                fg: self.fg.update(c, color),
                ..self
            }
        } else {
            self
        }
    }

    /// The grid after a pixel was made the only one of its cell.
    pub open spec fn set_pixel_line(self, x: int, y: int, color: u8) -> Grid {
        if self.contains(x, y) {
            let c = self.cell(x, y);
            Grid {
                dots: self.dots.update(c, dot_bit(x, y)),
                fg: self.fg.update(c, color),
                ..self
            }
        } else {
            self
        }
    }

    /// The grid after a pixel was cleared.
    pub open spec fn unset_pixel(self, x: int, y: int) -> Grid {
        if self.contains(x, y) {
            let c = self.cell(x, y);
            Grid { dots: self.dots.update(c, self.dots[c] & !dot_bit(x, y)), ..self }
        } else {
            self
        }
    }

    /// The grid after the background of the cell of a pixel was set.
    pub open spec fn set_background(self, x: int, y: int, color: u8) -> Grid {
        if self.contains(x, y) {
            Grid { bg: self.bg.update(self.cell(x, y), color), ..self }
        } else {
            self
        }
    }

    /// The grid after text was put into the cell of a pixel.
    pub open spec fn set_char(self, text: Seq<char>, x: int, y: int, color: u8) -> Grid {
        if self.contains(x, y) {
            let c = self.cell(x, y);
            Grid {
                texts: self.texts.update(c, Some(text)),
                fg: self.fg.update(c, color),
                ..self
            }
        } else {
            self
        }
    }

    /// The grid after the characters of `text` were put into one cell each,
    /// starting at pixel `(x, y)`.
    pub open spec fn write_chars(self, text: Seq<char>, x: int, y: int, color: u8) -> Grid
        decreases text.len(),
    {
        if text.len() == 0 {
            self
        } else {
            self.write_chars(text.drop_last(), x, y, color).set_char(
                seq![text.last()],
                x + 2 * (text.len() - 1),
                y,
                color,
            )
        }
    }

    /// The grid after `text` was written at `(x, y)`, or around it: a character
    /// is two pixels wide, so half of a text is a pixel for each of them.
    pub open spec fn write_text(
        self,
        text: Seq<char>,
        x: int,
        y: int,
        color: u8,
        center: bool,
    ) -> Grid {
        let start = if center {
            x - text.len()
        } else {
            x
        };
        self.write_chars(text, start, y, color)
    }
}

/// How many bytes are not zero.
pub open spec fn nonzero_count(s: Seq<u8>) -> nat
    decreases s.len(),
{
    if s.len() == 0 {
        0
    } else {
        nonzero_count(s.drop_last()) + if s.last() != 0 {
            1nat
        } else {
            0
        }
    }
}

/// How many cells hold text.
pub open spec fn text_count(s: Seq<Option<Seq<char>>>) -> nat
    decreases s.len(),
{
    if s.len() == 0 {
        0
    } else {
        text_count(s.drop_last()) + if s.last() is Some {
            1nat
        } else {
            0
        }
    }
}

// -- BrailleBuffer ---------------------------------------------------------

/// A pixel-addressable buffer that renders to Braille / ASCII block characters.
///
/// Coordinates are in *pixel* space: `width` x `height` pixels.  Each terminal
/// cell occupies 2x4 pixels, so the terminal grid is `width/2` columns by
/// `height/4` rows.
pub struct BrailleBuffer {
    /// Width in pixels (= terminal columns * 2).
    pub width: usize,
    /// Height in pixels (= terminal rows * 4).
    pub height: usize,
    /// One byte per cell: braille dot bitmask.
    pub pixel_buffer: Vec<u8>,
    /// Per-cell character override (for text labels).
    pub char_buffer: Vec<Option<String>>,
    /// Per-cell foreground color (xterm-256 index, 0 = default).
    pub foreground_buffer: Vec<ColorIdx>,
    /// Per-cell background color (xterm-256 index, 0 = default).
    pub background_buffer: Vec<ColorIdx>,
    /// ASCII fallback table (pixel bitmask -> best block char).
    pub ascii_to_braille: Vec<char>,
    /// Global background color applied to every cell.
    pub global_background: ColorIdx,
}

/// The characters of an optional text.
pub open spec fn text_view(t: Option<String>) -> Option<Seq<char>> {
    match t {
        Some(s) => Some(s@),
        None => None,
    }
}

impl View for BrailleBuffer {
    type V = Grid;

    open spec fn view(&self) -> Grid {
        Grid {
            width: self.width as nat,
            height: self.height as nat,
            dots: self.pixel_buffer@,
            texts: Seq::new(self.char_buffer@.len(), |i: int| text_view(self.char_buffer@[i])),
            fg: self.foreground_buffer@,
            bg: self.background_buffer@,
            background: self.global_background,
        }
    }
}

/// Pixels are addressed by `i32`, and a buffer has no pixel without an address.
pub open spec fn addressable(width: nat, height: nat) -> bool {
    &&& width % 2 == 0
    &&& height % 4 == 0
    &&& width <= i32::MAX
    &&& height <= i32::MAX
    &&& (width / 2) * (height / 4) <= usize::MAX
}

proof fn lemma_cell_in_range(g: Grid, x: int, y: int)
    requires
        g.width % 2 == 0,
        g.height % 4 == 0,
        g.contains(x, y),
    ensures
        0 <= g.cell(x, y) < g.cells(),
        0 <= g.cols() * (y / 4),
{
    assert(0 <= g.cols() * (y / 4) && x / 2 + g.cols() * (y / 4) < g.cols() * g.rows())
        by (nonlinear_arith)
        requires
            0 <= x / 2 < g.cols(),
            0 <= y / 4 < g.rows(),
    ;
}

/// Pixels of one cell share their column and row of cells.
proof fn lemma_same_cell(g: Grid, x: int, y: int, a: int, b: int)
    requires
        g.width % 2 == 0,
        g.height % 4 == 0,
        g.contains(x, y),
        g.contains(a, b),
        g.cell(x, y) == g.cell(a, b),
    ensures
        x / 2 == a / 2,
        y / 4 == b / 4,
{
    let n = g.cols() as int;
    lemma_fundamental_div_mod_converse(g.cell(x, y), n, y / 4, x / 2);
    lemma_fundamental_div_mod_converse(g.cell(a, b), n, b / 4, a / 2);
}

impl BrailleBuffer {
    /// The lengths fit the dimensions, and the fallback table is the one that
    /// [`ascii_char`] describes.
    pub open spec fn wf(&self) -> bool {
        &&& self@.wf()
        &&& addressable(self.width as nat, self.height as nat)
        &&& self.ascii_to_braille@.len() == 256
        &&& forall|i: int|
            0 <= i < 256 ==> #[trigger] self.ascii_to_braille@[i] == ascii_char(i as u8)
    }

    /// Create a new buffer.  `width` must be even, `height` a multiple of 4.
    pub fn new(width: usize, height: usize) -> (r: Self)
        requires
            addressable(width as nat, height as nat),
        ensures
            r.wf(),
            r@ == Grid::blank(width as nat, height as nat, 0),
    {
        let cell_count: usize = (width / 2) * (height / 4);
        let mut char_buffer: Vec<Option<String>> = Vec::new();
        let mut i: usize = 0;
        while i < cell_count
            invariant
                i <= cell_count,
                char_buffer@.len() == i,
                forall|k: int| 0 <= k < i ==> char_buffer@[k] is None,
            decreases cell_count - i,
        {
            char_buffer.push(None);
            i = i + 1;
        }
        BrailleBuffer {
            width,
            height,
            pixel_buffer: vec![0u8; cell_count],
            char_buffer,
            foreground_buffer: vec![0u8; cell_count],
            background_buffer: vec![0u8; cell_count],
            ascii_to_braille: Self::build_ascii_map(),
            global_background: 0,
        }
    }

    /// Build the ASCII fallback lookup table.
    fn build_ascii_map() -> (r: Vec<char>)
        ensures
            r@.len() == 256,
            forall|i: int| 0 <= i < 256 ==> #[trigger] r@[i] == ascii_char(i as u8),
    {
        let mut table: Vec<char> = Vec::new();
        let mut i: u16 = 0;
        while i < 256
            invariant
                i <= 256,
                table@.len() == i,
                forall|k: int| 0 <= k < i ==> #[trigger] table@[k] == ascii_char(k as u8),
            decreases 256 - i,
        {
            table.push(best_ascii(i as u8));
            i = i + 1;
        }
        table
    }

    /// Number of terminal columns.
    pub fn cols(&self) -> (r: usize)
        ensures
            r == self@.cols(),
    {
        self.width / 2
    }

    /// Number of terminal rows.
    pub fn rows(&self) -> (r: usize)
        ensures
            r == self@.rows(),
    {
        self.height / 4
    }

    /// Total number of cells.
    pub fn cell_count(&self) -> (r: usize)
        requires
            self.wf(),
        ensures
            r == self@.cells(),
    {
        self.cols() * self.rows()
    }

    /// Count cells that have at least one pixel set.
    pub fn pixel_count(&self) -> (r: usize)
        ensures
            r == nonzero_count(self@.dots),
    {
        count_nonzero(&self.pixel_buffer)
    }

    /// Count cells that have a non-zero foreground color.
    pub fn foreground_count(&self) -> (r: usize)
        ensures
            r == nonzero_count(self@.fg),
    {
        count_nonzero(&self.foreground_buffer)
    }

    /// Count cells that have a character override (text label).
    pub fn char_count(&self) -> (r: usize)
        ensures
            r == text_count(self@.texts),
    {
        let mut count: usize = 0;
        let mut i: usize = 0;
        let ghost texts = self@.texts;
        assert(texts.take(0) =~= Seq::empty());
        while i < self.char_buffer.len()
            invariant
                i <= self.char_buffer@.len(),
                texts == self@.texts,
                count == text_count(texts.take(i as int)),
                count <= i,
            decreases self.char_buffer@.len() - i,
        {
            proof {
                assert(texts.take(i + 1).drop_last() =~= texts.take(i as int));
            }
            if self.char_buffer[i].is_some() {
                count = count + 1;
            }
            i = i + 1;
        }
        assert(texts.take(i as int) =~= texts);
        count
    }

    /// Clear all pixel data, colors, and character overrides.
    pub fn clear(&mut self)
        requires
            old(self).wf(),
        ensures
            final(self).wf(),
            final(self)@ == Grid::blank(
                old(self)@.width,
                old(self)@.height,
                old(self)@.background,
            ),
    {
        let n: usize = self.cell_count();
        let mut i: usize = 0;
        while i < n
            invariant
                i <= n,
                n == old(self)@.cells(),
                self.wf(),
                self@.width == old(self)@.width,
                self@.height == old(self)@.height,
                self@.background == old(self)@.background,
                forall|k: int|
                    0 <= k < i ==> self.pixel_buffer@[k] == 0 && self.foreground_buffer@[k] == 0
                        && self.background_buffer@[k] == 0,
                forall|k: int| 0 <= k < i ==> self.char_buffer@[k] is None,
            decreases n - i,
        {
            self.pixel_buffer[i] = 0;
            self.char_buffer[i] = None;
            self.foreground_buffer[i] = 0;
            self.background_buffer[i] = 0;
            i = i + 1;
        }
        let ghost blank = Grid::blank(self@.width, self@.height, self@.background);
        assert(self@.dots =~= blank.dots && self@.fg =~= blank.fg && self@.bg =~= blank.bg);
        assert(self@.texts =~= blank.texts);
    }

    /// Set the global background color.
    pub fn set_global_background(&mut self, color: ColorIdx)
        requires
            old(self).wf(),
        ensures
            final(self).wf(),
            final(self)@ == (Grid { background: color, ..old(self)@ }),
    {
        self.global_background = color;
    }

    /// Set the background color for the cell containing pixel `(x, y)`.
    pub fn set_background(&mut self, x: i32, y: i32, color: ColorIdx)
        requires
            old(self).wf(),
        ensures
            final(self).wf(),
            final(self)@ == old(self)@.set_background(x as int, y as int, color),
    {
        if let Some((idx, _mask)) = self.locate(x, y) {
            self.background_buffer[idx] = color;
        }
    }

    /// Set a pixel at `(x, y)` with the given foreground color.
    pub fn set_pixel(&mut self, x: i32, y: i32, color: ColorIdx)
        requires
            old(self).wf(),
        ensures
            final(self).wf(),
            final(self)@ == old(self)@.set_pixel(x as int, y as int, color),
    {
        if let Some((idx, mask)) = self.locate(x, y) {
            let dots: u8 = self.pixel_buffer[idx];
            self.pixel_buffer[idx] = dots | mask;
            self.foreground_buffer[idx] = color;
        }
    }

    /// Make the pixel at `(x, y)` the only one of its cell, with the given
    /// foreground color.
    pub fn set_pixel_line(&mut self, x: i32, y: i32, color: ColorIdx)
        requires
            old(self).wf(),
        ensures
            final(self).wf(),
            final(self)@ == old(self)@.set_pixel_line(x as int, y as int, color),
    {
        if let Some((idx, mask)) = self.locate(x, y) {
            self.pixel_buffer[idx] = mask;
            self.foreground_buffer[idx] = color;
        }
    }

    /// Clear a pixel at `(x, y)`.
    pub fn unset_pixel(&mut self, x: i32, y: i32)
        requires
            old(self).wf(),
        ensures
            final(self).wf(),
            final(self)@ == old(self)@.unset_pixel(x as int, y as int),
    {
        if let Some((idx, mask)) = self.locate(x, y) {
            let dots: u8 = self.pixel_buffer[idx];
            self.pixel_buffer[idx] = dots & !mask;
        }
    }

    /// The color of the pixel at `(x, y)`: its cell's foreground color where
    /// the pixel is set, else 0.
    pub fn get_pixel_color(&self, x: i32, y: i32) -> (r: ColorIdx)
        requires
            self.wf(),
        ensures
            r == self@.color_at(x as int, y as int),
    {
        match self.locate(x, y) {
            Some((idx, mask)) => {
                if self.pixel_buffer[idx] & mask != 0 {
                    self.foreground_buffer[idx]
                } else {
                    0
                }
            },
            None => 0,
        }
    }

    /// Place a character at the cell containing pixel `(x, y)`.
    pub fn set_char(&mut self, ch: &str, x: i32, y: i32, color: ColorIdx)
        requires
            old(self).wf(),
        ensures
            final(self).wf(),
            final(self)@ == old(self)@.set_char(ch@, x as int, y as int, color),
    {
        if let Some((idx, _mask)) = self.locate(x, y) {
            self.char_buffer[idx] = Some(ch.to_string());
            self.foreground_buffer[idx] = color;
        }
    }

    /// Write a text string starting at pixel `(x, y)`.
    /// If `center` is true, the text is horizontally centered on `x`.
    pub fn write_text(&mut self, text: &str, x: i32, y: i32, color: ColorIdx, center: bool)
        requires
            old(self).wf(),
        ensures
            final(self).wf(),
            final(self)@ == old(self)@.write_text(text@, x as int, y as int, color, center),
            final(self).width == old(self).width,
            final(self).height == old(self).height,
    {
        let count: usize = text.unicode_len();
        let start: i128 = if center {
            x as i128 - count as i128
        } else {
            x as i128
        };
        let mut i: usize = 0;
        assert(text@.take(0) =~= Seq::empty());
        while i < count
            invariant
                i <= count,
                count == text@.len(),
                -0x2_0000_0000_0000_0000 <= start <= 0x1_0000_0000,
                self.wf(),
                self.width == old(self).width,
                self.height == old(self).height,
                self@ == old(self)@.write_chars(
                    text@.take(i as int),
                    start as int,
                    y as int,
                    color,
                ),
            decreases count - i,
        {
            proof {
                assert(text@.take(i + 1).drop_last() =~= text@.take(i as int));
            }
            let px: i128 = start + 2 * (i as i128);
            if 0 <= px && px < self.width as i128 {
                let ch: String = char_text(text.get_char(i));
                self.set_char(ch.as_str(), px as i32, y, color);
            }
            i = i + 1;
        }
        assert(text@.take(i as int) =~= text@);
    }

    /// Cell index + braille bitmask for pixel `(x, y)`.
    pub fn locate(&self, x: i32, y: i32) -> (r: Option<(usize, u8)>)
        requires
            self.wf(),
        ensures
            match r {
                Some((idx, mask)) => self@.place(x as int, y as int) == Some((idx as int, mask))
                    && idx < self@.cells(),
                None => self@.place(x as int, y as int) is None,
            },
    {
        if x < 0 || y < 0 {
            return None;
        }
        let ux: usize = x as usize;
        let uy: usize = y as usize;
        if ux >= self.width || uy >= self.height {
            return None;
        }
        proof {
            lemma_cell_in_range(self@, x as int, y as int);
        }
        let idx: usize = self.project(ux, uy);
        let row: usize = uy % 4;
        let mask: u8 = if ux % 2 == 0 {
            if row == 0 {
                0x01
            } else if row == 1 {
                0x02
            } else if row == 2 {
                0x04
            } else {
                0x40
            }
        } else {
            if row == 0 {
                0x08
            } else if row == 1 {
                0x10
            } else if row == 2 {
                0x20
            } else {
                0x80
            }
        };
        Some((idx, mask))
    }

    /// Map pixel coords to cell index.
    fn project(&self, x: usize, y: usize) -> (r: usize)
        requires
            self.wf(),
            self@.contains(x as int, y as int),
        ensures
            r == self@.cell(x as int, y as int),
    {
        proof {
            lemma_cell_in_range(self@, x as int, y as int);
        }
        x / 2 + (self.width / 2) * (y / 4)
    }
}

fn count_nonzero(v: &Vec<u8>) -> (r: usize)
    ensures
        r == nonzero_count(v@),
{
    let mut count: usize = 0;
    let mut i: usize = 0;
    assert(v@.take(0) =~= Seq::empty());
    while i < v.len()
        invariant
            i <= v@.len(),
            count == nonzero_count(v@.take(i as int)),
            count <= i,
        decreases v@.len() - i,
    {
        proof {
            assert(v@.take(i + 1).drop_last() =~= v@.take(i as int));
        }
        if v[i] != 0 {
            count = count + 1;
        }
        i = i + 1;
    }
    assert(v@.take(i as int) =~= v@);
    count
}

// -- Rendering -------------------------------------------------------------

/// `UnicodeWidthStr::width` of the `unicode-width` crate: how many terminal
/// columns a text takes up.
pub uninterp spec fn display_width(text: Seq<char>) -> nat;

/// `UnicodeWidthStr::width` of the `unicode-width` crate. The result depends
/// on the characters alone; nothing else is claimed of it.
#[verifier::external_body]
pub(crate) fn text_width(text: &str) -> (r: usize)
    ensures
        r == display_width(text@),
{
    UnicodeWidthStr::width(text)
}

/// What is drawn into a terminal cell.
#[derive(Debug, PartialEq, Eq)]
pub enum CellContent {
    /// A text, which may be wider than the cell.
    Text(String),
    /// A braille pattern or block character.
    Glyph(char),
}

/// One cell that is drawn, with its position relative to the drawn area and
/// its colors (`None` = the terminal's default).
#[derive(Debug, PartialEq, Eq)]
pub struct CellDraw {
    pub col: u16,
    pub row: u16,
    pub content: CellContent,
    pub fg: Option<ColorIdx>,
    pub bg: Option<ColorIdx>,
}

/// What a [`CellContent`] shows.
pub enum Shown {
    Text(Seq<char>),
    Glyph(char),
}

/// What a [`CellDraw`] says.
pub struct CellView {
    pub col: int,
    pub row: int,
    pub shown: Shown,
    pub fg: Option<u8>,
    pub bg: Option<u8>,
}

impl View for CellDraw {
    type V = CellView;

    open spec fn view(&self) -> CellView {
        CellView {
            col: self.col as int,
            row: self.row as int,
            shown: match self.content {
                CellContent::Text(s) => Shown::Text(s@),
                CellContent::Glyph(c) => Shown::Glyph(c),
            },
            fg: self.fg,
            bg: self.bg,
        }
    }
}

/// The views of a list of cells.
pub open spec fn cell_views(cells: Seq<CellDraw>) -> Seq<CellView> {
    Seq::new(cells.len(), |i: int| cells[i]@)
}

/// The color that an index stands for: 0 is the terminal's default.
pub open spec fn color_of(idx: u8) -> Option<u8> {
    if idx == 0 {
        None
    } else {
        Some(idx)
    }
}

/// The character for a braille pattern.
pub open spec fn glyph(pattern: u8, use_braille: bool) -> char {
    if use_braille {
        (0x2800 + pattern) as char
    } else {
        ascii_char(pattern)
    }
}

/// A row while it is drawn: how many cells a wide text still covers, and what
/// was drawn so far.
pub struct RowState {
    pub skip: nat,
    pub drawn: Seq<CellView>,
}

impl Grid {
    pub open spec fn cell_view(self, row: int, col: int, shown: Shown) -> CellView {
        let i = row * self.cols() + col;
        CellView {
            col,
            row,
            shown,
            fg: color_of(self.fg[i]),
            bg: color_of(self.bg[i] | self.background),
        }
    }

    /// The first `n` cells of a row, drawn into an area of `cols` columns. A
    /// text is drawn where it fits; it covers the cells to its right.
    pub open spec fn render_row(
        self,
        row: int,
        n: nat,
        cols: nat,
        use_braille: bool,
    ) -> RowState
        decreases n,
    {
        if n == 0 {
            RowState { skip: 0, drawn: Seq::empty() }
        } else {
            let col = n - 1;
            let before = self.render_row(row, col as nat, cols, use_braille);
            let i = row * self.cols() + col;
            if before.skip > 0 {
                RowState { skip: (before.skip - 1) as nat, drawn: before.drawn }
            } else {
                match self.texts[i] {
                    Some(text) => {
                        let w = display_width(text);
                        if col + w <= cols {
                            RowState {
                                skip: if w > 1 {
                                    (w - 1) as nat
                                } else {
                                    0
                                },
                                drawn: before.drawn.push(
                                    self.cell_view(row, col, Shown::Text(text)),
                                ),
                            }
                        } else {
                            before
                        }
                    },
                    None => RowState {
                        skip: 0,
                        drawn: before.drawn.push(
                            self.cell_view(row, col, Shown::Glyph(glyph(self.dots[i], use_braille))),
                        ),
                    },
                }
            }
        }
    }

    /// The first `n` rows, drawn into an area of `cols` columns.
    pub open spec fn render_rows(self, n: nat, cols: nat, use_braille: bool) -> Seq<CellView>
        decreases n,
    {
        if n == 0 {
            Seq::empty()
        } else {
            self.render_rows((n - 1) as nat, cols, use_braille) + self.render_row(
                n - 1,
                cols,
                cols,
                use_braille,
            ).drawn
        }
    }
}

/// The lesser of two numbers.
pub open spec fn least(a: int, b: int) -> int {
    if a < b {
        a
    } else {
        b
    }
}

fn shown_color(idx: ColorIdx) -> (r: Option<ColorIdx>)
    ensures
        r == color_of(idx),
{
    if idx == 0 {
        None
    } else {
        Some(idx)
    }
}

/// `char::from_u32` of std: the character with this code point, where there
/// is one.
#[verifier::external_body]
fn code_point(code: u32) -> (r: Option<char>)
    ensures
        (code < 0xd800 || 0xdfff < code <= 0x10ffff) ==> r == Some(code as char),
        !(code < 0xd800 || 0xdfff < code <= 0x10ffff) ==> r is None,
{
    char::from_u32(code)
}

impl BrailleBuffer {
    fn glyph_of(&self, pattern: u8, use_braille: bool) -> (r: char)
        requires
            self.wf(),
        ensures
            r == glyph(pattern, use_braille),
    {
        if use_braille {
            match code_point(0x2800 + pattern as u32) {
                Some(ch) => ch,
                None => ' ',
            }
        } else {
            self.ascii_to_braille[pattern as usize]
        }
    }

    /// What the buffer shows in an area of the terminal: the cells that are
    /// drawn, row by row.
    pub fn render_cells(&self, area_width: u16, area_height: u16, use_braille: bool) -> (r: Vec<
        CellDraw,
    >)
        requires
            self.wf(),
        ensures
            cell_views(r@) == self@.render_rows(
                least(self@.rows() as int, area_height as int) as nat,
                least(self@.cols() as int, area_width as int) as nat,
                use_braille,
            ),
    {
        let cols: usize = if self.cols() < area_width as usize {
            self.cols()
        } else {
            area_width as usize
        };
        let rows: usize = if self.rows() < area_height as usize {
            self.rows()
        } else {
            area_height as usize
        };
        let mut drawn: Vec<CellDraw> = Vec::new();
        let mut row: usize = 0;
        assert(cell_views(drawn@) =~= Seq::empty());
        while row < rows
            invariant
                row <= rows,
                rows <= self@.rows(),
                rows <= area_height,
                cols <= self@.cols(),
                cols <= area_width,
                self.wf(),
                cell_views(drawn@) == self@.render_rows(row as nat, cols as nat, use_braille),
            decreases rows - row,
        {
            self.render_row_into(row, cols, use_braille, &mut drawn);
            row = row + 1;
        }
        drawn
    }

    fn render_row_into(
        &self,
        row: usize,
        cols: usize,
        use_braille: bool,
        drawn: &mut Vec<CellDraw>,
    )
        requires
            self.wf(),
            row < self@.rows(),
            row < 0x1_0000,
            cols <= self@.cols(),
            cols < 0x1_0000,
        ensures
            cell_views(final(drawn)@) == cell_views(old(drawn)@) + self@.render_row(
                row as int,
                cols as nat,
                cols as nat,
                use_braille,
            ).drawn,
    {
        let mut skip: usize = 0;
        let mut col: usize = 0;
        let ghost start = cell_views(drawn@);
        assert(start + Seq::<CellView>::empty() =~= start);
        while col < cols
            invariant
                col <= cols,
                cols <= self@.cols(),
                cols < 0x1_0000,
                row < self@.rows(),
                row < 0x1_0000,
                self.wf(),
                skip == self@.render_row(row as int, col as nat, cols as nat, use_braille).skip,
                cell_views(drawn@) == start + self@.render_row(
                    row as int,
                    col as nat,
                    cols as nat,
                    use_braille,
                ).drawn,
            decreases cols - col,
        {
            let ghost before = drawn@;
            let ghost st = self@.render_row(row as int, col as nat, cols as nat, use_braille);
            proof {
                assert(0 <= row * self@.cols() && row * self@.cols() + col < self@.cells())
                    by (nonlinear_arith)
                    requires
                        0 <= row < self@.rows(),
                        0 <= col < self@.cols(),
                        self@.cells() == self@.cols() * self@.rows(),
                ;
            }
            let idx: usize = row * self.cols() + col;
            if skip > 0 {
                skip = skip - 1;
            } else {
                let fg: Option<ColorIdx> = shown_color(self.foreground_buffer[idx]);
                let bg: Option<ColorIdx> = shown_color(
                    self.background_buffer[idx] | self.global_background,
                );
                assert(self@.texts[idx as int] == text_view(self.char_buffer@[idx as int]));
                match &self.char_buffer[idx] {
                    Some(text) => {
                        let w: usize = text_width(text.as_str());
                        if w <= cols - col {
                            drawn.push(
                                CellDraw {
                                    col: col as u16,
                                    row: row as u16,
                                    content: CellContent::Text(text.clone()),
                                    fg,
                                    bg,
                                },
                            );
                            proof {
                                assert(cell_views(drawn@) =~= cell_views(before).push(
                                    drawn@.last()@,
                                ));
                                assert(cell_views(drawn@) =~= start + st.drawn.push(
                                    drawn@.last()@,
                                ));
                            }
                            if w > 1 {
                                skip = w - 1;
                            }
                        }
                    },
                    None => {
                        let ch: char = self.glyph_of(self.pixel_buffer[idx], use_braille);
                        drawn.push(
                            CellDraw {
                                col: col as u16,
                                row: row as u16,
                                content: CellContent::Glyph(ch),
                                fg,
                                bg,
                            },
                        );
                        proof {
                            assert(cell_views(drawn@) =~= cell_views(before).push(
                                drawn@.last()@,
                            ));
                            assert(cell_views(drawn@) =~= start + st.drawn.push(
                                drawn@.last()@,
                            ));
                        }
                    },
                }
            }
            col = col + 1;
        }
    }
}

// -- Laws ------------------------------------------------------------------

proof fn lemma_dot_bits_apart(x: int, y: int, a: int, b: int, dots: u8)
    ensures
        dot_bit(x, y) != 0,
        (dots | dot_bit(x, y)) & dot_bit(x, y) != 0,
        (dots & !dot_bit(x, y)) & dot_bit(x, y) == 0,
        dot_bit(x, y) & dot_bit(x, y) != 0,
        x % 2 != a % 2 || y % 4 != b % 4 ==> {
            &&& ((dots | dot_bit(x, y)) & dot_bit(a, b) != 0) == (dots & dot_bit(a, b) != 0)
            &&& ((dots & !dot_bit(x, y)) & dot_bit(a, b) != 0) == (dots & dot_bit(a, b) != 0)
            &&& dot_bit(x, y) & dot_bit(a, b) == 0
        },
{
    let (m, k) = (dot_bit(x, y), dot_bit(a, b));
    assert(m == 1 || m == 2 || m == 4 || m == 8 || m == 16 || m == 32 || m == 64 || m == 128);
    assert(k == 1 || k == 2 || k == 4 || k == 8 || k == 16 || k == 32 || k == 64 || k == 128);
    assert(m != 0 && (dots | m) & m != 0 && (dots & !m) & m == 0 && m & m != 0 && (m != k ==> ((dots
        | m) & k != 0) == (dots & k != 0) && ((dots & !m) & k != 0) == (dots & k != 0) && m & k
        == 0)) by (bit_vector)
        requires
            m == 1 || m == 2 || m == 4 || m == 8 || m == 16 || m == 32 || m == 64 || m == 128,
            k == 1 || k == 2 || k == 4 || k == 8 || k == 16 || k == 32 || k == 64 || k == 128,
    ;
}

/// Setting a pixel lights that pixel and no other, and puts out none.
pub proof fn law_set_pixel_lights_one(g: Grid, x: int, y: int, color: u8, a: int, b: int)
    requires
        g.wf(),
    ensures
        g.set_pixel(x, y, color).wf(),
        g.set_pixel(x, y, color).lit(a, b) == (g.lit(a, b) || (a == x && b == y && g.contains(
            x,
            y,
        ))),
        g.contains(x, y) ==> g.set_pixel(x, y, color).color_at(x, y) == color,
{
    if g.contains(x, y) {
        lemma_cell_in_range(g, x, y);
        if g.contains(a, b) {
            lemma_cell_in_range(g, a, b);
            lemma_dot_bits_apart(x, y, a, b, g.dots[g.cell(x, y)]);
            if g.cell(x, y) == g.cell(a, b) {
                lemma_same_cell(g, x, y, a, b);
            }
        }
        lemma_dot_bits_apart(x, y, x, y, g.dots[g.cell(x, y)]);
    }
}

/// Clearing a pixel puts out that pixel and no other, and lights none.
pub proof fn law_unset_pixel_clears_one(g: Grid, x: int, y: int, a: int, b: int)
    requires
        g.wf(),
    ensures
        g.unset_pixel(x, y).wf(),
        g.unset_pixel(x, y).lit(a, b) == (g.lit(a, b) && !(a == x && b == y)),
{
    if g.contains(x, y) {
        lemma_cell_in_range(g, x, y);
        if g.contains(a, b) {
            lemma_cell_in_range(g, a, b);
            lemma_dot_bits_apart(x, y, a, b, g.dots[g.cell(x, y)]);
            if g.cell(x, y) == g.cell(a, b) {
                lemma_same_cell(g, x, y, a, b);
            }
        }
    }
}

/// A thin pixel is the only one lit in its cell; no other cell changes.
pub proof fn law_thin_pixel_stands_alone(g: Grid, x: int, y: int, color: u8, a: int, b: int)
    requires
        g.wf(),
        g.contains(x, y),
        g.contains(a, b),
    ensures
        g.set_pixel_line(x, y, color).wf(),
        g.set_pixel_line(x, y, color).lit(a, b) == if x / 2 == a / 2 && y / 4 == b / 4 {
            a == x && b == y
        } else {
            g.lit(a, b)
        },
{
    lemma_cell_in_range(g, x, y);
    lemma_cell_in_range(g, a, b);
    lemma_dot_bits_apart(x, y, a, b, g.dots[g.cell(x, y)]);
    lemma_dot_bits_apart(x, y, x, y, g.dots[g.cell(x, y)]);
    if g.cell(x, y) == g.cell(a, b) {
        lemma_same_cell(g, x, y, a, b);
    }
}

/// A pixel of the buffer has a cell of the buffer and one of its dots, and no
/// other pixel has the same.
pub proof fn law_pixels_have_places_of_their_own(g: Grid, x: int, y: int, a: int, b: int)
    requires
        g.wf(),
    ensures
        g.place(x, y) is Some <==> 0 <= x < g.width && 0 <= y < g.height,
        g.place(x, y) matches Some((idx, mask)) ==> 0 <= idx < g.cells() && crate::utils::ones(
            mask as nat,
        ) == 1,
        g.place(x, y) is Some && g.place(x, y) == g.place(a, b) ==> x == a && y == b,
{
    reveal_with_fuel(crate::utils::ones, 9);
    if g.contains(x, y) {
        lemma_cell_in_range(g, x, y);
        if g.contains(a, b) && g.cell(x, y) == g.cell(a, b) {
            lemma_cell_in_range(g, a, b);
            lemma_same_cell(g, x, y, a, b);
        }
    }
}

/// Nothing outside the buffer changes it.
pub proof fn law_outside_is_ignored(g: Grid, x: int, y: int, color: u8, text: Seq<char>)
    requires
        !g.contains(x, y),
    ensures
        g.set_pixel(x, y, color) == g,
        g.set_pixel_line(x, y, color) == g,
        g.unset_pixel(x, y) == g,
        g.set_background(x, y, color) == g,
        g.set_char(text, x, y, color) == g,
{
}

/// A color of the palette is matched exactly.
pub proof fn law_palette_colors_are_exact(i: int, idx: u8)
    requires
        0 <= i < 256,
        is_closest(palette_color(i), idx),
    ensures
        palette_color(idx as int) == palette_color(i),
        idx <= i,
{
    let (p, q) = (palette_color(i), palette_color(idx as int));
    assert(color_distance(p, p) == 0);
    assert(color_distance(p, q) <= color_distance(p, p));
    let (x, y, z) = (p.0 - q.0, p.1 - q.1, p.2 - q.2);
    assert(x == 0 && y == 0 && z == 0) by (nonlinear_arith)
        requires
            x * x + y * y + z * z <= 0,
    ;
}

/// The palette: sixteen named colors with one bit each for red, green and blue,
/// a cube of six levels a side with blue as its fastest and red as its slowest
/// axis, and a ramp of greys.
pub proof fn law_palette_layout(red: int, green: int, blue: int, step: int)
    ensures
        0 <= red < 6 && 0 <= green < 6 && 0 <= blue < 6 ==> ({
            let levels: Seq<int> = seq![0, 95, 135, 175, 215, 255];
            palette_color(16 + 36 * red + 6 * green + blue) == (
                levels[red],
                levels[green],
                levels[blue],
            )
        }),
        0 <= step < 24 ==> palette_color(232 + step) == (8 + 10 * step, 8 + 10 * step, 8 + 10 * step),
        0 <= red < 2 && 0 <= green < 2 && 0 <= blue < 2 && red + green + blue < 3
            ==> palette_color(red + 2 * green + 4 * blue) == (128 * red, 128 * green, 128 * blue),
        0 <= red < 2 && 0 <= green < 2 && 0 <= blue < 2 && red + green + blue > 0
            ==> palette_color(8 + red + 2 * green + 4 * blue) == (
            255 * red,
            255 * green,
            255 * blue,
        ),
        palette_color(7) == (192int, 192int, 192int),
        palette_color(8) == (128int, 128int, 128int),
{
    if 0 <= red < 6 && 0 <= green < 6 && 0 <= blue < 6 {
        let i = 36 * red + 6 * green + blue;
        lemma_fundamental_div_mod_converse(i, 36, red, 6 * green + blue);
        lemma_fundamental_div_mod_converse(i, 6, 6 * red + green, blue);
        lemma_fundamental_div_mod_converse(6 * red + green, 6, red, green);
    }
}

/// The color that is picked for any red, green and blue is no further away than
/// any other of the palette, by the sum of the squared differences.
pub proof fn law_no_color_is_closer(rgb: (int, int, int), j: int)
    requires
        0 <= j < 256,
    ensures
        ({
            let (p, q) = (palette_color(closest_color(rgb) as int), palette_color(j));
            let (a, b, c) = (rgb.0 - p.0, rgb.1 - p.1, rgb.2 - p.2);
            let (d, e, f) = (rgb.0 - q.0, rgb.1 - q.1, rgb.2 - q.2);
            &&& a * a + b * b + c * c <= d * d + e * e + f * f
            &&& a * a + b * b + c * c == d * d + e * e + f * f ==> closest_color(rgb) <= j
        }),
{
    let best = lemma_closest_exists(rgb, 256);
    assert(is_closest(rgb, best as u8));
    let idx = closest_color(rgb);
    assert(is_closest(rgb, idx));
    assert(color_distance(rgb, palette_color(idx as int)) <= color_distance(rgb, palette_color(j)));
}

proof fn lemma_closest_exists(rgb: (int, int, int), n: int) -> (best: int)
    requires
        1 <= n <= 256,
    ensures
        0 <= best < n,
        forall|j: int|
            0 <= j < n ==> color_distance(rgb, palette_color(best)) <= #[trigger] color_distance(
                rgb,
                palette_color(j),
            ),
        forall|j: int|
            0 <= j < best ==> color_distance(rgb, palette_color(best)) < #[trigger] color_distance(
                rgb,
                palette_color(j),
            ),
    decreases n,
{
    if n == 1 {
        0
    } else {
        let before = lemma_closest_exists(rgb, n - 1);
        if color_distance(rgb, palette_color(n - 1)) < color_distance(rgb, palette_color(before)) {
            n - 1
        } else {
            before
        }
    }
}

// -- What a cell shows -----------------------------------------------------

/// The dots of a pattern are numbered as in Unicode's braille block: downwards
/// from the upper left, three to a column, and then the two of the lowest row.
pub proof fn law_dots_are_numbered_as_in_unicode(x: int, y: int, pattern: u8)
    ensures
        dot_bit(x, y) as int == pow2(
            (if y % 4 < 3 {
                3 * (x % 2) + y % 4
            } else {
                6 + x % 2
            }) as nat,
        ),
        glyph(pattern, true) as int == 0x2800 + pattern,
{
    vstd::arithmetic::power2::lemma2_to64();
}

/// The part of a cell that a block character covers: the upper half, the lower
/// half, the middle, the left half, the right half, all of it.
pub open spec fn in_block(k: int, x: int, y: int) -> bool {
    if k == 0 {
        y < 2
    } else if k == 1 {
        y >= 2
    } else if k == 2 {
        y == 1 || y == 2
    } else if k == 3 {
        x == 0
    } else if k == 4 {
        x == 1
    } else {
        true
    }
}

/// Whether all dots of a pattern lie in the part that a block character covers.
pub open spec fn dots_within(pattern: u8, k: int) -> bool {
    forall|x: int, y: int|
        0 <= x < 2 && 0 <= y < 4 && #[trigger] dot_bit(x, y) & pattern != 0 ==> in_block(k, x, y)
}

/// Without Braille a cell shows the first block character, of the upper half,
/// the lower half, the middle, the left half, the right half and the full block,
/// that covers all its dots, and nothing where it has none.
pub proof fn law_blocks_cover_all_dots(pattern: u8)
    ensures
        pattern == 0 ==> glyph(pattern, false) == ' ',
        pattern != 0 && dots_within(pattern, 0) ==> glyph(pattern, false) == '\u{2580}',
        pattern != 0 && !dots_within(pattern, 0) && dots_within(pattern, 1) ==> glyph(
            pattern,
            false,
        ) == '\u{2584}',
        pattern != 0 && !dots_within(pattern, 0) && !dots_within(pattern, 1) && dots_within(
            pattern,
            2,
        ) ==> glyph(pattern, false) == '\u{25A0}',
        pattern != 0 && !dots_within(pattern, 0) && !dots_within(pattern, 1) && !dots_within(
            pattern,
            2,
        ) && dots_within(pattern, 3) ==> glyph(pattern, false) == '\u{258C}',
        pattern != 0 && !dots_within(pattern, 0) && !dots_within(pattern, 1) && !dots_within(
            pattern,
            2,
        ) && !dots_within(pattern, 3) && dots_within(pattern, 4) ==> glyph(pattern, false)
            == '\u{2590}',
        pattern != 0 && !dots_within(pattern, 0) && !dots_within(pattern, 1) && !dots_within(
            pattern,
            2,
        ) && !dots_within(pattern, 3) && !dots_within(pattern, 4) ==> glyph(pattern, false)
            == '\u{2588}',
{
    lemma_block_covers(pattern, 0);
    lemma_block_covers(pattern, 1);
    lemma_block_covers(pattern, 2);
    lemma_block_covers(pattern, 3);
    lemma_block_covers(pattern, 4);
    lemma_block_covers(pattern, 5);
    reveal_with_fuel(best_block, 7);
}

/// Fewer bits make a lesser count.
proof fn lemma_fewer_ones(part: u8, whole: u8)
    requires
        part & whole == part,
    ensures
        ones(part as nat) <= ones(whole as nat),
        ones(part as nat) == ones(whole as nat) ==> part == whole,
    decreases whole,
{
    if whole == 0 {
        assert(part == 0) by (bit_vector)
            requires
                part & 0 == part,
        ;
    } else {
        assert((part / 2) & (whole / 2) == part / 2 && part % 2 <= whole % 2) by (bit_vector)
            requires
                part & whole == part,
        ;
        lemma_fewer_ones(part / 2, whole / 2);
        if part == 0 {
            assert(ones(0) == 0);
            assert(ones(whole as nat) == whole as nat % 2 + ones(whole as nat / 2));
            assert(ones((part / 2) as nat) == 0);
        } else {
            assert(ones(part as nat) == part as nat % 2 + ones(part as nat / 2));
            assert(ones(whole as nat) == whole as nat % 2 + ones(whole as nat / 2));
        }
    }
}

/// Where the dots of a pattern are in the layout of the block masks.
proof fn lemma_layout(p: u8)
    ensures
        ({
            let l = ascii_layout(p);
            &&& 255u8 & l == l
            &&& l == 0 <==> p == 0
            &&& (51u8 & l == l) == (4u8 & p == 0 && 64u8 & p == 0 && 32u8 & p == 0 && 128u8 & p == 0)
            &&& (204u8 & l == l) == (1u8 & p == 0 && 2u8 & p == 0 && 8u8 & p == 0 && 16u8 & p == 0)
            &&& (102u8 & l == l) == (1u8 & p == 0 && 64u8 & p == 0 && 8u8 & p == 0 && 128u8 & p
                == 0)
            &&& (15u8 & l == l) == (8u8 & p == 0 && 16u8 & p == 0 && 32u8 & p == 0 && 128u8 & p
                == 0)
            &&& (240u8 & l == l) == (1u8 & p == 0 && 2u8 & p == 0 && 4u8 & p == 0 && 64u8 & p == 0)
        }),
{
    let l = ascii_layout(p);
    assert(255u8 & l == l && (l == 0 <==> p == 0) && (51u8 & l == l) == (4u8 & p == 0 && 64u8 & p
        == 0 && 32u8 & p == 0 && 128u8 & p == 0) && (204u8 & l == l) == (1u8 & p == 0 && 2u8 & p
        == 0 && 8u8 & p == 0 && 16u8 & p == 0) && (102u8 & l == l) == (1u8 & p == 0 && 64u8 & p
        == 0 && 8u8 & p == 0 && 128u8 & p == 0) && (15u8 & l == l) == (8u8 & p == 0 && 16u8 & p
        == 0 && 32u8 & p == 0 && 128u8 & p == 0) && (240u8 & l == l) == (1u8 & p == 0 && 2u8 & p
        == 0 && 4u8 & p == 0 && 64u8 & p == 0)) by (bit_vector)
        requires
            l == (p & 7) | ((p & 56) << 1) | ((p & 64) >> 3) | (p & 128),
    ;
}

proof fn lemma_dots_within(p: u8, k: int)
    requires
        0 <= k < 6,
    ensures
        dots_within(p, k) <==> block_mask(k) & ascii_layout(p) == ascii_layout(p),
{
    lemma_layout(p);
    if dots_within(p, k) {
        assert(dot_bit(0, 0) & p != 0 ==> in_block(k, 0, 0));
        assert(dot_bit(0, 1) & p != 0 ==> in_block(k, 0, 1));
        assert(dot_bit(0, 2) & p != 0 ==> in_block(k, 0, 2));
        assert(dot_bit(0, 3) & p != 0 ==> in_block(k, 0, 3));
        assert(dot_bit(1, 0) & p != 0 ==> in_block(k, 1, 0));
        assert(dot_bit(1, 1) & p != 0 ==> in_block(k, 1, 1));
        assert(dot_bit(1, 2) & p != 0 ==> in_block(k, 1, 2));
        assert(dot_bit(1, 3) & p != 0 ==> in_block(k, 1, 3));
    }
}

proof fn lemma_block_covers(pattern: u8, k: int)
    requires
        0 <= k < 6,
    ensures
        block_cover(k, pattern) <= block_cover(5, pattern),
        dots_within(pattern, k) <==> block_cover(k, pattern) == block_cover(5, pattern),
        pattern == 0 <==> block_cover(5, pattern) == 0,
{
    let (m, l) = (block_mask(k), ascii_layout(pattern));
    lemma_layout(pattern);
    lemma_dots_within(pattern, k);
    assert((m & l) & l == m & l && 0u8 & l == 0u8) by (bit_vector);
    lemma_fewer_ones(m & l, l);
    lemma_fewer_ones(0, l);
    assert(ones(0) == 0);
}

/// The cell of a pixel, counted row by row, two pixels wide and four high.
pub proof fn law_cells_are_two_by_four(g: Grid, col: int, row: int, dx: int, dy: int)
    requires
        g.wf(),
        0 <= dx < 2,
        0 <= dy < 4,
    ensures
        g.cell(2 * col + dx, 4 * row + dy) == row * (g.width / 2) + col,
        g.cells() == (g.width / 2) * (g.height / 4),
{
    assert(g.cols() * row == row * g.cols()) by (nonlinear_arith);
}

/// Text put at a pixel is shown by the cell of that pixel, in its color, and no
/// other cell changes; the dots stay. A background put there changes the
/// background of that cell alone.
pub proof fn law_texts_and_backgrounds_fill_their_cell(
    g: Grid,
    text: Seq<char>,
    x: int,
    y: int,
    color: u8,
    i: int,
)
    requires
        g.wf(),
        g.contains(x, y),
        0 <= i < g.cells(),
    ensures
        ({
            let own = (y / 4) * (g.width / 2) + x / 2;
            let a = g.set_char(text, x, y, color);
            let b = g.set_background(x, y, color);
            &&& a.wf() && b.wf()
            &&& a.texts[i] == if i == own {
                Some(text)
            } else {
                g.texts[i]
            }
            &&& a.fg[i] == if i == own {
                color
            } else {
                g.fg[i]
            }
            &&& a.dots == g.dots && a.bg == g.bg && a.background == g.background
            &&& b.bg[i] == if i == own {
                color
            } else {
                g.bg[i]
            }
            &&& b.dots == g.dots && b.fg == g.fg && b.texts == g.texts && b.background
                == g.background
        }),
{
    lemma_cell_in_range(g, x, y);
    assert(g.cols() * (y / 4) == (y / 4) * g.cols()) by (nonlinear_arith);
}

/// A text that is written at a pixel has its `k`-th character in the cell `k`
/// columns to the right, in its color; what falls outside is left out. Cells
/// where no character falls stay as they were, and so do all dots.
pub proof fn law_texts_run_to_the_right(
    g: Grid,
    text: Seq<char>,
    x: int,
    y: int,
    color: u8,
    i: int,
)
    requires
        g.wf(),
        0 <= i < g.cells(),
    ensures
        ({
            let r = g.write_text(text, x, y, color, false);
            &&& r.wf()
            &&& r.dots == g.dots && r.bg == g.bg && r.background == g.background && r.width
                == g.width && r.height == g.height
            &&& forall|k: int|
                0 <= k < text.len() && #[trigger] g.contains(x + 2 * k, y) ==> r.texts[g.cell(
                    x + 2 * k,
                    y,
                )] == Some(seq![text[k]]) && r.fg[g.cell(x + 2 * k, y)] == color
            &&& (forall|k: int|
                0 <= k < text.len() && #[trigger] g.contains(x + 2 * k, y) ==> g.cell(
                    x + 2 * k,
                    y,
                ) != i) ==> r.texts[i] == g.texts[i] && r.fg[i] == g.fg[i]
        }),
    decreases text.len(),
{
    if text.len() > 0 {
        let n = text.len() - 1;
        let before = g.write_text(text.drop_last(), x, y, color, false);
        let r = g.write_text(text, x, y, color, false);
        law_texts_run_to_the_right(g, text.drop_last(), x, y, color, i);
        assert(r == before.set_char(seq![text.last()], x + 2 * n, y, color));
        if g.contains(x + 2 * n, y) {
            lemma_cell_in_range(g, x + 2 * n, y);
        }
        assert forall|k: int| 0 <= k < text.len() && #[trigger] g.contains(x + 2 * k, y) implies
            r.texts[g.cell(x + 2 * k, y)] == Some(seq![text[k]]) && r.fg[g.cell(x + 2 * k, y)]
            == color by {
            lemma_cell_in_range(g, x + 2 * k, y);
            if k < n {
                assert(text.drop_last()[k] == text[k]);
                if g.contains(x + 2 * n, y) && g.cell(x + 2 * k, y) == g.cell(x + 2 * n, y) {
                    lemma_same_cell(g, x + 2 * k, y, x + 2 * n, y);
                }
            }
        }
    }
}

/// A centered text starts as many pixels to the left of its place as it has
/// characters, each two pixels wide, so that it has as much on either side.
pub proof fn law_centered_texts_start_half_way(
    g: Grid,
    text: Seq<char>,
    x: int,
    y: int,
    color: u8,
)
    ensures
        g.write_text(text, x, y, color, true) == g.write_text(
            text,
            x - text.len(),
            y,
            color,
            false,
        ),
{
}

/// The text of a cell, by its row and column.
pub open spec fn text_of(g: Grid, row: int, col: int) -> Option<Seq<char>> {
    g.texts[row * (g.width / 2) + col]
}

/// Whether a drawn cell shows what the grid has at its place: its text, or the
/// character for its dots, in its foreground color, on its background color
/// joined with that of the whole.
pub open spec fn shows_its_cell(g: Grid, v: CellView, use_braille: bool) -> bool {
    let i = v.row * (g.width / 2) + v.col;
    &&& g.texts[i] matches Some(text) ==> v.shown == Shown::Text(text)
    &&& g.texts[i] is None && use_braille ==> v.shown == Shown::Glyph((0x2800 + g.dots[i]) as char)
    &&& g.texts[i] is None && !use_braille ==> v.shown == Shown::Glyph(glyph(g.dots[i], false))
    &&& v.fg == if g.fg[i] == 0 {
        None
    } else {
        Some(g.fg[i])
    }
    &&& v.bg == if g.bg[i] | g.background == 0 {
        None
    } else {
        Some(g.bg[i] | g.background)
    }
}

/// Whether a text further left in the row of a cell reaches over it.
pub open spec fn is_covered(g: Grid, row: int, col: int) -> bool {
    exists|c: int|
        0 <= c < col && ((#[trigger] text_of(g, row, c)) matches Some(text) && c
            + display_width(text) > col)
}

/// What a row draws: cells of that row from left to right, each showing what it
/// holds, no text beyond the right edge.
proof fn lemma_row_drawn(g: Grid, row: int, n: nat, cols: nat, use_braille: bool)
    requires
        n <= cols,
    ensures
        ({
            let state = g.render_row(row, n, cols, use_braille);
            &&& forall|k: int|
                0 <= k < state.drawn.len() ==> {
                    let v = #[trigger] state.drawn[k];
                    &&& v.row == row
                    &&& 0 <= v.col < n
                    &&& shows_its_cell(g, v, use_braille)
                    &&& v.shown matches Shown::Text(text) ==> v.col + display_width(text) <= cols
                }
            &&& forall|k: int, l: int|
                0 <= k < l < state.drawn.len() ==> (#[trigger] state.drawn[k]).col < (
                #[trigger] state.drawn[l]).col
            &&& state.skip > 0 ==> exists|c: int|
                0 <= c < n && ((#[trigger] text_of(g, row, c)) matches Some(text) && c
                    + display_width(text) == n + state.skip)
            &&& forall|c: int|
                0 <= c < n ==> drawn_at(state.drawn, row, c) || is_covered(g, row, c) || (
                (#[trigger] text_of(g, row, c)) matches Some(text) && c
                    + display_width(text) > cols)
        }),
    decreases n,
{
    if n > 0 {
        let col = n - 1;
        lemma_row_drawn(g, row, col as nat, cols, use_braille);
        let before = g.render_row(row, col as nat, cols, use_braille);
        let state = g.render_row(row, n, cols, use_braille);
        let i = row * (g.width / 2) + col;
        if before.skip > 0 {
            let c = choose|c: int|
                0 <= c < col && ((#[trigger] text_of(g, row, c)) matches Some(text) && c
                    + display_width(text) == col + before.skip);
            assert(text_of(g, row, c) is Some);
            assert(is_covered(g, row, col));
        } else {
            if state.drawn.len() > before.drawn.len() {
                assert(state.drawn == before.drawn.push(state.drawn.last()));
                assert(state.drawn[before.drawn.len() as int].col == col);
                assert(drawn_at(state.drawn, row, col));
            }
            if state.skip > 0 {
                assert(text_of(g, row, col) is Some);
                assert(col + display_width(text_of(g, row, col)->0) == n + state.skip);
            }
        }
        assert forall|c: int| 0 <= c < n implies drawn_at(state.drawn, row, c) || is_covered(
            g,
            row,
            c,
        ) || ((#[trigger] text_of(g, row, c)) matches Some(text) && c
            + display_width(text) > cols) by {
            if c < col && drawn_at(before.drawn, row, c) {
                let k = choose|k: int|
                    0 <= k < before.drawn.len() && (#[trigger] before.drawn[k]).row == row
                        && before.drawn[k].col == c;
                assert(state.drawn[k] == before.drawn[k]);
            }
        }
    }
}

/// Whether a cell is among those that are drawn.
pub open spec fn drawn_at(drawn: Seq<CellView>, row: int, col: int) -> bool {
    exists|k: int|
        0 <= k < drawn.len() && (#[trigger] drawn[k]).row == row && drawn[k].col == col
}

/// Every cell that is drawn is one of the area and shows what the grid holds
/// there; they come row by row, from left to right; a text is drawn only where
/// it ends within the area. A cell of the area is left out only where a text to
/// its left reaches over it, or where its own text has no room.
pub proof fn law_cells_are_drawn_once_and_in_order(
    g: Grid,
    rows: nat,
    cols: nat,
    use_braille: bool,
)
    ensures
        ({
            let drawn = g.render_rows(rows, cols, use_braille);
            &&& forall|k: int|
                0 <= k < drawn.len() ==> {
                    let v = #[trigger] drawn[k];
                    &&& 0 <= v.row < rows
                    &&& 0 <= v.col < cols
                    &&& shows_its_cell(g, v, use_braille)
                    &&& v.shown matches Shown::Text(text) ==> v.col + display_width(text) <= cols
                }
            &&& forall|k: int, l: int|
                0 <= k < l < drawn.len() ==> {
                    let (v, w) = (#[trigger] drawn[k], #[trigger] drawn[l]);
                    v.row < w.row || (v.row == w.row && v.col < w.col)
                }
            &&& forall|row: int, col: int|
                0 <= row < rows && 0 <= col < cols ==> drawn_at(drawn, row, col) || is_covered(
                    g,
                    row,
                    col,
                ) || ((#[trigger] text_of(g, row, col)) matches Some(text) && col
                    + display_width(text) > cols)
        }),
    decreases rows,
{
    if rows > 0 {
        let row = rows - 1;
        law_cells_are_drawn_once_and_in_order(g, row as nat, cols, use_braille);
        lemma_row_drawn(g, row, cols, cols, use_braille);
        let before = g.render_rows(row as nat, cols, use_braille);
        let own = g.render_row(row, cols, cols, use_braille).drawn;
        let drawn = g.render_rows(rows, cols, use_braille);
        assert(drawn == before + own);
        assert forall|k: int| 0 <= k < drawn.len() implies {
            let v = #[trigger] drawn[k];
            &&& 0 <= v.row < rows
            &&& 0 <= v.col < cols
            &&& shows_its_cell(g, v, use_braille)
            &&& v.shown matches Shown::Text(text) ==> v.col + display_width(text) <= cols
        } by {
            if k < before.len() {
                assert(drawn[k] == before[k]);
            } else {
                assert(drawn[k] == own[k - before.len()]);
            }
        }
        assert forall|k: int, l: int| 0 <= k < l < drawn.len() implies {
            let (v, w) = (#[trigger] drawn[k], #[trigger] drawn[l]);
            v.row < w.row || (v.row == w.row && v.col < w.col)
        } by {
            if l < before.len() {
                assert(drawn[k] == before[k] && drawn[l] == before[l]);
            } else if k < before.len() {
                assert(drawn[k] == before[k] && drawn[l] == own[l - before.len()]);
            } else {
                assert(drawn[k] == own[k - before.len()] && drawn[l] == own[l - before.len()]);
            }
        }
        assert forall|r: int, c: int| 0 <= r < rows && 0 <= c < cols implies drawn_at(drawn, r, c)
            || is_covered(g, r, c) || ((#[trigger] text_of(g, r, c)) matches Some(
            text,
        ) && c + display_width(text) > cols) by {
            if r < row && drawn_at(before, r, c) {
                let k = choose|k: int|
                    0 <= k < before.len() && (#[trigger] before[k]).row == r && before[k].col == c;
                assert(drawn[k] == before[k]);
            }
            if r == row && drawn_at(own, r, c) {
                let k = choose|k: int|
                    0 <= k < own.len() && (#[trigger] own[k]).row == r && own[k].col == c;
                assert(drawn[before.len() + k] == own[k]);
            }
        }
    }
}

/// A drawn cell has its column, its row and its colors where they belong.
pub proof fn law_cell_views_show_cells(cell: CellDraw)
    ensures
        cell@.col == cell.col,
        cell@.row == cell.row,
        cell@.fg == cell.fg,
        cell@.bg == cell.bg,
        cell.content matches CellContent::Text(s) ==> cell@.shown == Shown::Text(s@),
        cell.content matches CellContent::Glyph(c) ==> cell@.shown == Shown::Glyph(c),
{
}

/// A buffer has its dots, texts and colors where they belong.
pub proof fn law_grids_show_buffers(buffer: BrailleBuffer, i: int)
    ensures
        buffer@.width == buffer.width,
        buffer@.height == buffer.height,
        buffer@.dots == buffer.pixel_buffer@,
        buffer@.fg == buffer.foreground_buffer@,
        buffer@.bg == buffer.background_buffer@,
        buffer@.background == buffer.global_background,
        buffer@.texts.len() == buffer.char_buffer@.len(),
        0 <= i < buffer.char_buffer@.len() ==> (buffer.char_buffer@[i] matches Some(s)
            ==> buffer@.texts[i] == Some(s@)) && (buffer.char_buffer@[i] is None
            ==> buffer@.texts[i] is None),
{
}

/// A blank grid has no pixel lit, no text, no colors, and its size.
pub proof fn law_blank_grids_show_nothing(width: nat, height: nat, background: u8, x: int, y: int)
    requires
        width % 2 == 0,
        height % 4 == 0,
    ensures
        ({
            let g = Grid::blank(width, height, background);
            &&& g.wf()
            &&& g.width == width && g.height == height && g.background == background
            &&& !g.lit(x, y)
            &&& g.color_at(x, y) == 0
            &&& forall|i: int| 0 <= i < g.cells() ==> (#[trigger] g.texts[i]) is None
            &&& forall|i: int| 0 <= i < g.cells() ==> #[trigger] g.fg[i] == 0
            &&& forall|i: int| 0 <= i < g.cells() ==> #[trigger] g.bg[i] == 0
        }),
{
    let g = Grid::blank(width, height, background);
    if g.contains(x, y) {
        lemma_cell_in_range(g, x, y);
        let m = dot_bit(x, y);
        assert(0u8 & m == 0) by (bit_vector);
    }
}

/// Counts go up by one for each byte that is not zero, and for each text.
pub proof fn law_counts_go_up_one_by_one(
    bytes: Seq<u8>,
    byte: u8,
    texts: Seq<Option<Seq<char>>>,
    text: Option<Seq<char>>,
)
    ensures
        nonzero_count(Seq::empty()) == 0,
        byte == 0 ==> nonzero_count(bytes.push(byte)) == nonzero_count(bytes),
        byte != 0 ==> nonzero_count(bytes.push(byte)) == nonzero_count(bytes) + 1,
        text_count(Seq::empty()) == 0,
        text is None ==> text_count(texts.push(text)) == text_count(texts),
        text is Some ==> text_count(texts.push(text)) == text_count(texts) + 1,
{
    assert(bytes.push(byte).drop_last() =~= bytes);
    assert(texts.push(text).drop_last() =~= texts);
}

/// An area is drawn in as far as the buffer and the area both reach.
pub proof fn law_least_is_the_lesser(a: int, b: int)
    ensures
        least(a, b) <= a,
        least(a, b) <= b,
        least(a, b) == a || least(a, b) == b,
{
}

} // verus!
