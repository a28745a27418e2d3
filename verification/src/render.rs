//! The frame compositor. A frame is recomputed from scratch out of the
//! consumed token prefix: the canvas is cleared to opaque black, the prefix
//! is split into lines at newline tokens, lines are anchored to the bottom
//! of the canvas (the last line closest to the bottom padding, earlier
//! lines one line-height higher each), and every character is drawn through
//! a pre-rasterized glyph: per-pixel coverage scales the active color.
//! Glyph pixels outside the canvas are silently clipped.
//!
//! The pen position saturates at a cap far beyond any representable canvas
//! (as does the vertical position of lines far above the top edge), where
//! every glyph pixel is clipped anyway; this keeps all coordinate
//! arithmetic in machine integers for arbitrarily long lines.

use vstd::prelude::*;

use crate::token::BiOSToken;
use crate::token::Rgba;
use crate::token::TokView;
use crate::token::spec_black;
use crate::token::spec_white;
use crate::token::toks_view;

verus! {

/// Largest canvas edge, in pixels.
pub const MAX_DIM: usize = 16384;

/// Largest glyph box edge, offset magnitude and advance, in pixels.
pub const MAX_GLYPH: i32 = 16384;

/// The pen x-coordinate saturates here; every glyph placed at or beyond it
/// lies outside any canvas.
pub const PEN_CAP: i64 = 1073741824;

/// Lines this far above the last one are all placed at the same
/// off-canvas height; they could never reach a visible pixel.
pub const MAX_LINES_ABOVE: usize = 1048576;

/// Coordinate magnitudes stay below this bound throughout composition.
pub const COORD_BOUND: i64 = 34359738368;

/// A fixed-size RGBA pixel buffer, row-major.
pub struct PixelBuffer {
    pub width: usize,
    pub height: usize,
    pub pixels: Vec<Rgba>,
}

/// Static layout configuration of the compositor: canvas size, padding and
/// the vertical font metrics reduced to whole pixels (line height, and the
/// rounded-up magnitude of the descent below the baseline).
#[derive(Clone, Copy)]
pub struct RenderConfig {
    pub width: usize,
    pub height: usize,
    pub padding_x: i32,
    pub padding_y: i32,
    pub line_height: i32,
    pub descent_off: i32,
}

/// One pre-rasterized glyph: a coverage grid of `width * height` samples
/// (0 = transparent, 255 = full), its placement offsets relative to the
/// pen position, and the horizontal advance to the next pen position.
pub struct Glyph {
    pub width: usize,
    pub height: usize,
    pub offset_x: i32,
    pub offset_y: i32,
    pub advance: i32,
    pub coverage: Vec<u8>,
}

/// A glyph for one character.
pub struct GlyphEntry {
    pub ch: char,
    pub glyph: Glyph,
}

/// The font collaborator's output: rasterized glyphs for the characters
/// the token stream may draw. Lookup takes the first entry for a
/// character; characters without an entry draw nothing and do not advance
/// the pen.
pub struct GlyphTable {
    pub entries: Vec<GlyphEntry>,
}

impl PixelBuffer {
    pub open spec fn wf(self) -> bool {
        self.pixels@.len() == self.width * self.height && self.width <= MAX_DIM
            && self.height <= MAX_DIM
    }
}

impl RenderConfig {
    pub open spec fn wf(self) -> bool {
        self.width <= MAX_DIM && self.height <= MAX_DIM && -MAX_GLYPH <= self.padding_x
            <= MAX_GLYPH && -MAX_GLYPH <= self.padding_y <= MAX_GLYPH && 0 <= self.line_height
            <= MAX_GLYPH && -MAX_GLYPH <= self.descent_off <= MAX_GLYPH
    }

    /// Checks the configuration bounds at run time.
    pub fn well_formed(&self) -> (r: bool)
        ensures
            r == self.wf(),
    {
        self.width <= MAX_DIM && self.height <= MAX_DIM && -MAX_GLYPH <= self.padding_x
            && self.padding_x <= MAX_GLYPH && -MAX_GLYPH <= self.padding_y && self.padding_y
            <= MAX_GLYPH && 0 <= self.line_height && self.line_height <= MAX_GLYPH && -MAX_GLYPH
            <= self.descent_off && self.descent_off <= MAX_GLYPH
    }
}

impl Glyph {
    pub open spec fn wf(self) -> bool {
        self.width <= MAX_DIM && self.height <= MAX_DIM && self.coverage@.len() == self.width
            * self.height && -MAX_GLYPH <= self.offset_x <= MAX_GLYPH && -MAX_GLYPH
            <= self.offset_y <= MAX_GLYPH && 0 <= self.advance <= MAX_GLYPH
    }

    /// Checks the glyph bounds at run time.
    pub fn well_formed(&self) -> (r: bool)
        ensures
            r == self.wf(),
    {
        if self.width > MAX_DIM || self.height > MAX_DIM {
            return false;
        }
        proof {
            lemma_grid_index(0, 0, self.width as int, self.height as int);
        }
        self.coverage.len() == self.width * self.height && -MAX_GLYPH <= self.offset_x
            && self.offset_x <= MAX_GLYPH && -MAX_GLYPH <= self.offset_y && self.offset_y
            <= MAX_GLYPH && 0 <= self.advance && self.advance <= MAX_GLYPH
    }
}

pub open spec fn table_wf(entries: Seq<GlyphEntry>) -> bool {
    forall|k: int| 0 <= k < entries.len() ==> (#[trigger] entries[k]).glyph.wf()
}

impl GlyphTable {
    pub open spec fn wf(self) -> bool {
        table_wf(self.entries@)
    }

    /// Checks every glyph's bounds at run time.
    pub fn well_formed(&self) -> (r: bool)
        ensures
            r == self.wf(),
    {
        let mut k: usize = 0;
        while k < self.entries.len()
            invariant
                0 <= k <= self.entries@.len(),
                forall|m: int| 0 <= m < k ==> (#[trigger] self.entries@[m]).glyph.wf(),
            decreases self.entries@.len() - k,
        {
            if !self.entries[k].glyph.well_formed() {
                return false;
            }
            k += 1;
        }
        true
    }
}

/// Row-major grid index bounds: a coordinate pair inside a grid indexes
/// inside the grid's backing array.
pub proof fn lemma_grid_index(px: int, py: int, w: int, h: int)
    by (nonlinear_arith)
    requires
        0 <= px < w || (px == 0 && py == 0),
        0 <= py < h || (px == 0 && py == 0),
        0 <= w <= MAX_DIM,
        0 <= h <= MAX_DIM,
    ensures
        0 <= px < w && 0 <= py < h ==> 0 <= py * w + px < w * h,
        0 <= w * h <= MAX_DIM * MAX_DIM,
{
}

/// The active color scaled by a coverage sample; alpha is forced opaque.
pub open spec fn spec_scale_color(c: Rgba, cov: u8) -> Rgba {
    Rgba {
        r: ((c.r as int * cov as int) / 255) as u8,
        g: ((c.g as int * cov as int) / 255) as u8,
        b: ((c.b as int * cov as int) / 255) as u8,
        a: 255,
    }
}

pub fn scale_color(c: Rgba, cov: u8) -> (r: Rgba)
    ensures
        r == spec_scale_color(c, cov),
{
    proof {
        lemma_scale_channel(c.r as int, cov as int);
        lemma_scale_channel(c.g as int, cov as int);
        lemma_scale_channel(c.b as int, cov as int);
    }
    Rgba {
        r: ((c.r as u32 * cov as u32) / 255) as u8,
        g: ((c.g as u32 * cov as u32) / 255) as u8,
        b: ((c.b as u32 * cov as u32) / 255) as u8,
        a: 255,
    }
}

proof fn lemma_scale_channel(v: int, cov: int)
    by (nonlinear_arith)
    requires
        0 <= v <= 255,
        0 <= cov <= 255,
    ensures
        0 <= v * cov <= 65025,
        0 <= (v * cov) / 255 <= 255,
{
}

/// Writes a pixel if it lies inside the canvas; outside, the write is
/// silently clipped.
pub open spec fn spec_put(buf: Seq<Rgba>, w: int, h: int, px: int, py: int, c: Rgba) -> Seq<
    Rgba,
> {
    if 0 <= px < w && 0 <= py < h {
        buf.update(py * w + px, c)
    } else {
        buf
    }
}

impl PixelBuffer {
    /// A canvas cleared to opaque black.
    pub fn new_black(width: usize, height: usize) -> (r: PixelBuffer)
        requires
            width <= MAX_DIM,
            height <= MAX_DIM,
        ensures
            r.wf(),
            r.width == width,
            r.height == height,
            r.pixels@ == spec_blank(width as int, height as int),
    {
        proof {
            lemma_grid_index(0, 0, width as int, height as int);
        }
        let total = width * height;
        let mut pixels: Vec<Rgba> = Vec::new();
        while pixels.len() < total
            invariant
                pixels@.len() <= total,
                total == width * height,
                forall|k: int| 0 <= k < pixels@.len() ==> pixels@[k] == spec_black(),
            decreases total - pixels@.len(),
        {
            pixels.push(Rgba { r: 0, g: 0, b: 0, a: 255 });
        }
        proof {
            assert(pixels@ =~= spec_blank(width as int, height as int));
        }
        PixelBuffer { width, height, pixels }
    }

    /// An identical copy of this buffer.
    pub fn duplicate(&self) -> (r: PixelBuffer)
        ensures
            r.width == self.width,
            r.height == self.height,
            r.pixels@ == self.pixels@,
    {
        let mut pixels: Vec<Rgba> = Vec::new();
        let mut k: usize = 0;
        while k < self.pixels.len()
            invariant
                0 <= k <= self.pixels@.len(),
                pixels@.len() == k,
                forall|m: int| 0 <= m < k ==> pixels@[m] == self.pixels@[m],
            decreases self.pixels@.len() - k,
        {
            pixels.push(self.pixels[k]);
            k += 1;
        }
        proof {
            assert(pixels@ =~= self.pixels@);
        }
        PixelBuffer { width: self.width, height: self.height, pixels }
    }

    fn set_px(&mut self, px: i64, py: i64, c: Rgba)
        requires
            old(self).wf(),
        ensures
            final(self).wf(),
            final(self).width == old(self).width,
            final(self).height == old(self).height,
            final(self).pixels@ == spec_put(
                old(self).pixels@,
                old(self).width as int,
                old(self).height as int,
                px as int,
                py as int,
                c,
            ),
    {
        if 0 <= px && px < self.width as i64 && 0 <= py && py < self.height as i64 {
            proof {
                lemma_grid_index(px as int, py as int, self.width as int, self.height as int);
            }
            let idx: usize = (py as usize) * self.width + (px as usize);
            self.pixels[idx] = c;
        }
    }
}

/// An all-black canvas of the given size.
pub open spec fn spec_blank(w: int, h: int) -> Seq<Rgba> {
    Seq::new((w * h) as nat, |i: int| spec_black())
}

/// Draws the rest of row `gy` of a glyph, from column `gx` on.
pub open spec fn spec_draw_row(
    buf: Seq<Rgba>,
    w: int,
    h: int,
    g: Glyph,
    color: Rgba,
    x: int,
    y: int,
    gy: int,
    gx: int,
) -> Seq<Rgba>
    decreases g.width - gx,
{
    if gx < 0 || gx >= g.width {
        buf
    } else {
        let c = spec_scale_color(color, g.coverage@[gy * g.width + gx]);
        spec_draw_row(
            spec_put(buf, w, h, x + g.offset_x + gx, y + g.offset_y + gy, c),
            w,
            h,
            g,
            color,
            x,
            y,
            gy,
            gx + 1,
        )
    }
}

/// Draws the rows of a glyph from row `gy` on.
pub open spec fn spec_draw_rows(
    buf: Seq<Rgba>,
    w: int,
    h: int,
    g: Glyph,
    color: Rgba,
    x: int,
    y: int,
    gy: int,
) -> Seq<Rgba>
    decreases g.height - gy,
{
    if gy < 0 || gy >= g.height {
        buf
    } else {
        spec_draw_rows(
            spec_draw_row(buf, w, h, g, color, x, y, gy, 0),
            w,
            h,
            g,
            color,
            x,
            y,
            gy + 1,
        )
    }
}

/// First glyph entry for `c` at or after index `i`.
pub open spec fn spec_lookup(entries: Seq<GlyphEntry>, c: char, i: int) -> Option<Glyph>
    decreases entries.len() - i,
{
    if i < 0 || i >= entries.len() {
        None
    } else if entries[i].ch == c {
        Some(entries[i].glyph)
    } else {
        spec_lookup(entries, c, i + 1)
    }
}

/// The pen advance, saturating far beyond the right edge of any canvas.
pub open spec fn spec_adv(x: int, adv: int) -> int {
    if x + adv > PEN_CAP {
        PEN_CAP as int
    } else {
        x + adv
    }
}

/// Draws one character: its glyph's coverage grid scaled by the active
/// color, then the pen moves by the advance. A character without a glyph
/// entry draws nothing and does not move the pen.
pub open spec fn spec_draw_char(
    buf: Seq<Rgba>,
    w: int,
    h: int,
    entries: Seq<GlyphEntry>,
    c: char,
    color: Rgba,
    x: int,
    y: int,
) -> (Seq<Rgba>, int) {
    match spec_lookup(entries, c, 0) {
        None => (buf, x),
        Some(g) => (
            spec_draw_rows(buf, w, h, g, color, x, y, 0),
            spec_adv(x, g.advance as int),
        ),
    }
}

/// Draws the characters of `s` from index `j` on, left to right.
pub open spec fn spec_draw_text(
    buf: Seq<Rgba>,
    w: int,
    h: int,
    entries: Seq<GlyphEntry>,
    s: Seq<char>,
    j: int,
    color: Rgba,
    x: int,
    y: int,
) -> (Seq<Rgba>, int)
    decreases s.len() - j,
{
    if j < 0 || j >= s.len() {
        (buf, x)
    } else {
        let step = spec_draw_char(buf, w, h, entries, s[j], color, x, y);
        spec_draw_text(step.0, w, h, entries, s, j + 1, color, step.1, y)
    }
}

/// The vertical reference of the last line: bottom of the canvas minus
/// twice the vertical padding minus the rounded-up descent.
pub open spec fn spec_base_y(cfg: RenderConfig) -> int {
    cfg.height - 2 * cfg.padding_y - cfg.descent_off
}

/// The vertical reference of line `line` out of `total`: each earlier line
/// sits one line-height above the one after it. Lines far above the top
/// edge are all placed at one off-canvas height.
pub open spec fn spec_line_y(cfg: RenderConfig, total: int, line: int) -> int {
    let m = total - 1 - line;
    if cfg.line_height > 0 && m > MAX_LINES_ABOVE {
        -(PEN_CAP as int)
    } else {
        spec_base_y(cfg) - m * cfg.line_height
    }
}

/// Newline tokens among the first `k` tokens.
pub open spec fn count_nl(toks: Seq<TokView>, k: int) -> int
    decreases k,
{
    if k <= 0 {
        0
    } else {
        count_nl(toks, k - 1) + if toks[k - 1] is Newline {
            1int
        } else {
            0int
        }
    }
}

pub proof fn lemma_count_nl_monotone(toks: Seq<TokView>, k: int, m: int)
    requires
        0 <= k <= m,
    ensures
        count_nl(toks, k) <= count_nl(toks, m),
        count_nl(toks, m) <= count_nl(toks, k) + (m - k),
    decreases m - k,
{
    if k < m {
        lemma_count_nl_monotone(toks, k, m - 1);
    }
}

/// One pass over the token prefix from index `k` on: characters and
/// instant strings draw at the current pen position, color changes replace
/// the active color, newlines move to the next line, pauses are
/// transparent to layout. Yields the finished pixels and the final active
/// color.
pub open spec fn spec_pass(
    toks: Seq<TokView>,
    k: int,
    buf: Seq<Rgba>,
    color: Rgba,
    x: int,
    line: int,
    total: int,
    entries: Seq<GlyphEntry>,
    cfg: RenderConfig,
) -> (Seq<Rgba>, Rgba)
    decreases toks.len() - k,
{
    if k < 0 || k >= toks.len() {
        (buf, color)
    } else {
        let y = spec_line_y(cfg, total, line);
        match toks[k] {
            TokView::Char(c) => {
                let step = spec_draw_char(
                    buf,
                    cfg.width as int,
                    cfg.height as int,
                    entries,
                    c,
                    color,
                    x,
                    y,
                );
                spec_pass(toks, k + 1, step.0, color, step.1, line, total, entries, cfg)
            },
            TokView::Instant(s) => {
                let step = spec_draw_text(
                    buf,
                    cfg.width as int,
                    cfg.height as int,
                    entries,
                    s,
                    0,
                    color,
                    x,
                    y,
                );
                spec_pass(toks, k + 1, step.0, color, step.1, line, total, entries, cfg)
            },
            TokView::ColorStart(c) => spec_pass(toks, k + 1, buf, c, x, line, total, entries, cfg),
            TokView::Pause(_) => spec_pass(toks, k + 1, buf, color, x, line, total, entries, cfg),
            TokView::Newline => spec_pass(
                toks,
                k + 1,
                buf,
                color,
                cfg.padding_x as int,
                line + 1,
                total,
                entries,
                cfg,
            ),
        }
    }
}

/// A full frame from a token prefix: black canvas, opaque white start
/// color, pen at the left padding of the bottom-anchored first line.
pub open spec fn spec_render(toks: Seq<TokView>, entries: Seq<GlyphEntry>, cfg: RenderConfig) -> (
    Seq<Rgba>,
    Rgba,
) {
    let total = count_nl(toks, toks.len() as int) + 1;
    spec_pass(
        toks,
        0,
        spec_blank(cfg.width as int, cfg.height as int),
        spec_white(),
        cfg.padding_x as int,
        0,
        total,
        entries,
        cfg,
    )
}

/// The compositor is a function of the token prefix, the glyph table and
/// the static configuration alone: two renders of the same inputs are
/// pixel-identical.
pub proof fn lemma_compositor_deterministic(
    toks: Seq<TokView>,
    entries: Seq<GlyphEntry>,
    cfg: RenderConfig,
    r1: (Seq<Rgba>, Rgba),
    r2: (Seq<Rgba>, Rgba),
)
    requires
        r1 == spec_render(toks, entries, cfg),
        r2 == spec_render(toks, entries, cfg),
    ensures
        r1 == r2,
{
}

proof fn lemma_lookup_wf(entries: Seq<GlyphEntry>, c: char, i: int)
    requires
        table_wf(entries),
    ensures
        spec_lookup(entries, c, i) matches Some(g) ==> g.wf(),
    decreases entries.len() - i,
{
    if 0 <= i < entries.len() && entries[i].ch != c {
        lemma_lookup_wf(entries, c, i + 1);
    }
}

fn lookup_glyph<'a>(table: &'a GlyphTable, c: char) -> (r: Option<&'a Glyph>)
    ensures
        match r {
            Some(g) => spec_lookup(table.entries@, c, 0) == Some(*g),
            None => spec_lookup(table.entries@, c, 0) is None,
        },
{
    let mut k: usize = 0;
    while k < table.entries.len()
        invariant
            0 <= k <= table.entries@.len(),
            spec_lookup(table.entries@, c, 0) == spec_lookup(table.entries@, c, k as int),
        decreases table.entries@.len() - k,
    {
        if table.entries[k].ch == c {
            return Some(&table.entries[k].glyph);
        }
        k += 1;
    }
    None
}

fn draw_glyph(buf: &mut PixelBuffer, g: &Glyph, color: Rgba, x: i64, y: i64)
    requires
        old(buf).wf(),
        g.wf(),
        -COORD_BOUND <= x <= COORD_BOUND,
        -COORD_BOUND <= y <= COORD_BOUND,
    ensures
        final(buf).wf(),
        final(buf).width == old(buf).width,
        final(buf).height == old(buf).height,
        final(buf).pixels@ == spec_draw_rows(
            old(buf).pixels@,
            old(buf).width as int,
            old(buf).height as int,
            *g,
            color,
            x as int,
            y as int,
            0,
        ),
{
    let ghost w = buf.width as int;
    let ghost h = buf.height as int;
    let ghost orig = buf.pixels@;
    let mut gy: usize = 0;
    while gy < g.height
        invariant
            buf.wf(),
            buf.width as int == w,
            buf.height as int == h,
            g.wf(),
            -COORD_BOUND <= x <= COORD_BOUND,
            -COORD_BOUND <= y <= COORD_BOUND,
            0 <= gy <= g.height,
            spec_draw_rows(orig, w, h, *g, color, x as int, y as int, 0) == spec_draw_rows(
                buf.pixels@,
                w,
                h,
                *g,
                color,
                x as int,
                y as int,
                gy as int,
            ),
        decreases g.height - gy,
    {
        let ghost row_start = buf.pixels@;
        let mut gx: usize = 0;
        while gx < g.width
            invariant
                buf.wf(),
                buf.width as int == w,
                buf.height as int == h,
                g.wf(),
                -COORD_BOUND <= x <= COORD_BOUND,
                -COORD_BOUND <= y <= COORD_BOUND,
                0 <= gy < g.height,
                0 <= gx <= g.width,
                spec_draw_row(row_start, w, h, *g, color, x as int, y as int, gy as int, 0)
                    == spec_draw_row(
                    buf.pixels@,
                    w,
                    h,
                    *g,
                    color,
                    x as int,
                    y as int,
                    gy as int,
                    gx as int,
                ),
            decreases g.width - gx,
        {
            proof {
                lemma_grid_index(gx as int, gy as int, g.width as int, g.height as int);
            }
            let cov = g.coverage[gy * g.width + gx];
            let px = x + g.offset_x as i64 + gx as i64;
            let py = y + g.offset_y as i64 + gy as i64;
            buf.set_px(px, py, scale_color(color, cov));
            gx += 1;
        }
        proof {
            assert(spec_draw_row(row_start, w, h, *g, color, x as int, y as int, gy as int, 0)
                == buf.pixels@);
            assert(spec_draw_rows(row_start, w, h, *g, color, x as int, y as int, gy as int)
                == spec_draw_rows(buf.pixels@, w, h, *g, color, x as int, y as int, gy + 1));
        }
        gy += 1;
    }
}

fn draw_char(
    buf: &mut PixelBuffer,
    table: &GlyphTable,
    c: char,
    color: Rgba,
    x: i64,
    y: i64,
) -> (nx: i64)
    requires
        old(buf).wf(),
        table.wf(),
        -MAX_GLYPH as i64 <= x <= PEN_CAP,
        -COORD_BOUND <= y <= COORD_BOUND,
    ensures
        final(buf).wf(),
        final(buf).width == old(buf).width,
        final(buf).height == old(buf).height,
        ({
            let step = spec_draw_char(
                old(buf).pixels@,
                old(buf).width as int,
                old(buf).height as int,
                table.entries@,
                c,
                color,
                x as int,
                y as int,
            );
            final(buf).pixels@ == step.0 && nx as int == step.1
        }),
        -MAX_GLYPH as i64 <= nx <= PEN_CAP,
{
    proof {
        lemma_lookup_wf(table.entries@, c, 0);
    }
    match lookup_glyph(table, c) {
        None => x,
        Some(g) => {
            draw_glyph(buf, g, color, x, y);
            let moved = x + g.advance as i64;
            if moved > PEN_CAP {
                PEN_CAP
            } else {
                moved
            }
        },
    }
}

fn draw_text(
    buf: &mut PixelBuffer,
    table: &GlyphTable,
    s: &str,
    color: Rgba,
    x: i64,
    y: i64,
) -> (nx: i64)
    requires
        old(buf).wf(),
        table.wf(),
        -MAX_GLYPH as i64 <= x <= PEN_CAP,
        -COORD_BOUND <= y <= COORD_BOUND,
    ensures
        final(buf).wf(),
        final(buf).width == old(buf).width,
        final(buf).height == old(buf).height,
        ({
            let step = spec_draw_text(
                old(buf).pixels@,
                old(buf).width as int,
                old(buf).height as int,
                table.entries@,
                s@,
                0,
                color,
                x as int,
                y as int,
            );
            final(buf).pixels@ == step.0 && nx as int == step.1
        }),
        -MAX_GLYPH as i64 <= nx <= PEN_CAP,
{
    let ghost w = buf.width as int;
    let ghost h = buf.height as int;
    let ghost orig = buf.pixels@;
    let ghost x0 = x as int;
    let n = s.unicode_len();
    let mut j: usize = 0;
    let mut cx: i64 = x;
    while j < n
        invariant
            buf.wf(),
            buf.width as int == w,
            buf.height as int == h,
            table.wf(),
            n == s@.len(),
            0 <= j <= n,
            -MAX_GLYPH as i64 <= cx <= PEN_CAP,
            -COORD_BOUND <= y <= COORD_BOUND,
            spec_draw_text(orig, w, h, table.entries@, s@, 0, color, x0, y as int)
                == spec_draw_text(
                buf.pixels@,
                w,
                h,
                table.entries@,
                s@,
                j as int,
                color,
                cx as int,
                y as int,
            ),
        decreases n - j,
    {
        let c = s.get_char(j);
        cx = draw_char(buf, table, c, color, cx, y);
        j += 1;
    }
    cx
}

fn line_y(cfg: &RenderConfig, total_minus: usize, line: usize) -> (r: i64)
    requires
        cfg.wf(),
        line <= total_minus,
    ensures
        r as int == spec_line_y(*cfg, total_minus + 1, line as int),
        -COORD_BOUND <= r <= COORD_BOUND,
{
    let base: i64 = cfg.height as i64 - 2 * (cfg.padding_y as i64) - (cfg.descent_off as i64);
    let m = total_minus - line;
    if cfg.line_height == 0 {
        base
    } else if m > MAX_LINES_ABOVE {
        -PEN_CAP
    } else {
        proof {
            assert((m as int) * (cfg.line_height as int) <= 1048576 * 16384) by (nonlinear_arith)
                requires
                    0 <= m <= 1048576,
                    0 <= cfg.line_height <= 16384,
            ;
            assert((m as int) * (cfg.line_height as int) >= 0) by (nonlinear_arith)
                requires
                    0 <= m,
                    0 <= cfg.line_height,
            ;
        }
        base - (m as i64) * (cfg.line_height as i64)
    }
}

/// Composes the frame of the token prefix `tokens[..upto]` (clipped to the
/// token count): the pixels and the color left active after replaying the
/// prefix's color changes.
pub fn compose_frame(
    tokens: &Vec<BiOSToken>,
    upto: usize,
    table: &GlyphTable,
    cfg: &RenderConfig,
) -> (r: (PixelBuffer, Rgba))
    requires
        cfg.wf(),
        table.wf(),
    ensures
        r.0.wf(),
        r.0.width == cfg.width,
        r.0.height == cfg.height,
        ({
            let prefix = toks_view(tokens@).take(
                if upto <= tokens@.len() {
                    upto as int
                } else {
                    tokens@.len() as int
                },
            );
            let out = spec_render(prefix, table.entries@, *cfg);
            r.0.pixels@ == out.0 && r.1 == out.1
        }),
{
    let end = if upto <= tokens.len() {
        upto
    } else {
        tokens.len()
    };
    let ghost prefix = toks_view(tokens@).take(end as int);
    let mut nl: usize = 0;
    let mut k: usize = 0;
    while k < end
        invariant
            end <= tokens@.len(),
            prefix == toks_view(tokens@).take(end as int),
            0 <= k <= end,
            nl == count_nl(prefix, k as int),
            nl <= k,
        decreases end - k,
    {
        proof {
            assert(prefix[k as int] == tokens@[k as int]@);
        }
        if let BiOSToken::Newline = &tokens[k] {
            nl += 1;
        }
        k += 1;
    }
    let ghost total = count_nl(prefix, prefix.len() as int) + 1;
    proof {
        assert(prefix.len() == end as int);
    }
    let mut buf = PixelBuffer::new_black(cfg.width, cfg.height);
    let mut color = Rgba { r: 255, g: 255, b: 255, a: 255 };
    let mut x: i64 = cfg.padding_x as i64;
    let mut line: usize = 0;
    let mut y: i64 = line_y(cfg, nl, 0);
    let ghost blank0 = buf.pixels@;
    let mut t: usize = 0;
    while t < end
        invariant
            end <= tokens@.len(),
            prefix == toks_view(tokens@).take(end as int),
            prefix.len() == end as int,
            total == count_nl(prefix, end as int) + 1,
            nl == count_nl(prefix, end as int),
            cfg.wf(),
            table.wf(),
            buf.wf(),
            buf.width == cfg.width,
            buf.height == cfg.height,
            0 <= t <= end,
            line == count_nl(prefix, t as int),
            line <= nl,
            -MAX_GLYPH as i64 <= x <= PEN_CAP,
            -COORD_BOUND <= y <= COORD_BOUND,
            y as int == spec_line_y(*cfg, total, line as int),
            spec_pass(
                prefix,
                0,
                blank0,
                spec_white(),
                cfg.padding_x as int,
                0,
                total,
                table.entries@,
                *cfg,
            ) == spec_pass(
                prefix,
                t as int,
                buf.pixels@,
                color,
                x as int,
                line as int,
                total,
                table.entries@,
                *cfg,
            ),
        decreases end - t,
    {
        proof {
            assert(prefix[t as int] == tokens@[t as int]@);
            lemma_count_nl_monotone(prefix, t + 1, end as int);
        }
        match &tokens[t] {
            BiOSToken::Char(c) => {
                x = draw_char(&mut buf, table, *c, color, x, y);
            },
            BiOSToken::Instant(st) => {
                x = draw_text(&mut buf, table, st.as_str(), color, x, y);
            },
            BiOSToken::ColorStart(col) => {
                color = *col;
            },
            BiOSToken::Pause(_) => {},
            BiOSToken::Newline => {
                line += 1;
                x = cfg.padding_x as i64;
                y = line_y(cfg, nl, line);
            },
        }
        t += 1;
    }
    (buf, color)
}

/// Two buffers stand in the bottom-anchor shift relation when every pixel
/// of the first equals the pixel one line-height below it in the second.
pub open spec fn shifted(bn: Seq<Rgba>, bo: Seq<Rgba>, w: int, h: int, lh: int) -> bool {
    forall|px: int, py: int|
        0 <= px < w && 0 <= py && py + lh < h ==> #[trigger] bn[py * w + px] == bo[(py + lh) * w
            + px]
}

/// Distinct in-grid coordinates index distinct cells.
proof fn lemma_grid_inj(ax: int, ay: int, bx: int, by: int, w: int)
    by (nonlinear_arith)
    requires
        0 <= ax < w,
        0 <= bx < w,
    ensures
        ay * w + ax == by * w + bx <==> (ax == bx && ay == by),
{
}

/// A clipped write one line-height higher in the first buffer preserves
/// the shift relation against the same write in the second.
proof fn lemma_put_shift(
    bn: Seq<Rgba>,
    bo: Seq<Rgba>,
    w: int,
    h: int,
    lh: int,
    qx: int,
    qy: int,
    c: Rgba,
)
    requires
        0 <= w <= MAX_DIM,
        0 <= h <= MAX_DIM,
        0 <= lh,
        bn.len() == w * h,
        bo.len() == w * h,
        shifted(bn, bo, w, h, lh),
    ensures
        shifted(spec_put(bn, w, h, qx, qy - lh, c), spec_put(bo, w, h, qx, qy, c), w, h, lh),
{
    let nn = spec_put(bn, w, h, qx, qy - lh, c);
    let no = spec_put(bo, w, h, qx, qy, c);
    assert forall|px: int, py: int|
        0 <= px < w && 0 <= py && py + lh < h implies #[trigger] nn[py * w + px] == no[(py + lh)
        * w + px] by {
        lemma_grid_index(px, py, w, h);
        lemma_grid_index(px, py + lh, w, h);
        assert(bn[py * w + px] == bo[(py + lh) * w + px]);
        if 0 <= qx < w && 0 <= qy - lh < h {
            lemma_grid_index(qx, qy - lh, w, h);
            lemma_grid_inj(qx, qy - lh, px, py, w);
            if qx == px && qy - lh == py {
                lemma_grid_index(qx, qy, w, h);
                lemma_grid_inj(qx, qy, px, py + lh, w);
            } else {
                if 0 <= qy < h {
                    lemma_grid_index(qx, qy, w, h);
                    lemma_grid_inj(qx, qy, px, py + lh, w);
                }
            }
        } else {
            if 0 <= qx < w && 0 <= qy < h {
                lemma_grid_index(qx, qy, w, h);
                lemma_grid_inj(qx, qy, px, py + lh, w);
                assert(!(qx == px && qy == py + lh));
            }
        }
    }
}

proof fn lemma_put_len(buf: Seq<Rgba>, w: int, h: int, px: int, py: int, c: Rgba)
    requires
        buf.len() == w * h,
        0 <= w <= MAX_DIM,
        0 <= h <= MAX_DIM,
    ensures
        spec_put(buf, w, h, px, py, c).len() == w * h,
{
    if 0 <= px < w && 0 <= py < h {
        lemma_grid_index(px, py, w, h);
    }
}

proof fn lemma_row_shift(
    bn: Seq<Rgba>,
    bo: Seq<Rgba>,
    w: int,
    h: int,
    lh: int,
    g: Glyph,
    color: Rgba,
    x: int,
    y: int,
    gy: int,
    gx: int,
)
    requires
        0 <= w <= MAX_DIM,
        0 <= h <= MAX_DIM,
        0 <= lh,
        bn.len() == w * h,
        bo.len() == w * h,
        shifted(bn, bo, w, h, lh),
    ensures
        ({
            let rn = spec_draw_row(bn, w, h, g, color, x, y - lh, gy, gx);
            let ro = spec_draw_row(bo, w, h, g, color, x, y, gy, gx);
            shifted(rn, ro, w, h, lh) && rn.len() == w * h && ro.len() == w * h
        }),
    decreases g.width - gx,
{
    if gx < 0 || gx >= g.width {
    } else {
        let c = spec_scale_color(color, g.coverage@[gy * g.width + gx]);
        let qx = x + g.offset_x + gx;
        let qy = y + g.offset_y + gy;
        lemma_put_shift(bn, bo, w, h, lh, qx, qy, c);
        lemma_put_len(bn, w, h, qx, qy - lh, c);
        lemma_put_len(bo, w, h, qx, qy, c);
        assert(y - lh + g.offset_y + gy == qy - lh);
        lemma_row_shift(
            spec_put(bn, w, h, qx, qy - lh, c),
            spec_put(bo, w, h, qx, qy, c),
            w,
            h,
            lh,
            g,
            color,
            x,
            y,
            gy,
            gx + 1,
        );
    }
}

proof fn lemma_rows_shift(
    bn: Seq<Rgba>,
    bo: Seq<Rgba>,
    w: int,
    h: int,
    lh: int,
    g: Glyph,
    color: Rgba,
    x: int,
    y: int,
    gy: int,
)
    requires
        0 <= w <= MAX_DIM,
        0 <= h <= MAX_DIM,
        0 <= lh,
        bn.len() == w * h,
        bo.len() == w * h,
        shifted(bn, bo, w, h, lh),
    ensures
        ({
            let rn = spec_draw_rows(bn, w, h, g, color, x, y - lh, gy);
            let ro = spec_draw_rows(bo, w, h, g, color, x, y, gy);
            shifted(rn, ro, w, h, lh) && rn.len() == w * h && ro.len() == w * h
        }),
    decreases g.height - gy,
{
    if gy < 0 || gy >= g.height {
    } else {
        lemma_row_shift(bn, bo, w, h, lh, g, color, x, y, gy, 0);
        lemma_rows_shift(
            spec_draw_row(bn, w, h, g, color, x, y - lh, gy, 0),
            spec_draw_row(bo, w, h, g, color, x, y, gy, 0),
            w,
            h,
            lh,
            g,
            color,
            x,
            y,
            gy + 1,
        );
    }
}

proof fn lemma_char_shift(
    bn: Seq<Rgba>,
    bo: Seq<Rgba>,
    w: int,
    h: int,
    lh: int,
    entries: Seq<GlyphEntry>,
    c: char,
    color: Rgba,
    x: int,
    y: int,
)
    requires
        0 <= w <= MAX_DIM,
        0 <= h <= MAX_DIM,
        0 <= lh,
        bn.len() == w * h,
        bo.len() == w * h,
        shifted(bn, bo, w, h, lh),
    ensures
        ({
            let sn = spec_draw_char(bn, w, h, entries, c, color, x, y - lh);
            let so = spec_draw_char(bo, w, h, entries, c, color, x, y);
            shifted(sn.0, so.0, w, h, lh) && sn.1 == so.1 && sn.0.len() == w * h && so.0.len()
                == w * h
        }),
{
    match spec_lookup(entries, c, 0) {
        None => {},
        Some(g) => {
            lemma_rows_shift(bn, bo, w, h, lh, g, color, x, y, 0);
        },
    }
}

proof fn lemma_text_shift(
    bn: Seq<Rgba>,
    bo: Seq<Rgba>,
    w: int,
    h: int,
    lh: int,
    entries: Seq<GlyphEntry>,
    s: Seq<char>,
    j: int,
    color: Rgba,
    x: int,
    y: int,
)
    requires
        0 <= w <= MAX_DIM,
        0 <= h <= MAX_DIM,
        0 <= lh,
        bn.len() == w * h,
        bo.len() == w * h,
        shifted(bn, bo, w, h, lh),
    ensures
        ({
            let sn = spec_draw_text(bn, w, h, entries, s, j, color, x, y - lh);
            let so = spec_draw_text(bo, w, h, entries, s, j, color, x, y);
            shifted(sn.0, so.0, w, h, lh) && sn.1 == so.1 && sn.0.len() == w * h && so.0.len()
                == w * h
        }),
    decreases s.len() - j,
{
    if j < 0 || j >= s.len() {
    } else {
        lemma_char_shift(bn, bo, w, h, lh, entries, s[j], color, x, y);
        let sn = spec_draw_char(bn, w, h, entries, s[j], color, x, y - lh);
        let so = spec_draw_char(bo, w, h, entries, s[j], color, x, y);
        lemma_text_shift(sn.0, so.0, w, h, lh, entries, s, j + 1, color, so.1, y);
    }
}

/// Newline tokens among the first `k` of a sequence with one more pushed
/// at the end: the same count.
proof fn lemma_count_nl_push(toks: Seq<TokView>, t: TokView, k: int)
    requires
        0 <= k <= toks.len(),
    ensures
        count_nl(toks.push(t), k) == count_nl(toks, k),
    decreases k,
{
    if k > 0 {
        lemma_count_nl_push(toks, t, k - 1);
    }
}

/// Running the pass over the same tokens with one trailing newline added
/// and a line count one higher keeps every buffer one line-height shifted
/// and replays the same colors.
proof fn lemma_pass_one_more_line(
    toks: Seq<TokView>,
    k: int,
    bn: Seq<Rgba>,
    bo: Seq<Rgba>,
    color: Rgba,
    x: int,
    line: int,
    total_o: int,
    entries: Seq<GlyphEntry>,
    cfg: RenderConfig,
)
    requires
        cfg.wf(),
        0 <= k <= toks.len(),
        0 <= line,
        bn.len() == cfg.width * cfg.height,
        bo.len() == cfg.width * cfg.height,
        shifted(bn, bo, cfg.width as int, cfg.height as int, cfg.line_height as int),
        1 <= total_o <= MAX_LINES_ABOVE,
        line + count_nl(toks, toks.len() as int) - count_nl(toks, k) <= total_o - 1,
    ensures
        ({
            let pn = spec_pass(
                toks.push(TokView::Newline),
                k,
                bn,
                color,
                x,
                line,
                total_o + 1,
                entries,
                cfg,
            );
            let po = spec_pass(toks, k, bo, color, x, line, total_o, entries, cfg);
            shifted(pn.0, po.0, cfg.width as int, cfg.height as int, cfg.line_height as int)
                && pn.1 == po.1
        }),
    decreases toks.len() + 1 - k,
{
    let w = cfg.width as int;
    let h = cfg.height as int;
    let lh = cfg.line_height as int;
    let tn = toks.push(TokView::Newline);
    let yo = spec_line_y(cfg, total_o, line);
    let yn = spec_line_y(cfg, total_o + 1, line);
    let mo = total_o - 1 - line;
    assert((mo + 1) * lh == mo * lh + lh) by (nonlinear_arith);
    assert(yn == yo - lh);
    if k >= toks.len() {
        assert(k == toks.len());
        assert(k < tn.len());
        assert(tn[k] is Newline);
        let pn = spec_pass(tn, k, bn, color, x, line, total_o + 1, entries, cfg);
        assert(pn == spec_pass(
            tn,
            k + 1,
            bn,
            color,
            cfg.padding_x as int,
            line + 1,
            total_o + 1,
            entries,
            cfg,
        ));
        assert(pn == (bn, color));
        assert(spec_pass(toks, k, bo, color, x, line, total_o, entries, cfg) == (bo, color));
    } else {
        assert(tn[k] == toks[k]);
        assert(count_nl(toks, k + 1) == count_nl(toks, k) + if toks[k] is Newline {
            1int
        } else {
            0int
        });
        match toks[k] {
            TokView::Char(c) => {
                lemma_char_shift(bn, bo, w, h, lh, entries, c, color, x, yo);
                let sn = spec_draw_char(bn, w, h, entries, c, color, x, yn);
                let so = spec_draw_char(bo, w, h, entries, c, color, x, yo);
                lemma_pass_one_more_line(
                    toks,
                    k + 1,
                    sn.0,
                    so.0,
                    color,
                    so.1,
                    line,
                    total_o,
                    entries,
                    cfg,
                );
            },
            TokView::Instant(s) => {
                lemma_text_shift(bn, bo, w, h, lh, entries, s, 0, color, x, yo);
                let sn = spec_draw_text(bn, w, h, entries, s, 0, color, x, yn);
                let so = spec_draw_text(bo, w, h, entries, s, 0, color, x, yo);
                lemma_pass_one_more_line(
                    toks,
                    k + 1,
                    sn.0,
                    so.0,
                    color,
                    so.1,
                    line,
                    total_o,
                    entries,
                    cfg,
                );
            },
            TokView::ColorStart(c) => {
                lemma_pass_one_more_line(
                    toks,
                    k + 1,
                    bn,
                    bo,
                    c,
                    x,
                    line,
                    total_o,
                    entries,
                    cfg,
                );
            },
            TokView::Pause(_) => {
                lemma_pass_one_more_line(
                    toks,
                    k + 1,
                    bn,
                    bo,
                    color,
                    x,
                    line,
                    total_o,
                    entries,
                    cfg,
                );
            },
            TokView::Newline => {
                lemma_pass_one_more_line(
                    toks,
                    k + 1,
                    bn,
                    bo,
                    color,
                    cfg.padding_x as int,
                    line + 1,
                    total_o,
                    entries,
                    cfg,
                );
            },
        }
    }
}

/// Bottom-anchoring: completing one more (empty) line and re-rendering
/// shifts every previously rendered pixel upward by exactly one
/// line-height; horizontal content and the replayed color are untouched.
/// Stated for prefixes whose line count stays within the compositor's
/// off-canvas clamp.
pub proof fn lemma_bottom_anchor(toks: Seq<TokView>, entries: Seq<GlyphEntry>, cfg: RenderConfig)
    requires
        cfg.wf(),
        count_nl(toks, toks.len() as int) + 1 <= MAX_LINES_ABOVE,
    ensures
        ({
            let o = spec_render(toks, entries, cfg).0;
            let n = spec_render(toks.push(TokView::Newline), entries, cfg).0;
            forall|px: int, py: int|
                0 <= px < cfg.width && 0 <= py && py + cfg.line_height < cfg.height
                    ==> #[trigger] n[py * cfg.width + px] == o[(py + cfg.line_height) * cfg.width
                    + px]
        }),
        spec_render(toks.push(TokView::Newline), entries, cfg).1 == spec_render(
            toks,
            entries,
            cfg,
        ).1,
{
    let w = cfg.width as int;
    let h = cfg.height as int;
    let lh = cfg.line_height as int;
    let tn = toks.push(TokView::Newline);
    let total_o = count_nl(toks, toks.len() as int) + 1;
    lemma_count_nl_push(toks, TokView::Newline, toks.len() as int);
    assert(count_nl(tn, tn.len() as int) == count_nl(tn, toks.len() as int) + 1);
    assert(count_nl(tn, tn.len() as int) + 1 == total_o + 1);
    lemma_count_nl_monotone(toks, 0, toks.len() as int);
    let blank = spec_blank(w, h);
    lemma_grid_index(0, 0, w, h);
    assert forall|px: int, py: int|
        0 <= px < w && 0 <= py && py + lh < h implies #[trigger] blank[py * w + px] == blank[(py
        + lh) * w + px] by {
        lemma_grid_index(px, py, w, h);
        lemma_grid_index(px, py + lh, w, h);
    }
    lemma_pass_one_more_line(
        toks,
        0,
        blank,
        blank,
        spec_white(),
        cfg.padding_x as int,
        0,
        total_o,
        entries,
        cfg,
    );
}

} // verus!
