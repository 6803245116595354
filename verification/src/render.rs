//! Drawing a laid-out graph on a character canvas and emitting it as text,
//! with optional ANSI colors.
//!
//! Canvas coordinates are sums of node positions and sizes; they are added
//! with saturating arithmetic, and a write outside the canvas is dropped.
use vstd::prelude::*;
use vstd::string::*;
use crate::graph::{ArrowTip, Direction, Edge, EdgeStyle, Graph, Node, NodeId, Shape, SubgraphId, dominant, vertical, in_chain};
use crate::style::{Color, Style, empty_style, style_code};
use crate::text::{char_count, chars_of_string, push_char, string_of};
use crate::layout::{box_width, box_height, label_width, same_except_dims, fresh_dummy};

verus! {

/// What occupies a canvas cell; the theme styles each kind.
#[derive(Debug, Clone, Copy, PartialEq, Eq, Structural)]
pub enum CellKind {
    Empty,
    Border,
    Label,
    Edge,
    Arrow,
    Crossing,
}

/// One style per kind of cell.
#[derive(Debug, Clone, Copy)]
pub struct Theme {
    pub border: Style,
    pub label: Style,
    pub edge: Style,
    pub arrow: Style,
    pub crossing: Style,
}

/// The style the theme gives to a cell of kind `kind`.
pub open spec fn theme_style(t: Theme, kind: CellKind) -> Style {
    match kind {
        CellKind::Empty => empty_style(),
        CellKind::Border => t.border,
        CellKind::Label => t.label,
        CellKind::Edge => t.edge,
        CellKind::Arrow => t.arrow,
        CellKind::Crossing => t.crossing,
    }
}

/// Every style of the theme is empty.
pub open spec fn plain_theme(t: Theme) -> bool {
    &&& t.border == empty_style()
    &&& t.label == empty_style()
    &&& t.edge == empty_style()
    &&& t.arrow == empty_style()
    &&& t.crossing == empty_style()
}

/// The style with only a foreground color.
pub open spec fn fg_style(c: Color) -> Style {
    Style { fg: Some(c), ..empty_style() }
}

impl Theme {
    /// No colors at all.
    pub fn plain() -> (t: Self)
        ensures
            plain_theme(t),
    {
        Theme {
            border: Style::new(),
            label: Style::new(),
            edge: Style::new(),
            arrow: Style::new(),
            crossing: Style::new(),
        }
    }

    /// Grey lines and borders, labels in the terminal's own color.
    pub fn grey() -> (t: Self)
        ensures
            t.border == fg_style(Color::Sgr(90)),
            t.label == empty_style(),
            t.edge == fg_style(Color::Sgr(90)),
            t.arrow == fg_style(Color::Sgr(90)),
            t.crossing == fg_style(Color::Sgr(90)),
    {
        let g = Style::fg(Color::grey());
        Theme { border: g, label: Style::new(), edge: g, arrow: g, crossing: g }
    }

    /// Grey lines, bright white arrows, bright yellow crossings.
    pub fn mono() -> (t: Self)
        ensures
            t.border == fg_style(Color::Sgr(90)),
            t.label == empty_style(),
            t.edge == fg_style(Color::Sgr(90)),
            t.arrow == fg_style(Color::Sgr(97)),
            t.crossing == fg_style(Color::Sgr(93)),
    {
        Theme {
            border: Style::fg(Color::grey()),
            label: Style::new(),
            edge: Style::fg(Color::grey()),
            arrow: Style::fg(Color::bright_white()),
            crossing: Style::fg(Color::bright_yellow()),
        }
    }

    /// Violet borders, muted green lines, white labels, pink crossings.
    pub fn neon() -> (t: Self)
        ensures
            t.border == fg_style(Color::Rgb(188, 19, 254)),
            t.label == fg_style(Color::Rgb(255, 255, 255)),
            t.edge == fg_style(Color::Rgb(110, 190, 130)),
            t.arrow == fg_style(Color::Rgb(110, 190, 130)),
            t.crossing == fg_style(Color::Rgb(255, 20, 147)),
    {
        Theme {
            border: Style::fg(Color::violet()),
            label: Style::fg(Color::white()),
            edge: Style::fg(Color::neon_green()),
            arrow: Style::fg(Color::neon_green()),
            crossing: Style::fg(Color::hot_pink()),
        }
    }

    /// Everything dimmed.
    pub fn dim() -> (t: Self)
        ensures
            t.border == (Style { dim: true, ..empty_style() }),
            t.label == (Style { dim: true, ..empty_style() }),
            t.edge == (Style { dim: true, ..empty_style() }),
            t.arrow == (Style { dim: true, ..empty_style() }),
            t.crossing == (Style { dim: true, ..empty_style() }),
    {
        Theme {
            border: Style::dim(),
            label: Style::dim(),
            edge: Style::dim(),
            arrow: Style::dim(),
            crossing: Style::dim(),
        }
    }

    fn style_for(&self, kind: CellKind) -> (s: Style)
        ensures
            s == theme_style(*self, kind),
    {
        match kind {
            CellKind::Empty => Style::new(),
            CellKind::Border => self.border,
            CellKind::Label => self.label,
            CellKind::Edge => self.edge,
            CellKind::Arrow => self.arrow,
            CellKind::Crossing => self.crossing,
        }
    }

    fn is_plain(&self) -> (r: bool)
        ensures
            r == plain_theme(*self),
    {
        self.border.is_empty() && self.label.is_empty() && self.edge.is_empty()
            && self.arrow.is_empty() && self.crossing.is_empty()
    }
}

// ---------------------------------------------------------------------------
// Line art. Each cell records which of its sides a line leaves by; the glyph
// follows from those sides and the edge style.
pub const UP: u8 = 1;

pub const DOWN: u8 = 2;

pub const LEFT: u8 = 4;

pub const RIGHT: u8 = 8;

/// The (normal, thick, dotted) glyphs for a set of sides.
pub open spec fn glyphs(k: u8) -> (char, char, char) {
    if k == 3 {
        ('│', '┃', '┊')
    } else if k == 12 {
        ('─', '━', '┄')
    } else if k == 9 {
        ('╰', '┗', '╰')
    } else if k == 5 {
        ('╯', '┛', '╯')
    } else if k == 10 {
        ('╭', '┏', '╭')
    } else if k == 6 {
        ('╮', '┓', '╮')
    } else if k == 13 {
        ('┴', '┻', '┴')
    } else if k == 14 {
        ('┬', '┳', '┬')
    } else if k == 11 {
        ('├', '┣', '├')
    } else if k == 7 {
        ('┤', '┫', '┤')
    } else if k == 15 {
        ('┼', '╋', '┼')
    } else {
        (' ', ' ', ' ')
    }
}

/// The glyph for the low four bits of `sides`, in `style`.
pub open spec fn glyph(sides: u8, style: EdgeStyle) -> char {
    let t = glyphs(sides % 16);
    match style {
        EdgeStyle::Thick => t.1,
        EdgeStyle::Dotted => t.2,
        _ => t.0,
    }
}

fn lineart(sides: u8, style: EdgeStyle) -> (c: char)
    ensures
        c == glyph(sides, style),
{
    let k = sides % 16;
    let t = if k == 3 {
        ('│', '┃', '┊')
    } else if k == 12 {
        ('─', '━', '┄')
    } else if k == 9 {
        ('╰', '┗', '╰')
    } else if k == 5 {
        ('╯', '┛', '╯')
    } else if k == 10 {
        ('╭', '┏', '╭')
    } else if k == 6 {
        ('╮', '┓', '╮')
    } else if k == 13 {
        ('┴', '┻', '┴')
    } else if k == 14 {
        ('┬', '┳', '┬')
    } else if k == 11 {
        ('├', '┣', '├')
    } else if k == 7 {
        ('┤', '┫', '┤')
    } else if k == 15 {
        ('┼', '╋', '┼')
    } else {
        (' ', ' ', ' ')
    };
    match style {
        EdgeStyle::Thick => t.1,
        EdgeStyle::Dotted => t.2,
        _ => t.0,
    }
}

// ---------------------------------------------------------------------------
// Mirroring. Drawing always flows top-down or left-to-right; bottom-up and
// right-to-left charts are drawn that way and mirrored at the end.
/// The glyph mirrored top to bottom.
pub open spec fn mirror_v(c: char) -> char {
    if c == '▼' { '▲' }
    else if c == '▲' { '▼' }
    else if c == '╭' { '╰' }
    else if c == '╮' { '╯' }
    else if c == '╰' { '╭' }
    else if c == '╯' { '╮' }
    else if c == '┌' { '└' }
    else if c == '┐' { '┘' }
    else if c == '└' { '┌' }
    else if c == '┘' { '┐' }
    else if c == '┏' { '┗' }
    else if c == '┓' { '┛' }
    else if c == '┗' { '┏' }
    else if c == '┛' { '┓' }
    else if c == '┬' { '┴' }
    else if c == '┴' { '┬' }
    else if c == '┳' { '┻' }
    else if c == '┻' { '┳' }
    else if c == '╱' { '╲' }
    else if c == '╲' { '╱' }
    else { c }
}

/// The glyph mirrored left to right.
pub open spec fn mirror_h(c: char) -> char {
    if c == '▶' { '◀' }
    else if c == '◀' { '▶' }
    else if c == '╭' { '╮' }
    else if c == '╮' { '╭' }
    else if c == '╰' { '╯' }
    else if c == '╯' { '╰' }
    else if c == '┌' { '┐' }
    else if c == '┐' { '┌' }
    else if c == '└' { '┘' }
    else if c == '┘' { '└' }
    else if c == '┏' { '┓' }
    else if c == '┓' { '┏' }
    else if c == '┗' { '┛' }
    else if c == '┛' { '┗' }
    else if c == '├' { '┤' }
    else if c == '┤' { '├' }
    else if c == '┣' { '┫' }
    else if c == '┫' { '┣' }
    else if c == '╱' { '╲' }
    else if c == '╲' { '╱' }
    else { c }
}

fn flip_glyph_v(ch: char) -> (r: char)
    ensures
        r == mirror_v(ch),
{
    match ch {
        '▼' => '▲',
        '▲' => '▼',
        '╭' => '╰',
        '╮' => '╯',
        '╰' => '╭',
        '╯' => '╮',
        '┌' => '└',
        '┐' => '┘',
        '└' => '┌',
        '┘' => '┐',
        '┏' => '┗',
        '┓' => '┛',
        '┗' => '┏',
        '┛' => '┓',
        '┬' => '┴',
        '┴' => '┬',
        '┳' => '┻',
        '┻' => '┳',
        '╱' => '╲',
        '╲' => '╱',
        _ => ch,
    }
}

fn flip_glyph_h(ch: char) -> (r: char)
    ensures
        r == mirror_h(ch),
{
    match ch {
        '▶' => '◀',
        '◀' => '▶',
        '╭' => '╮',
        '╮' => '╭',
        '╰' => '╯',
        '╯' => '╰',
        '┌' => '┐',
        '┐' => '┌',
        '└' => '┘',
        '┘' => '└',
        '┏' => '┓',
        '┓' => '┏',
        '┗' => '┛',
        '┛' => '┗',
        '├' => '┤',
        '┤' => '├',
        '┣' => '┫',
        '┫' => '┣',
        '╱' => '╲',
        '╲' => '╱',
        _ => ch,
    }
}

/// Mirroring a glyph twice, either way, gives it back.
pub proof fn law_mirror_involutive(c: char)
    ensures
        mirror_v(mirror_v(c)) == c,
        mirror_h(mirror_h(c)) == c,
{
}

// ---------------------------------------------------------------------------
// Axes. Drawing works in (major, minor) coordinates: major runs along the
// flow, minor across it.
#[derive(Debug, Clone, Copy, PartialEq, Eq, Structural)]
pub enum InnerDir {
    TD,
    LR,
}

fn inner_dir(dir: Direction) -> (r: InnerDir)
    ensures
        r == (if vertical(dir) {
            InnerDir::TD
        } else {
            InnerDir::LR
        }),
{
    if dir.is_vertical() {
        InnerDir::TD
    } else {
        InnerDir::LR
    }
}

#[derive(Debug, Clone, Copy)]
pub struct Axes {
    pub dir: InnerDir,
}

/// Canvas `(x, y)` of the point at `(major, minor)`.
pub open spec fn xy_of(dir: InnerDir, major: usize, minor: usize) -> (usize, usize) {
    match dir {
        InnerDir::TD => (minor, major),
        InnerDir::LR => (major, minor),
    }
}

pub open spec fn major_sides_of(dir: InnerDir) -> u8 {
    match dir {
        InnerDir::TD => 3,
        InnerDir::LR => 12,
    }
}

pub open spec fn minor_sides_of(dir: InnerDir) -> u8 {
    match dir {
        InnerDir::TD => 12,
        InnerDir::LR => 3,
    }
}

pub open spec fn major_back_of(dir: InnerDir) -> u8 {
    match dir {
        InnerDir::TD => UP,
        InnerDir::LR => LEFT,
    }
}

pub open spec fn major_fwd_of(dir: InnerDir) -> u8 {
    match dir {
        InnerDir::TD => DOWN,
        InnerDir::LR => RIGHT,
    }
}

pub open spec fn minor_back_of(dir: InnerDir) -> u8 {
    match dir {
        InnerDir::TD => LEFT,
        InnerDir::LR => UP,
    }
}

pub open spec fn minor_fwd_of(dir: InnerDir) -> u8 {
    match dir {
        InnerDir::TD => RIGHT,
        InnerDir::LR => DOWN,
    }
}

/// The arrow head pointing along the flow.
pub open spec fn arrow_of(dir: InnerDir) -> char {
    match dir {
        InnerDir::TD => '▼',
        InnerDir::LR => '▶',
    }
}

/// The arrow head pointing against the flow.
pub open spec fn back_arrow_of(dir: InnerDir) -> char {
    match dir {
        InnerDir::TD => '▲',
        InnerDir::LR => '◀',
    }
}

impl Axes {
    fn xy(self, major: usize, minor: usize) -> (r: (usize, usize))
        ensures
            r == xy_of(self.dir, major, minor),
    {
        match self.dir {
            InnerDir::TD => (minor, major),
            InnerDir::LR => (major, minor),
        }
    }

    fn major_sides(self) -> (r: u8)
        ensures
            r == major_sides_of(self.dir),
    {
        assert(1u8 | 2u8 == 3u8) by (bit_vector);
        assert(4u8 | 8u8 == 12u8) by (bit_vector);
        match self.dir {
            InnerDir::TD => UP | DOWN,
            InnerDir::LR => LEFT | RIGHT,
        }
    }

    fn minor_sides(self) -> (r: u8)
        ensures
            r == minor_sides_of(self.dir),
    {
        assert(1u8 | 2u8 == 3u8) by (bit_vector);
        assert(4u8 | 8u8 == 12u8) by (bit_vector);
        match self.dir {
            InnerDir::TD => LEFT | RIGHT,
            InnerDir::LR => UP | DOWN,
        }
    }

    fn major_back(self) -> (r: u8)
        ensures
            r == major_back_of(self.dir),
    {
        match self.dir {
            InnerDir::TD => UP,
            InnerDir::LR => LEFT,
        }
    }

    fn major_fwd(self) -> (r: u8)
        ensures
            r == major_fwd_of(self.dir),
    {
        match self.dir {
            InnerDir::TD => DOWN,
            InnerDir::LR => RIGHT,
        }
    }

    fn minor_back(self) -> (r: u8)
        ensures
            r == minor_back_of(self.dir),
    {
        match self.dir {
            InnerDir::TD => LEFT,
            InnerDir::LR => UP,
        }
    }

    fn minor_fwd(self) -> (r: u8)
        ensures
            r == minor_fwd_of(self.dir),
    {
        match self.dir {
            InnerDir::TD => RIGHT,
            InnerDir::LR => DOWN,
        }
    }

    fn arrow(self) -> (r: char)
        ensures
            r == arrow_of(self.dir),
    {
        match self.dir {
            InnerDir::TD => '▼',
            InnerDir::LR => '▶',
        }
    }

    fn back_arrow(self) -> (r: char)
        ensures
            r == back_arrow_of(self.dir),
    {
        match self.dir {
            InnerDir::TD => '▲',
            InnerDir::LR => '◀',
        }
    }
}

/// The glyph drawn for an edge tip.
pub open spec fn tip_glyph(tip: ArrowTip, dir: InnerDir) -> Option<char> {
    match tip {
        ArrowTip::NoTip => None,
        ArrowTip::Arrow => Some(arrow_of(dir)),
        ArrowTip::Cross => Some('×'),
        ArrowTip::Circle => Some('○'),
    }
}

fn tip_char(tip: ArrowTip, axes: Axes) -> (r: Option<char>)
    ensures
        r == tip_glyph(tip, axes.dir),
{
    match tip {
        ArrowTip::NoTip => None,
        ArrowTip::Arrow => Some(axes.arrow()),
        ArrowTip::Cross => Some('×'),
        ArrowTip::Circle => Some('○'),
    }
}

// ---------------------------------------------------------------------------
// The canvas: five grids of the same size.
pub struct Canvas {
    pub chars: Vec<Vec<char>>,
    pub kinds: Vec<Vec<CellKind>>,
    pub sides: Vec<Vec<u8>>,
    pub cell_style: Vec<Vec<EdgeStyle>>,
    /// Per-cell style override: non-empty values win over the theme.
    pub override_style: Vec<Vec<Style>>,
}

/// The rows of a grid as sequences.
pub open spec fn grid<T>(g: Seq<Vec<T>>) -> Seq<Seq<T>> {
    g.map_values(|r: Vec<T>| r@)
}

/// `g` has `h` rows of `w` cells.
pub open spec fn rect<T>(g: Seq<Seq<T>>, h: int, w: int) -> bool {
    g.len() == h && forall|y: int| 0 <= y < h ==> (#[trigger] g[y]).len() == w
}

impl Canvas {
    pub open spec fn height(&self) -> int {
        self.chars.len() as int
    }

    pub open spec fn width_of(&self) -> int {
        if self.chars.len() > 0 {
            self.chars@[0].len() as int
        } else {
            0
        }
    }

    pub open spec fn chars_g(&self) -> Seq<Seq<char>> {
        grid(self.chars@)
    }

    pub open spec fn kinds_g(&self) -> Seq<Seq<CellKind>> {
        grid(self.kinds@)
    }

    pub open spec fn sides_g(&self) -> Seq<Seq<u8>> {
        grid(self.sides@)
    }

    pub open spec fn styles_g(&self) -> Seq<Seq<EdgeStyle>> {
        grid(self.cell_style@)
    }

    pub open spec fn over_g(&self) -> Seq<Seq<Style>> {
        grid(self.override_style@)
    }

    /// All five grids have the same size.
    pub open spec fn wf(&self) -> bool {
        let h = self.height();
        let w = self.width_of();
        &&& rect(self.chars_g(), h, w)
        &&& rect(self.kinds_g(), h, w)
        &&& rect(self.sides_g(), h, w)
        &&& rect(self.styles_g(), h, w)
        &&& rect(self.over_g(), h, w)
    }

    pub open spec fn inside(&self, x: int, y: int) -> bool {
        0 <= y < self.height() && 0 <= x < self.width_of()
    }
}

/// `s` back to front.
pub open spec fn rev<T>(s: Seq<T>) -> Seq<T> {
    Seq::new(s.len(), |i: int| s[s.len() - 1 - i])
}

/// `g` with the cell at `(x, y)` set to `v`.
pub open spec fn upd<T>(g: Seq<Seq<T>>, x: int, y: int, v: T) -> Seq<Seq<T>> {
    g.update(y, g[y].update(x, v))
}

/// `h` rows of `w` copies of `v`.
pub open spec fn filled<T>(h: nat, w: nat, v: T) -> Seq<Seq<T>> {
    Seq::new(h, |_y: int| Seq::new(w, |_x: int| v))
}

/// Row `y` of `g`, grown to `w` cells.
pub open spec fn grown_row<T>(g: Seq<Seq<T>>, y: int, w: nat, blank: T) -> Seq<T> {
    Seq::new(w, |x: int| if y < g.len() && x < g[y].len() { g[y][x] } else { blank })
}

/// `g` grown (never shrunk) to `h` rows of `w` cells, new cells `blank`.
pub open spec fn grown<T>(g: Seq<Seq<T>>, h: nat, w: nat, blank: T) -> Seq<Seq<T>> {
    Seq::new(h, |y: int| grown_row(g, y, w, blank))
}

proof fn lemma_grid_push<T>(g: Seq<Vec<T>>, r: Vec<T>)
    ensures
        grid(g.push(r)) == grid(g).push(r@),
{
    assert(grid(g.push(r)) =~= grid(g).push(r@));
}

fn row_of<T: Copy>(v: T, n: usize) -> (r: Vec<T>)
    ensures
        r@ == Seq::new(n as nat, |_i: int| v),
{
    let mut r: Vec<T> = Vec::new();
    let mut i: usize = 0;
    while i < n
        invariant
            i <= n,
            r@ == Seq::new(i as nat, |_i: int| v),
        decreases n - i,
    {
        r.push(v);
        proof {
            assert(r@ =~= Seq::new((i + 1) as nat, |_i: int| v));
        }
        i += 1;
    }
    r
}

fn filled_grid<T: Copy>(v: T, w: usize, h: usize) -> (g: Vec<Vec<T>>)
    ensures
        grid(g@) == filled(h as nat, w as nat, v),
{
    let mut g: Vec<Vec<T>> = Vec::new();
    let mut y: usize = 0;
    while y < h
        invariant
            y <= h,
            grid(g@) == filled(y as nat, w as nat, v),
        decreases h - y,
    {
        let r = row_of(v, w);
        proof {
            lemma_grid_push(g@, r);
        }
        g.push(r);
        proof {
            assert(grid(g@) =~= filled((y + 1) as nat, w as nat, v));
        }
        y += 1;
    }
    g
}

/// Sets one cell of a grid.
fn set_cell<T>(g: &mut Vec<Vec<T>>, x: usize, y: usize, v: T)
    requires
        y < old(g).len(),
        x < old(g)@[y as int].len(),
    ensures
        final(g).len() == old(g).len(),
        grid(final(g)@) == upd(grid(old(g)@), x as int, y as int, v),
{
    let mut row: Vec<T> = Vec::new();
    std::mem::swap(&mut row, &mut g[y]);
    row.set(x, v);
    std::mem::swap(&mut row, &mut g[y]);
    proof {
        assert(grid(g@) =~= upd(grid(old(g)@), x as int, y as int, v));
    }
}

/// Reverses a vector.
fn reversed<T>(v: Vec<T>) -> (r: Vec<T>)
    ensures
        r@ == rev(v@),
{
    let mut v = v;
    let ghost orig = v@;
    let mut r: Vec<T> = Vec::new();
    while v.len() > 0
        invariant
            v@ == orig.take(v.len() as int),
            r@ == rev(orig).take(orig.len() - v.len()),
            v.len() <= orig.len(),
        decreases v.len(),
    {
        let x = v.pop().unwrap();
        r.push(x);
        proof {
            assert(v@ =~= orig.take(v.len() as int));
            assert(r@ =~= rev(orig).take(orig.len() - v.len()));
        }
    }
    proof {
        assert(r@ =~= rev(orig));
    }
    r
}

/// Grows a grid of `cur_w`-cell rows to at least `h` rows of at least `w`.
fn grow<T: Copy>(g: &mut Vec<Vec<T>>, w: usize, h: usize, cur_w: usize, blank: T)
    requires
        rect(grid(old(g)@), old(g).len() as int, cur_w as int),
    ensures
        ({
            let nh: nat = if h > old(g).len() { h as nat } else { old(g).len() as nat };
            let nw: nat = if nh == 0 { 0 } else if w > cur_w { w as nat } else { cur_w as nat };
            grid(final(g)@) == grown(grid(old(g)@), nh, nw, blank)
        }),
{
    let row_w = if w > cur_w {
        w
    } else {
        cur_w
    };
    let ghost g0 = grid(g@);
    let ghost h0 = g.len();
    while g.len() < h
        invariant
            h0 <= g.len(),
            h0 == old(g).len(),
            g0 == grid(old(g)@),
            rect(g0, h0 as int, cur_w as int),
            forall|y: int| 0 <= y < h0 ==> #[trigger] grid(g@)[y] == g0[y],
            forall|y: int| h0 <= y < g.len() ==> #[trigger] grid(g@)[y] == Seq::new(row_w as nat, |_i: int| blank),
            g.len() <= (if h > h0 { h as int } else { h0 as int }),
        decreases h - g.len(),
    {
        let r = row_of(blank, row_w);
        proof {
            lemma_grid_push(g@, r);
        }
        g.push(r);
    }
    let n = g.len();
    let mut y: usize = 0;
    while y < n
        invariant
            n == g.len(),
            y <= n,
            h0 <= n,
            h0 == old(g).len(),
            g0 == grid(old(g)@),
            rect(g0, h0 as int, cur_w as int),
            n == (if h > h0 { h as int } else { h0 as int }),
            row_w == (if w > cur_w { w } else { cur_w }),
            forall|k: int| 0 <= k < y ==> #[trigger] grid(g@)[k] == grown_row(g0, k, row_w as nat, blank),
            forall|k: int| y <= k < h0 ==> #[trigger] grid(g@)[k] == g0[k],
            forall|k: int| h0 <= k < n && y <= k ==> #[trigger] grid(g@)[k] == Seq::new(row_w as nat, |_i: int| blank),
        decreases n - y,
    {
        let ghost start = g@;
        let ghost gy = grid(g@)[y as int];
        let mut row: Vec<T> = Vec::new();
        std::mem::swap(&mut row, &mut g[y]);
        let ghost r0 = row@;
        assert(r0 == gy);
        while row.len() < w
            invariant
                r0.len() <= row.len(),
                row@.take(r0.len() as int) == r0,
                forall|i: int| r0.len() <= i < row.len() ==> row@[i] == blank,
                row.len() <= (if w > r0.len() { w as int } else { r0.len() as int }),
            decreases w - row.len(),
        {
            row.push(blank);
        }
        let ghost before = g@;
        let ghost ext = row@;
        std::mem::swap(&mut row, &mut g[y]);
        assert(g@[y as int]@ == ext);
        proof {
            assert forall|k: int| 0 <= k < n && k != y implies #[trigger] grid(g@)[k] == grid(start)[k] by {
                assert(g@[k] == before[k]);
            }
            if (y as int) < h0 {
                assert(r0 == g0[y as int]);
                assert(r0.len() == cur_w);
            } else {
                assert(r0 == Seq::new(row_w as nat, |_i: int| blank));
            }
            let target = grown_row(g0, y as int, row_w as nat, blank);
            assert(ext.len() == row_w);
            assert forall|x: int| 0 <= x < row_w implies g@[y as int]@[x] == target[x] by {
                if x < r0.len() {
                    assert(g@[y as int]@.take(r0.len() as int)[x] == r0[x]);
                }
            }
            assert(grid(g@)[y as int] =~= target);
        }
        y += 1;
    }
    proof {
        let nh: nat = if h > old(g).len() { h as nat } else { old(g).len() as nat };
        let nw: nat = if nh == 0 { 0 } else if w > cur_w { w as nat } else { cur_w as nat };
        assert forall|k: int| 0 <= k < n implies #[trigger] grid(g@)[k] == grown(g0, nh, nw, blank)[k] by {
            assert(grown_row(g0, k, row_w as nat, blank) =~= grown(g0, nh, nw, blank)[k]);
        }
        assert(grid(g@) =~= grown(g0, nh, nw, blank));
    }
}

proof fn lemma_grid_rev<T>(g: Seq<Vec<T>>)
    ensures
        grid(rev(g)) == rev(grid(g)),
{
    assert(grid(rev(g)) =~= rev(grid(g)));
}

/// A plain vertical run meeting a plain horizontal one: drawn as a
/// crossing rather than a junction.
pub open spec fn crossing(old_sides: u8, new_sides: u8) -> bool {
    (old_sides == 3 && new_sides == 12) || (old_sides == 12 && new_sides == 3)
}

/// Each row of `g` with every glyph mirrored top to bottom.
pub open spec fn mirror_rows_v(g: Seq<Seq<char>>) -> Seq<Seq<char>> {
    Seq::new(g.len(), |y: int| g[y].map_values(|c: char| mirror_v(c)))
}

/// Each row of `g` reversed.
pub open spec fn rev_rows<T>(g: Seq<Seq<T>>) -> Seq<Seq<T>> {
    Seq::new(g.len(), |y: int| rev(g[y]))
}

/// First cell of the run of label cells through `x`.
pub open spec fn run_start(k: Seq<CellKind>, x: int) -> int
    decreases x,
{
    if x > 0 && k[x - 1] == CellKind::Label {
        run_start(k, x - 1)
    } else {
        x
    }
}

/// One past the last cell of the run of label cells through `x`.
pub open spec fn run_end(k: Seq<CellKind>, x: int) -> int
    decreases k.len() - x,
{
    if x + 1 < k.len() && k[x + 1] == CellKind::Label {
        run_end(k, x + 1)
    } else {
        x + 1
    }
}

/// `c` with every run of label cells (by `k`) put back to front.
pub open spec fn unreverse_labels(c: Seq<char>, k: Seq<CellKind>) -> Seq<char> {
    Seq::new(
        c.len(),
        |x: int|
            if x < k.len() && k[x] == CellKind::Label {
                c[run_start(k, x) + run_end(k, x) - 1 - x]
            } else {
                c[x]
            },
    )
}

/// Each row of a character grid mirrored left to right, with label runs
/// kept reading forward.
pub open spec fn mirror_rows_h(c: Seq<Seq<char>>, k: Seq<Seq<CellKind>>) -> Seq<Seq<char>> {
    Seq::new(
        c.len(),
        |y: int| unreverse_labels(rev(c[y]).map_values(|ch: char| mirror_h(ch)), rev(k[y])),
    )
}

proof fn lemma_run_start(k: Seq<CellKind>, s: int, x: int)
    requires
        0 <= s <= x < k.len(),
        forall|j: int| s <= j <= x ==> #[trigger] k[j] == CellKind::Label,
        s == 0 || k[s - 1] != CellKind::Label,
    ensures
        run_start(k, x) == s,
    decreases x - s,
{
    if x > s {
        lemma_run_start(k, s, x - 1);
    }
}

proof fn lemma_run_end(k: Seq<CellKind>, e: int, x: int)
    requires
        0 <= x < e <= k.len(),
        forall|j: int| x <= j < e ==> #[trigger] k[j] == CellKind::Label,
        e == k.len() || k[e] != CellKind::Label,
    ensures
        run_end(k, x) == e,
    decreases e - x,
{
    if x + 1 < e {
        lemma_run_end(k, e, x + 1);
    }
}

fn mirror_row(row: &Vec<char>, vertical_flip: bool) -> (r: Vec<char>)
    ensures
        r@ == (if vertical_flip {
            row@.map_values(|c: char| mirror_v(c))
        } else {
            row@.map_values(|c: char| mirror_h(c))
        }),
{
    let mut r: Vec<char> = Vec::new();
    let mut i: usize = 0;
    while i < row.len()
        invariant
            i <= row.len(),
            r.len() == i,
            forall|k: int|
                0 <= k < i ==> #[trigger] r@[k] == (if vertical_flip {
                    mirror_v(row@[k])
                } else {
                    mirror_h(row@[k])
                }),
        decreases row.len() - i,
    {
        let c = if vertical_flip {
            flip_glyph_v(row[i])
        } else {
            flip_glyph_h(row[i])
        };
        r.push(c);
        i += 1;
    }
    proof {
        if vertical_flip {
            assert(r@ =~= row@.map_values(|c: char| mirror_v(c)));
        } else {
            assert(r@ =~= row@.map_values(|c: char| mirror_h(c)));
        }
    }
    r
}

/// Puts each run of label cells of `chars` (by `kinds`) back to front.
fn unreverse_label_runs(chars: &mut Vec<char>, kinds: &Vec<CellKind>)
    requires
        old(chars).len() == kinds.len(),
    ensures
        final(chars)@ == unreverse_labels(old(chars)@, kinds@),
{
    let ghost orig = chars@;
    let ghost k = kinds@;
    let ghost target = unreverse_labels(orig, k);
    let n = kinds.len();
    let mut i: usize = 0;
    while i < n
        invariant
            n == kinds.len(),
            chars.len() == n,
            orig.len() == n,
            k == kinds@,
            target == unreverse_labels(orig, k),
            i <= n,
            i < n && k[i as int] == CellKind::Label ==> (i == 0 || k[i - 1] != CellKind::Label),
            forall|x: int| 0 <= x < i ==> #[trigger] chars@[x] == target[x],
            forall|x: int| i <= x < n ==> #[trigger] chars@[x] == orig[x],
        decreases n - i,
    {
        if kinds[i] == CellKind::Label {
            let start = i;
            while i < n && kinds[i] == CellKind::Label
                invariant
                    n == kinds.len(),
                    start <= i <= n,
                    start < n,
                    forall|j: int| start <= j < i ==> #[trigger] k[j] == CellKind::Label,
                    k == kinds@,
                decreases n - i,
            {
                i += 1;
            }
            let end = i;
            assert(end > start) by {
                assert(k[start as int] == CellKind::Label);
            }
            proof {
                assert forall|x: int| start <= x < end implies run_start(k, x) == start && run_end(
                    k,
                    x,
                ) == end by {
                    lemma_run_start(k, start as int, x);
                    lemma_run_end(k, end as int, x);
                }
            }
            let mut lo: usize = start;
            let mut hi: usize = end - 1;
            while lo < hi
                invariant
                    start <= lo <= end,
                    lo + hi == start + end - 1,
                    end <= n,
                    chars.len() == n,
                    orig.len() == n,
                    forall|x: int| 0 <= x < start ==> #[trigger] chars@[x] == target[x],
                    forall|x: int| end <= x < n ==> #[trigger] chars@[x] == orig[x],
                    forall|x: int|
                        (start <= x < lo || hi < x < end) ==> #[trigger] chars@[x] == orig[start + end - 1 - x],
                    forall|x: int| lo <= x <= hi ==> #[trigger] chars@[x] == orig[x],
                decreases end - lo,
            {
                let a = chars[lo];
                let b = chars[hi];
                chars.set(lo, b);
                chars.set(hi, a);
                lo += 1;
                hi -= 1;
            }
            proof {
                assert forall|x: int| start <= x < end implies #[trigger] chars@[x] == target[x] by {
                    assert(run_start(k, x) == start && run_end(k, x) == end);
                    if lo <= x <= hi {
                        assert(x == start + end - 1 - x);
                    }
                }
            }
        } else {
            i += 1;
        }
    }
    proof {
        assert(chars@ =~= target);
    }
}

impl Canvas {
    fn new(w: usize, h: usize) -> (c: Self)
        ensures
            c.wf(),
            c.height() == h,
            c.width_of() == (if h > 0 { w as int } else { 0 }),
            c.chars_g() == filled(h as nat, w as nat, ' '),
            c.kinds_g() == filled(h as nat, w as nat, CellKind::Empty),
            c.sides_g() == filled(h as nat, w as nat, 0u8),
            c.styles_g() == filled(h as nat, w as nat, EdgeStyle::Normal),
            c.over_g() == filled(h as nat, w as nat, empty_style()),
    {
        let c = Canvas {
            chars: filled_grid(' ', w, h),
            kinds: filled_grid(CellKind::Empty, w, h),
            sides: filled_grid(0u8, w, h),
            cell_style: filled_grid(EdgeStyle::Normal, w, h),
            override_style: filled_grid(Style::new(), w, h),
        };
        proof {
            assert(c.chars.len() == c.chars_g().len());
            if h > 0 {
                assert(c.chars_g()[0].len() == w);
            }
        }
        c
    }

    fn in_bounds(&self, x: usize, y: usize) -> (r: bool)
        requires
            self.wf(),
        ensures
            r == self.inside(x as int, y as int),
    {
        proof {
            if y < self.chars.len() {
                assert(self.chars_g()[y as int].len() == self.width_of());
                assert(self.chars_g()[0].len() == self.width_of());
            }
        }
        y < self.chars.len() && x < self.chars[y].len()
    }

    fn width(&self) -> (w: usize)
        ensures
            w == self.width_of(),
    {
        if self.chars.len() > 0 {
            self.chars[0].len()
        } else {
            0
        }
    }

    fn set_override(&mut self, x: usize, y: usize, style: Style)
        requires
            old(self).wf(),
        ensures
            final(self).wf(),
            final(self).height() == old(self).height(),
            final(self).width_of() == old(self).width_of(),
            final(self).chars@ == old(self).chars@,
            final(self).kinds@ == old(self).kinds@,
            final(self).sides@ == old(self).sides@,
            final(self).cell_style@ == old(self).cell_style@,
            final(self).over_g() == (if old(self).inside(x as int, y as int) {
                upd(old(self).over_g(), x as int, y as int, style)
            } else {
                old(self).over_g()
            }),
    {
        if self.in_bounds(x, y) {
            proof {
                assert(self.over_g()[y as int].len() == self.width_of());
            }
            set_cell(&mut self.override_style, x, y, style);
            proof {
                assert forall|r: int| 0 <= r < self.height() implies (#[trigger] self.over_g()[r]).len() == self.width_of() by {
                    if r == y {
                    }
                }
            }
        }
    }

    /// Direct write, for anything that is not line art.
    fn set(&mut self, x: usize, y: usize, ch: char, kind: CellKind)
        requires
            old(self).wf(),
        ensures
            final(self).wf(),
            final(self).height() == old(self).height(),
            final(self).width_of() == old(self).width_of(),
            final(self).sides@ == old(self).sides@,
            final(self).cell_style@ == old(self).cell_style@,
            final(self).override_style@ == old(self).override_style@,
            final(self).chars_g() == (if old(self).inside(x as int, y as int) {
                upd(old(self).chars_g(), x as int, y as int, ch)
            } else {
                old(self).chars_g()
            }),
            final(self).kinds_g() == (if old(self).inside(x as int, y as int) {
                upd(old(self).kinds_g(), x as int, y as int, kind)
            } else {
                old(self).kinds_g()
            }),
            only_at(*old(self), *final(self), x as int, y as int),
    {
        let ghost a = *self;
        if self.in_bounds(x, y) {
            proof {
                assert(self.chars_g()[y as int].len() == self.width_of());
                assert(self.kinds_g()[y as int].len() == self.width_of());
                assert(self.chars_g()[0].len() == self.width_of());
            }
            set_cell(&mut self.chars, x, y, ch);
            set_cell(&mut self.kinds, x, y, kind);
            proof {
                assert(self.chars_g()[0].len() == self.chars@[0]@.len());
            }
        }
        proof {
            lemma_set_only_at(a, *self, x, y, ch, kind);
        }
    }

    /// Adds line-art sides to a cell and redraws its glyph. A plain
    /// vertical run meeting a plain horizontal one becomes a crossing;
    /// otherwise the sides are combined and the dominant style wins.
    fn add_sides(&mut self, x: usize, y: usize, new: u8, style: EdgeStyle, kind: CellKind)
        requires
            old(self).wf(),
        ensures
            final(self).wf(),
            final(self).height() == old(self).height(),
            final(self).width_of() == old(self).width_of(),
            final(self).override_style@ == old(self).override_style@,
            ({
                let o = *old(self);
                let f = *final(self);
                if !o.inside(x as int, y as int) || new == 0 {
                    &&& f.chars_g() == o.chars_g()
                    &&& f.kinds_g() == o.kinds_g()
                    &&& f.sides_g() == o.sides_g()
                    &&& f.styles_g() == o.styles_g()
                } else if crossing(o.sides_g()[y as int][x as int], new) {
                    &&& f.chars_g() == upd(o.chars_g(), x as int, y as int, '╳')
                    &&& f.kinds_g() == upd(o.kinds_g(), x as int, y as int, CellKind::Crossing)
                    &&& f.sides_g() == o.sides_g()
                    &&& f.styles_g() == o.styles_g()
                } else {
                    let c = o.sides_g()[y as int][x as int] | new;
                    let st = dominant(style, o.styles_g()[y as int][x as int]);
                    &&& f.sides_g() == upd(o.sides_g(), x as int, y as int, c)
                    &&& f.styles_g() == upd(o.styles_g(), x as int, y as int, st)
                    &&& f.chars_g() == upd(o.chars_g(), x as int, y as int, glyph(c, st))
                    &&& f.kinds_g() == upd(o.kinds_g(), x as int, y as int, kind)
                }
            }),
            only_at(*old(self), *final(self), x as int, y as int),
            kind == CellKind::Edge ==> keeps_lines(*old(self), *final(self)),
            kind == CellKind::Edge && new != 0 ==> line_cell(*final(self), x as int, y as int),
    {
        let ghost a = *self;
        if !self.in_bounds(x, y) || new == 0 {
            proof {
                lemma_add_sides_only_at(a, *self, x, y, new, style, kind);
            }
            return;
        }
        proof {
            assert(self.chars_g()[y as int].len() == self.width_of());
            assert(self.kinds_g()[y as int].len() == self.width_of());
            assert(self.sides_g()[y as int].len() == self.width_of());
            assert(self.styles_g()[y as int].len() == self.width_of());
            assert(self.chars_g()[0].len() == self.width_of());
        }
        let old_sides = self.sides[y][x];
        if (old_sides == 3 && new == 12) || (old_sides == 12 && new == 3) {
            set_cell(&mut self.chars, x, y, '╳');
            set_cell(&mut self.kinds, x, y, CellKind::Crossing);
            proof {
                assert(self.chars_g()[0].len() == self.chars@[0]@.len());
                lemma_add_sides_only_at(a, *self, x, y, new, style, kind);
            }
            return;
        }
        let combined = old_sides | new;
        let cur_style = self.cell_style[y][x];
        let merged_style = style.max_over(cur_style);
        set_cell(&mut self.sides, x, y, combined);
        set_cell(&mut self.cell_style, x, y, merged_style);
        let ch = lineart(combined, merged_style);
        set_cell(&mut self.chars, x, y, ch);
        set_cell(&mut self.kinds, x, y, kind);
        proof {
            assert(self.chars_g()[0].len() == self.chars@[0]@.len());
            lemma_add_sides_only_at(a, *self, x, y, new, style, kind);
        }
    }
}

/// Reverses every row of a grid.
fn rev_each_row<T>(g: &mut Vec<Vec<T>>)
    ensures
        grid(final(g)@) == rev_rows(grid(old(g)@)),
{
    let n = g.len();
    let mut y: usize = 0;
    while y < n
        invariant
            n == g.len(),
            n == old(g).len(),
            y <= n,
            forall|k: int| 0 <= k < y ==> #[trigger] grid(g@)[k] == rev(grid(old(g)@)[k]),
            forall|k: int| y <= k < n ==> #[trigger] grid(g@)[k] == grid(old(g)@)[k],
        decreases n - y,
    {
        let ghost start = g@;
        assert(grid(start)[y as int] == grid(old(g)@)[y as int]);
        let mut row: Vec<T> = Vec::new();
        std::mem::swap(&mut row, &mut g[y]);
        assert(row@ == grid(old(g)@)[y as int]);
        let mut r = reversed(row);
        let ghost rv = r@;
        let ghost mid = g@;
        std::mem::swap(&mut r, &mut g[y]);
        proof {
            assert(g@[y as int]@ == rv);
            assert forall|k: int| 0 <= k < n && k != y implies #[trigger] grid(g@)[k] == grid(start)[k] by {
                assert(g@[k] == mid[k]);
                assert(mid[k] == start[k]);
            }
        }
        y += 1;
    }
    proof {
        assert(grid(g@) =~= rev_rows(grid(old(g)@)));
    }
}

impl Canvas {
    /// Grows the canvas to at least `w` x `h`; new cells are blank.
    fn ensure(&mut self, w: usize, h: usize)
        requires
            old(self).wf(),
        ensures
            final(self).wf(),
            ({
                let o = *old(self);
                let nh: nat = if h > o.height() { h as nat } else { o.height() as nat };
                let nw: nat = if nh == 0 { 0 } else if w > o.width_of() { w as nat } else { o.width_of() as nat };
                &&& final(self).height() == nh
                &&& final(self).width_of() == nw
                &&& final(self).chars_g() == grown(o.chars_g(), nh, nw, ' ')
                &&& final(self).kinds_g() == grown(o.kinds_g(), nh, nw, CellKind::Empty)
                &&& final(self).sides_g() == grown(o.sides_g(), nh, nw, 0u8)
                &&& final(self).styles_g() == grown(o.styles_g(), nh, nw, EdgeStyle::Normal)
                &&& final(self).over_g() == grown(o.over_g(), nh, nw, empty_style())
            }),
    {
        let cur_w = self.width();
        grow(&mut self.chars, w, h, cur_w, ' ');
        grow(&mut self.kinds, w, h, cur_w, CellKind::Empty);
        grow(&mut self.sides, w, h, cur_w, 0u8);
        grow(&mut self.cell_style, w, h, cur_w, EdgeStyle::Normal);
        grow(&mut self.override_style, w, h, cur_w, Style::new());
        proof {
            assert(self.chars.len() == self.chars_g().len());
            if self.chars.len() > 0 {
                assert(self.chars@[0]@.len() == self.chars_g()[0].len());
            }
        }
    }

    /// Reverses the row order and mirrors every glyph top to bottom.
    fn flip_v(&mut self)
        requires
            old(self).wf(),
        ensures
            final(self).wf(),
            final(self).height() == old(self).height(),
            final(self).width_of() == old(self).width_of(),
            final(self).chars_g() == mirror_rows_v(rev(old(self).chars_g())),
            final(self).kinds_g() == rev(old(self).kinds_g()),
            final(self).sides_g() == rev(old(self).sides_g()),
            final(self).styles_g() == rev(old(self).styles_g()),
            final(self).over_g() == rev(old(self).over_g()),
    {
        let mut t: Vec<Vec<char>> = Vec::new();
        std::mem::swap(&mut t, &mut self.chars);
        proof { lemma_grid_rev(t@); }
        self.chars = reversed(t);
        let mut t: Vec<Vec<CellKind>> = Vec::new();
        std::mem::swap(&mut t, &mut self.kinds);
        proof { lemma_grid_rev(t@); }
        self.kinds = reversed(t);
        let mut t: Vec<Vec<u8>> = Vec::new();
        std::mem::swap(&mut t, &mut self.sides);
        proof { lemma_grid_rev(t@); }
        self.sides = reversed(t);
        let mut t: Vec<Vec<EdgeStyle>> = Vec::new();
        std::mem::swap(&mut t, &mut self.cell_style);
        proof { lemma_grid_rev(t@); }
        self.cell_style = reversed(t);
        let mut t: Vec<Vec<Style>> = Vec::new();
        std::mem::swap(&mut t, &mut self.override_style);
        proof { lemma_grid_rev(t@); }
        self.override_style = reversed(t);
        let ghost r = rev(old(self).chars_g());
        let mut chars: Vec<Vec<char>> = Vec::new();
        std::mem::swap(&mut chars, &mut self.chars);
        assert(grid(chars@) == r);
        let n = chars.len();
        let mut y: usize = 0;
        while y < n
            invariant
                n == chars.len(),
                y <= n,
                r.len() == n,
                forall|k: int| 0 <= k < y ==> #[trigger] grid(chars@)[k] == r[k].map_values(|c: char| mirror_v(c)),
                forall|k: int| y <= k < n ==> #[trigger] grid(chars@)[k] == r[k],
            decreases n - y,
        {
            assert(chars@[y as int]@ == grid(chars@)[y as int]);
            let m = mirror_row(&chars[y], true);
            let ghost start = chars@;
            chars.set(y, m);
            assert(grid(chars@)[y as int] == m@);
            proof {
                assert forall|k: int| 0 <= k < n && k != y implies #[trigger] grid(chars@)[k] == grid(start)[k] by {}
            }
            y += 1;
        }
        self.chars = chars;
        proof {
            assert(self.chars_g() =~= mirror_rows_v(r));
            let o = *old(self);
            assert(self.kinds_g() == rev(o.kinds_g()));
            assert forall|k: int| 0 <= k < n implies (#[trigger] self.chars_g()[k]).len() == o.width_of() by {
                assert(o.chars_g()[n - 1 - k].len() == o.width_of());
            }
            assert forall|k: int| 0 <= k < n implies (#[trigger] self.kinds_g()[k]).len() == o.width_of() by {
                assert(o.kinds_g()[n - 1 - k].len() == o.width_of());
            }
            assert forall|k: int| 0 <= k < n implies (#[trigger] self.sides_g()[k]).len() == o.width_of() by {
                assert(o.sides_g()[n - 1 - k].len() == o.width_of());
            }
            assert forall|k: int| 0 <= k < n implies (#[trigger] self.styles_g()[k]).len() == o.width_of() by {
                assert(o.styles_g()[n - 1 - k].len() == o.width_of());
            }
            assert forall|k: int| 0 <= k < n implies (#[trigger] self.over_g()[k]).len() == o.width_of() by {
                assert(o.over_g()[n - 1 - k].len() == o.width_of());
            }
            if n > 0 {
                assert(self.chars@[0]@ == self.chars_g()[0]);
            }
        }
    }

    /// Mirrors every row left to right and every glyph with it; runs of
    /// label cells are put back so text still reads forward.
    fn flip_h(&mut self)
        requires
            old(self).wf(),
        ensures
            final(self).wf(),
            final(self).height() == old(self).height(),
            final(self).width_of() == old(self).width_of(),
            final(self).chars_g() == mirror_rows_h(old(self).chars_g(), old(self).kinds_g()),
            final(self).kinds_g() == rev_rows(old(self).kinds_g()),
            final(self).sides_g() == rev_rows(old(self).sides_g()),
            final(self).styles_g() == rev_rows(old(self).styles_g()),
            final(self).over_g() == rev_rows(old(self).over_g()),
    {
        rev_each_row(&mut self.chars);
        rev_each_row(&mut self.kinds);
        rev_each_row(&mut self.sides);
        rev_each_row(&mut self.cell_style);
        rev_each_row(&mut self.override_style);
        let ghost o = *old(self);
        let ghost r = rev_rows(o.chars_g());
        let mut chars: Vec<Vec<char>> = Vec::new();
        std::mem::swap(&mut chars, &mut self.chars);
        assert(grid(chars@) == r);
        let n = chars.len();
        proof {
            assert(grid(self.kinds@).len() == self.kinds.len());
            assert(grid(chars@).len() == chars.len());
        }
        let mut y: usize = 0;
        while y < n
            invariant
                n == chars.len(),
                n == self.kinds.len(),
                y <= n,
                r.len() == n,
                o.wf(),
                o.height() == n,
                r == rev_rows(o.chars_g()),
                self.kinds_g() == rev_rows(o.kinds_g()),
                forall|k: int|
                    0 <= k < y ==> #[trigger] grid(chars@)[k] == unreverse_labels(
                        r[k].map_values(|c: char| mirror_h(c)),
                        self.kinds_g()[k],
                    ),
                forall|k: int| y <= k < n ==> #[trigger] grid(chars@)[k] == r[k],
            decreases n - y,
        {
            let mut m = mirror_row(&chars[y], false);
            proof {
                assert(o.chars_g()[y as int].len() == o.width_of());
                assert(o.kinds_g()[y as int].len() == o.width_of());
                assert(self.kinds_g()[y as int].len() == o.kinds_g()[y as int].len());
                assert(self.kinds@[y as int]@ == self.kinds_g()[y as int]);
                assert(chars@[y as int]@ == grid(chars@)[y as int]);
            }
            unreverse_label_runs(&mut m, &self.kinds[y]);
            let ghost start = chars@;
            chars.set(y, m);
            proof {
                assert forall|k: int| 0 <= k < n && k != y implies #[trigger] grid(chars@)[k] == grid(start)[k] by {}
            }
            y += 1;
        }
        self.chars = chars;
        proof {
            assert(self.chars_g() =~= mirror_rows_h(o.chars_g(), o.kinds_g()));
            assert forall|k: int| 0 <= k < n implies (#[trigger] self.chars_g()[k]).len() == o.width_of() by {
                assert(o.chars_g()[k].len() == o.width_of());
            }
            assert forall|k: int| 0 <= k < n implies (#[trigger] self.kinds_g()[k]).len() == o.width_of() by {
                assert(o.kinds_g()[k].len() == o.width_of());
            }
            assert forall|k: int| 0 <= k < n implies (#[trigger] self.sides_g()[k]).len() == o.width_of() by {
                assert(o.sides_g()[k].len() == o.width_of());
                assert(self.sides_g()[k] == rev(o.sides_g()[k]));
            }
            assert forall|k: int| 0 <= k < n implies (#[trigger] self.styles_g()[k]).len() == o.width_of() by {
                assert(o.styles_g()[k].len() == o.width_of());
                assert(self.styles_g()[k] == rev(o.styles_g()[k]));
            }
            assert forall|k: int| 0 <= k < n implies (#[trigger] self.over_g()[k]).len() == o.width_of() by {
                assert(o.over_g()[k].len() == o.width_of());
                assert(self.over_g()[k] == rev(o.over_g()[k]));
            }
            if n > 0 {
                assert(self.chars@[0]@ == self.chars_g()[0]);
            }
        }
    }
}

/// Mirroring a canvas top to bottom twice gives it back.
pub proof fn law_flip_v_twice(g: Seq<Seq<char>>)
    ensures
        mirror_rows_v(rev(mirror_rows_v(rev(g)))) == g,
{
    assert forall|y: int| 0 <= y < g.len() implies #[trigger] mirror_rows_v(rev(mirror_rows_v(rev(g))))[y] == g[y] by {
        let row = mirror_rows_v(rev(mirror_rows_v(rev(g))))[y];
        assert forall|x: int| 0 <= x < g[y].len() implies row[x] == g[y][x] by {
            law_mirror_involutive(g[y][x]);
        }
        assert(row =~= g[y]);
    }
    assert(mirror_rows_v(rev(mirror_rows_v(rev(g)))) =~= g);
}

proof fn lemma_label_run(k: Seq<CellKind>, x: int)
    requires
        0 <= x < k.len(),
        k[x] == CellKind::Label,
    ensures
        0 <= run_start(k, x) <= x < run_end(k, x) <= k.len(),
        forall|j: int| run_start(k, x) <= j < run_end(k, x) ==> #[trigger] k[j] == CellKind::Label,
        run_start(k, x) == 0 || k[run_start(k, x) - 1] != CellKind::Label,
        run_end(k, x) == k.len() || k[run_end(k, x)] != CellKind::Label,
{
    lemma_run_start_bounds(k, x);
    lemma_run_end_bounds(k, x);
}

proof fn lemma_run_start_bounds(k: Seq<CellKind>, x: int)
    requires
        0 <= x < k.len(),
        k[x] == CellKind::Label,
    ensures
        0 <= run_start(k, x) <= x,
        forall|j: int| run_start(k, x) <= j <= x ==> #[trigger] k[j] == CellKind::Label,
        run_start(k, x) == 0 || k[run_start(k, x) - 1] != CellKind::Label,
    decreases x,
{
    if x > 0 && k[x - 1] == CellKind::Label {
        lemma_run_start_bounds(k, x - 1);
    }
}

proof fn lemma_run_end_bounds(k: Seq<CellKind>, x: int)
    requires
        0 <= x < k.len(),
        k[x] == CellKind::Label,
    ensures
        x < run_end(k, x) <= k.len(),
        forall|j: int| x <= j < run_end(k, x) ==> #[trigger] k[j] == CellKind::Label,
        run_end(k, x) == k.len() || k[run_end(k, x)] != CellKind::Label,
    decreases k.len() - x,
{
    if x + 1 < k.len() && k[x + 1] == CellKind::Label {
        lemma_run_end_bounds(k, x + 1);
    }
}

/// The label run through `p` of a reversed row is the reversed run through
/// the mirrored position.
proof fn lemma_rev_run(k: Seq<CellKind>, p: int)
    requires
        0 <= p < k.len(),
        rev(k)[p] == CellKind::Label,
    ensures
        run_start(rev(k), p) == k.len() - run_end(k, k.len() - 1 - p),
        run_end(rev(k), p) == k.len() - run_start(k, k.len() - 1 - p),
{
    let n = k.len() as int;
    let x = n - 1 - p;
    lemma_label_run(k, x);
    let s = run_start(k, x);
    let e = run_end(k, x);
    let r = rev(k);
    assert forall|j: int| n - e <= j <= p implies #[trigger] r[j] == CellKind::Label by {
        assert(r[j] == k[n - 1 - j]);
    }
    if n - e > 0 {
        assert(r[n - e - 1] == k[e]);
    }
    lemma_run_start(r, n - e, p);
    assert forall|j: int| p <= j < n - s implies #[trigger] r[j] == CellKind::Label by {
        assert(r[j] == k[n - 1 - j]);
    }
    if n - s < n {
        assert(r[n - s] == k[s - 1]);
    }
    lemma_run_end(r, n - s, p);
}

/// Mirroring one row left to right twice gives it back.
proof fn lemma_row_flip_h_twice(c: Seq<char>, k: Seq<CellKind>)
    requires
        c.len() == k.len(),
    ensures
        unreverse_labels(
            rev(unreverse_labels(rev(c).map_values(|ch: char| mirror_h(ch)), rev(k))).map_values(
                |ch: char| mirror_h(ch),
            ),
            rev(rev(k)),
        ) == c,
{
    let n = c.len() as int;
    let m1 = rev(c).map_values(|ch: char| mirror_h(ch));
    let c1 = unreverse_labels(m1, rev(k));
    let m2 = rev(c1).map_values(|ch: char| mirror_h(ch));
    assert(rev(rev(k)) =~= k);
    let c2 = unreverse_labels(m2, k);
    assert forall|x: int| 0 <= x < n implies #[trigger] c2[x] == c[x] by {
        if k[x] == CellKind::Label {
            lemma_label_run(k, x);
            let s = run_start(k, x);
            let e = run_end(k, x);
            let q = s + e - 1 - x;
            assert(s <= q < e);
            assert(k[q] == CellKind::Label);
            let p = n - 1 - q;
            assert(rev(k)[p] == k[q]);
            lemma_rev_run(k, p);
            assert(run_start(k, n - 1 - p) == s && run_end(k, n - 1 - p) == e) by {
                lemma_label_run(k, q);
                lemma_run_start(k, s, q);
                lemma_run_end(k, e, q);
            }
            assert(c2[x] == m2[q]);
            assert(m2[q] == mirror_h(c1[p]));
            assert(c1[p] == m1[(n - e) + (n - s) - 1 - p]);
            assert(m1[(n - e) + (n - s) - 1 - p] == mirror_h(c[x]));
            law_mirror_involutive(c[x]);
        } else {
            let p = n - 1 - x;
            assert(rev(k)[p] == k[x]);
            assert(c2[x] == m2[x]);
            assert(m2[x] == mirror_h(c1[p]));
            assert(c1[p] == m1[p]);
            law_mirror_involutive(c[x]);
        }
    }
    assert(c2 =~= c);
}

/// Reversing twice gives the sequence back (the row order of a vertical
/// flip, and the cells of a row in a horizontal one).
pub proof fn law_rev_twice<T>(s: Seq<T>)
    ensures
        rev(rev(s)) == s,
{
    assert(rev(rev(s)) =~= s);
}

/// Mirroring a canvas left to right twice gives it back: the characters
/// (label runs included) and the cell kinds.
pub proof fn law_flip_h_twice(c: Seq<Seq<char>>, k: Seq<Seq<CellKind>>)
    requires
        c.len() == k.len(),
        forall|y: int| 0 <= y < c.len() ==> (#[trigger] c[y]).len() == k[y].len(),
    ensures
        mirror_rows_h(mirror_rows_h(c, k), rev_rows(k)) == c,
        rev_rows(rev_rows(k)) == k,
{
    let once = mirror_rows_h(c, k);
    assert forall|y: int| 0 <= y < c.len() implies #[trigger] mirror_rows_h(once, rev_rows(k))[y] == c[y] by {
        lemma_row_flip_h_twice(c[y], k[y]);
        assert(rev_rows(k)[y] == rev(k[y]));
        assert(once[y] == unreverse_labels(rev(c[y]).map_values(|ch: char| mirror_h(ch)), rev(k[y])));
    }
    assert(mirror_rows_h(once, rev_rows(k)) =~= c);
    assert forall|y: int| 0 <= y < k.len() implies #[trigger] rev_rows(rev_rows(k))[y] == k[y] by {
        assert(rev(rev(k[y])) =~= k[y]);
    }
    assert(rev_rows(rev_rows(k)) =~= k);
}

// ---------------------------------------------------------------------------
// Emitting text.
/// A cell's override applies only to border cells, and only its foreground
/// (a box's rectangular background cannot follow rounded corners).
pub open spec fn combined(base: Style, over: Style, kind: CellKind) -> Style {
    if kind == CellKind::Border && over.fg is Some {
        Style { fg: over.fg, ..base }
    } else {
        base
    }
}

fn combine_style(base: Style, over: Style, kind: CellKind) -> (r: Style)
    ensures
        r == combined(base, over, kind),
{
    if kind == CellKind::Border && over.fg.is_some() {
        Style { fg: over.fg, ..base }
    } else {
        base
    }
}

/// The style a cell is emitted in.
pub open spec fn shown_style(t: Theme, apply: bool, kind: CellKind, over: Style) -> Style {
    if apply {
        combined(theme_style(t, kind), over, kind)
    } else {
        theme_style(t, kind)
    }
}

/// One past the last cell among the first `n` that shows: a non-space
/// character, or, where overrides apply, a cell with a non-empty override.
pub open spec fn row_end(c: Seq<char>, o: Seq<Style>, apply: bool, n: int) -> int
    decreases n,
{
    if n <= 0 {
        0
    } else if c[n - 1] != ' ' || (apply && o[n - 1] != empty_style()) {
        n
    } else {
        row_end(c, o, apply, n - 1)
    }
}

/// The reset sequence.
pub open spec fn reset_code() -> Seq<char> {
    "\x1b[0m"@
}

/// Text of the first `i` cells of a row, and the style in force after
/// them: a style change resets the previous style (if any) and selects the
/// new one.
pub open spec fn row_text(c: Seq<char>, k: Seq<CellKind>, o: Seq<Style>, t: Theme, apply: bool, i: int) -> (Seq<char>, Style)
    decreases i,
{
    if i <= 0 {
        (Seq::empty(), empty_style())
    } else {
        let prev = row_text(c, k, o, t, apply, i - 1);
        let want = shown_style(t, apply, k[i - 1], o[i - 1]);
        let switch = if want != prev.1 {
            (if prev.1 != empty_style() {
                reset_code()
            } else {
                Seq::empty()
            }) + style_code(want)
        } else {
            Seq::empty()
        };
        (prev.0 + switch + seq![c[i - 1]], want)
    }
}

/// One emitted line: the row up to its last showing cell, a reset if a
/// style is still in force, and a newline.
pub open spec fn row_line(c: Seq<char>, k: Seq<CellKind>, o: Seq<Style>, t: Theme, apply: bool) -> Seq<char> {
    let end = row_end(c, o, apply, c.len() as int);
    if end == 0 {
        seq!['\n']
    } else {
        let r = row_text(c, k, o, t, apply, end);
        r.0 + (if r.1 != empty_style() {
            reset_code()
        } else {
            Seq::empty()
        }) + seq!['\n']
    }
}

/// The lines of the first `n` rows.
pub open spec fn all_lines(c: Seq<Seq<char>>, k: Seq<Seq<CellKind>>, o: Seq<Seq<Style>>, t: Theme, apply: bool, n: int) -> Seq<char>
    decreases n,
{
    if n <= 0 {
        Seq::empty()
    } else {
        all_lines(c, k, o, t, apply, n - 1) + row_line(c[n - 1], k[n - 1], o[n - 1], t, apply)
    }
}

/// `s` with trailing blank lines dropped (at most one newline stays at the end).
pub open spec fn drop_trailing_blank(s: Seq<char>) -> Seq<char>
    decreases s.len(),
{
    if s.len() >= 2 && s[s.len() - 1] == '\n' && s[s.len() - 2] == '\n' {
        drop_trailing_blank(s.drop_last())
    } else {
        s
    }
}

/// `s` with its leading newlines dropped.
pub open spec fn drop_leading_newlines(s: Seq<char>) -> Seq<char>
    decreases s.len(),
{
    if s.len() > 0 && s[0] == '\n' {
        drop_leading_newlines(s.drop_first())
    } else {
        s
    }
}

/// The text emitted for a canvas: its lines, without leading or trailing
/// blank lines. Overrides apply unless the theme is plain.
pub open spec fn emit_text(cv: Canvas, t: Theme) -> Seq<char> {
    drop_leading_newlines(
        drop_trailing_blank(
            all_lines(cv.chars_g(), cv.kinds_g(), cv.over_g(), t, !plain_theme(t), cv.height()),
        ),
    )
}

/// With a plain theme every line is the row's characters up to its last
/// non-space character: no escape sequence is emitted.
pub proof fn law_plain_rows(c: Seq<char>, k: Seq<CellKind>, o: Seq<Style>, t: Theme, i: int)
    requires
        plain_theme(t),
        0 <= i <= c.len(),
        i <= k.len(),
    ensures
        row_text(c, k, o, t, false, i) == (c.take(i), empty_style()),
    decreases i,
{
    if i > 0 {
        law_plain_rows(c, k, o, t, i - 1);
        assert(c.take(i - 1) + Seq::<char>::empty() + seq![c[i - 1]] =~= c.take(i));
    }
}

fn emit_row(
    out: &mut String,
    c: &Vec<char>,
    k: &Vec<CellKind>,
    o: &Vec<Style>,
    theme: &Theme,
    apply: bool,
)
    requires
        c.len() == k.len(),
        c.len() == o.len(),
    ensures
        final(out)@ == old(out)@ + row_line(c@, k@, o@, *theme, apply),
{
    let mut end: usize = c.len();
    while end > 0 && !(c[end - 1] != ' ' || (apply && !o[end - 1].is_empty()))
        invariant
            end <= c.len(),
            c.len() == o.len(),
            row_end(c@, o@, apply, c.len() as int) == row_end(c@, o@, apply, end as int),
        decreases end,
    {
        end -= 1;
    }
    if end == 0 {
        push_char(out, '\n');
        return;
    }
    let mut current = Style::new();
    let mut i: usize = 0;
    let ghost base = out@;
    while i < end
        invariant
            i <= end,
            end <= c.len(),
            c.len() == k.len(),
            c.len() == o.len(),
            out@ == base + row_text(c@, k@, o@, *theme, apply, i as int).0,
            current == row_text(c@, k@, o@, *theme, apply, i as int).1,
        decreases end - i,
    {
        let ch = c[i];
        let kind = k[i];
        let b = theme.style_for(kind);
        let want = if apply {
            combine_style(b, o[i], kind)
        } else {
            b
        };
        let ghost before = out@;
        if want != current {
            if !current.is_empty() {
                out.append("\x1b[0m");
            }
            want.write(out);
            current = want;
            proof {
                let prev = row_text(c@, k@, o@, *theme, apply, i as int);
                let sw = (if prev.1 != empty_style() {
                    reset_code()
                } else {
                    Seq::empty()
                }) + style_code(want);
                assert(out@ == before + sw);
            }
        }
        let ghost mid2 = out@;
        push_char(out, ch);
        proof {
            let prev = row_text(c@, k@, o@, *theme, apply, i as int);
            let sw = if want != prev.1 {
                (if prev.1 != empty_style() {
                    reset_code()
                } else {
                    Seq::empty()
                }) + style_code(want)
            } else {
                Seq::empty()
            };
            assert(mid2 == before + sw);
            assert(out@ =~= base + (prev.0 + sw + seq![c@[i as int]]));
        }
        i += 1;
    }
    if !current.is_empty() {
        out.append("\x1b[0m");
    }
    push_char(out, '\n');
    proof {
        let r = row_text(c@, k@, o@, *theme, apply, end as int);
        assert(out@ =~= base + (r.0 + (if r.1 != empty_style() {
            reset_code()
        } else {
            Seq::empty()
        }) + seq!['\n']));
    }
}

/// Emits the canvas as text, styled by `theme`.
pub fn emit(canvas: &Canvas, theme: &Theme) -> (r: String)
    requires
        canvas.wf(),
    ensures
        r@ == emit_text(*canvas, *theme),
{
    let apply = !theme.is_plain();
    let mut out = String::new();
    let n = canvas.chars.len();
    let mut y: usize = 0;
    while y < n
        invariant
            canvas.wf(),
            n == canvas.height(),
            y <= n,
            out@ == all_lines(canvas.chars_g(), canvas.kinds_g(), canvas.over_g(), *theme, apply, y as int),
        decreases n - y,
    {
        proof {
            assert(canvas.chars_g()[y as int].len() == canvas.width_of());
            assert(canvas.kinds_g()[y as int].len() == canvas.width_of());
            assert(canvas.over_g()[y as int].len() == canvas.width_of());
        }
        emit_row(&mut out, &canvas.chars[y], &canvas.kinds[y], &canvas.override_style[y], theme, apply);
        y += 1;
    }
    let mut v = chars_of_string(&out);
    let ghost full = v@;
    while v.len() >= 2 && v[v.len() - 1] == '\n' && v[v.len() - 2] == '\n'
        invariant
            drop_trailing_blank(v@) == drop_trailing_blank(full),
        decreases v.len(),
    {
        proof {
            assert(v@.drop_last() == v@.subrange(0, v.len() - 1));
        }
        v.pop();
    }
    let mut k: usize = 0;
    assert(v@.skip(0) =~= v@);
    while k < v.len() && v[k] == '\n'
        invariant
            k <= v.len(),
            drop_leading_newlines(v@.skip(k as int)) == drop_leading_newlines(v@),
        decreases v.len() - k,
    {
        proof {
            assert(v@.skip(k as int).drop_first() == v@.skip(k + 1));
        }
        k += 1;
    }
    let rest = crate::text::slice(&v, k, v.len());
    proof {
        assert(rest@ == v@.skip(k as int));
        assert(drop_trailing_blank(v@) == v@);
        assert(drop_leading_newlines(rest@) == rest@);
    }
    string_of(&rest)
}

// ---------------------------------------------------------------------------
// Edge ports.
/// `a + b`, capped at `usize::MAX`.
pub open spec fn sadd(a: usize, b: usize) -> usize {
    if a + b > usize::MAX {
        usize::MAX
    } else {
        (a + b) as usize
    }
}

/// `a - b`, floored at zero.
pub open spec fn ssub(a: usize, b: usize) -> usize {
    if a >= b {
        (a - b) as usize
    } else {
        0
    }
}

/// Position and extent of a node across the flow.
pub open spec fn minor_span(n: Node, dir: InnerDir) -> (usize, usize) {
    match dir {
        InnerDir::TD => (n.x, n.width),
        InnerDir::LR => (n.y, n.height),
    }
}

/// Cells across the flow where an edge may attach to a node: inside the
/// border for a box of three or more cells, the whole extent for a
/// thinner one, the single cell of a dummy.
pub open spec fn inner_range_spec(n: Node, dir: InnerDir) -> (usize, usize) {
    let (p, len) = minor_span(n, dir);
    if n.is_dummy {
        (p, p)
    } else if len >= 3 {
        (sadd(p, 1), ssub(sadd(p, len), 2))
    } else {
        (p, sadd(p, ssub(len, 1)))
    }
}

/// Middle cell of a node across the flow.
pub open spec fn minor_center_spec(n: Node, dir: InnerDir) -> usize {
    let (p, len) = minor_span(n, dir);
    sadd(p, len / 2)
}

fn inner_range(n: &Node, dir: InnerDir) -> (r: (usize, usize))
    ensures
        r == inner_range_spec(*n, dir),
{
    let (p, len) = match dir {
        InnerDir::TD => (n.x, n.width),
        InnerDir::LR => (n.y, n.height),
    };
    if n.is_dummy {
        (p, p)
    } else if len >= 3 {
        (p.saturating_add(1), p.saturating_add(len).saturating_sub(2))
    } else {
        (p, p.saturating_add(len.saturating_sub(1)))
    }
}

fn minor_center(n: &Node, dir: InnerDir) -> (r: usize)
    ensures
        r == minor_center_spec(*n, dir),
{
    match dir {
        InnerDir::TD => n.x.saturating_add(n.width / 2),
        InnerDir::LR => n.y.saturating_add(n.height / 2),
    }
}

/// `v` clamped into `[lo, hi]` (the lower bound checked first).
pub open spec fn clamped(v: usize, lo: usize, hi: usize) -> usize {
    if v < lo {
        lo
    } else if v > hi {
        hi
    } else {
        v
    }
}

fn clamp(v: usize, lo: usize, hi: usize) -> (r: usize)
    ensures
        r == clamped(v, lo, hi),
{
    if v < lo {
        lo
    } else if v > hi {
        hi
    } else {
        v
    }
}

pub open spec fn within(v: usize, r: (usize, usize)) -> bool {
    r.0 <= v <= r.1
}

/// Where an edge leaves `src` and enters `dst`, across the flow: the
/// target's center if both ends can take it, else the source's center,
/// else the middle of the overlap of the two ranges, else each end's
/// nearest cell to the other's center.
pub open spec fn preferred(src: Node, dst: Node, dir: InnerDir) -> (usize, usize) {
    let s = inner_range_spec(src, dir);
    let d = inner_range_spec(dst, dir);
    let dc = minor_center_spec(dst, dir);
    let sc = minor_center_spec(src, dir);
    let olo = if s.0 > d.0 { s.0 } else { d.0 };
    let ohi = if s.1 < d.1 { s.1 } else { d.1 };
    if within(dc, s) && within(dc, d) {
        (dc, dc)
    } else if within(sc, s) && within(sc, d) {
        (sc, sc)
    } else if olo <= ohi {
        (((olo + ohi) / 2) as usize, ((olo + ohi) / 2) as usize)
    } else {
        (clamped(dc, s.0, s.1), clamped(sc, d.0, d.1))
    }
}

fn preferred_endpoints(src: &Node, dst: &Node, dir: InnerDir) -> (r: (usize, usize))
    ensures
        r == preferred(*src, *dst, dir),
        inner_range_spec(*src, dir).0 <= inner_range_spec(*src, dir).1 ==> within(r.0, inner_range_spec(*src, dir)),
        inner_range_spec(*dst, dir).0 <= inner_range_spec(*dst, dir).1 ==> within(r.1, inner_range_spec(*dst, dir)),
{
    let (slo, shi) = inner_range(src, dir);
    let (dlo, dhi) = inner_range(dst, dir);
    let dst_center = minor_center(dst, dir);
    if dst_center >= slo && dst_center <= shi && dst_center >= dlo && dst_center <= dhi {
        return (dst_center, dst_center);
    }
    let src_center = minor_center(src, dir);
    if src_center >= slo && src_center <= shi && src_center >= dlo && src_center <= dhi {
        return (src_center, src_center);
    }
    let overlap_lo = if slo > dlo {
        slo
    } else {
        dlo
    };
    let overlap_hi = if shi < dhi {
        shi
    } else {
        dhi
    };
    if overlap_lo <= overlap_hi {
        let mid = overlap_lo + (overlap_hi - overlap_lo) / 2;
        assert(mid == (overlap_lo + overlap_hi) / 2);
        (mid, mid)
    } else {
        (clamp(dst_center, slo, shi), clamp(src_center, dlo, dhi))
    }
}

/// The ports already lie in `[lo, hi]` and strictly increase.
pub open spec fn spread_already(p: Seq<usize>, lo: usize, hi: usize) -> bool {
    &&& forall|j: int| 0 <= j < p.len() ==> lo <= #[trigger] p[j] <= hi
    &&& forall|j: int| 0 <= j < p.len() - 1 ==> #[trigger] p[j] < p[j + 1]
}

/// Spreads the ports of edges that share a node (sorted by where their
/// other ends lie) so they are strictly increasing and stay in
/// `[lo, hi]`: raised to `lo`, bumped forward past their left neighbor,
/// capped at `hi`, then pulled back from the right where they collide.
fn spread_ports(ports: &mut Vec<usize>, lo: usize, hi: usize)
    ensures
        final(ports).len() == old(ports).len(),
        lo <= hi ==> forall|j: int| 0 <= j < final(ports).len() ==> lo <= #[trigger] final(ports)@[j] <= hi,
        lo <= hi && old(ports).len() <= hi - lo + 1 ==> forall|j: int|
            0 <= j < final(ports).len() - 1 ==> #[trigger] final(ports)@[j] < final(ports)@[j + 1],
        spread_already(old(ports)@, lo, hi) ==> final(ports)@ == old(ports)@,
{
    let n = ports.len();
    let ghost orig = ports@;
    let ghost sp = spread_already(orig, lo, hi);
    // Raise to lo.
    let mut i: usize = 0;
    while i < n
        invariant
            n == ports.len(),
            i <= n,
            forall|j: int| 0 <= j < i ==> lo <= #[trigger] ports@[j],
            sp == spread_already(orig, lo, hi),
            sp ==> ports@ == orig,
        decreases n - i,
    {
        if ports[i] < lo {
            ports.set(i, lo);
        }
        i += 1;
    }
    let ghost start = ports@;
    let ghost ok = lo <= hi;
    let ghost fits = ok && n <= hi - lo + 1;
    // Forward: strictly increasing.
    let mut i: usize = 1;
    while i < n
        invariant
            n == ports.len(),
            n == start.len(),
            1 <= i || n == 0,
            ok == (lo <= hi && (forall|j: int| 0 <= j < start.len() ==> lo <= #[trigger] start[j])),
            fits == (ok && n <= hi - lo + 1),
            forall|j: int| i <= j < n ==> #[trigger] ports@[j] == start[j],
            ok ==> forall|j: int| 0 <= j < n && j < i ==> (#[trigger] ports@[j] >= lo + j || ports@[j] == usize::MAX),
            ok ==> forall|j: int| 0 <= j < n ==> lo <= #[trigger] ports@[j],
            forall|j: int| 0 < j < i && j < n ==> (ports@[j - 1] < #[trigger] ports@[j] || ports@[j] == usize::MAX),
            sp == spread_already(orig, lo, hi),
            sp ==> ports@ == orig,
        decreases n - i,
    {
        proof {
            if sp {
                assert(orig[i - 1] < orig[(i - 1) + 1]);
            }
        }
        if ports[i] <= ports[i - 1] {
            let v = ports[i - 1].saturating_add(1);
            ports.set(i, v);
        }
        i += 1;
    }
    // Cap at hi.
    let mut i: usize = 0;
    while i < n
        invariant
            n == ports.len(),
            n == start.len(),
            i <= n,
            ok == (lo <= hi && (forall|j: int| 0 <= j < start.len() ==> lo <= #[trigger] start[j])),
            fits == (ok && n <= hi - lo + 1),
            ok ==> forall|j: int| 0 <= j < n ==> lo <= #[trigger] ports@[j],
            ok ==> forall|j: int| i <= j < n ==> (#[trigger] ports@[j] >= lo + j || ports@[j] == usize::MAX),
            fits ==> forall|j: int| 0 <= j < i ==> #[trigger] ports@[j] >= lo + j,
            forall|j: int| 0 <= j < i ==> #[trigger] ports@[j] <= hi,
            sp == spread_already(orig, lo, hi),
            sp ==> ports@ == orig,
        decreases n - i,
    {
        if ports[i] > hi {
            ports.set(i, hi);
        }
        i += 1;
    }
    // Backward: pull collisions back.
    let mut i: usize = n;
    while i > 1
        invariant
            n == ports.len(),
            i <= n,
            ok == (lo <= hi && (forall|j: int| 0 <= j < start.len() ==> lo <= #[trigger] start[j])),
            fits == (ok && n <= hi - lo + 1),
            ok ==> forall|j: int| 0 <= j < n ==> lo <= #[trigger] ports@[j],
            forall|j: int| 0 <= j < n ==> #[trigger] ports@[j] <= hi,
            fits ==> forall|j: int| 0 <= j < n ==> #[trigger] ports@[j] >= lo + j,
            fits ==> forall|j: int| i <= j < n ==> ports@[j - 1] < #[trigger] ports@[j] || j == 0,
            sp == spread_already(orig, lo, hi),
            sp ==> ports@ == orig,
        decreases i,
    {
        let k = i - 1;
        proof {
            if sp {
                assert(orig[k - 1] < orig[(k - 1) + 1]);
            }
        }
        if ports[k] <= ports[k - 1] && ports[k - 1] > lo {
            let a = ports[k].saturating_sub(1);
            let v = if a > lo {
                a
            } else {
                lo
            };
            ports.set(k - 1, v);
        }
        i -= 1;
    }
}

pub open spec fn inner_dir_of(dir: Direction) -> InnerDir {
    if vertical(dir) {
        InnerDir::TD
    } else {
        InnerDir::LR
    }
}

/// `p` lies in the node's attach range whenever that range is non-empty.
pub open spec fn port_ok(p: usize, n: Node, dir: InnerDir) -> bool {
    inner_range_spec(n, dir).0 <= inner_range_spec(n, dir).1 ==> within(p, inner_range_spec(n, dir))
}

/// Endpoints of edge `e` in canvas coordinates: it leaves the source's
/// far side and enters the target's near side, at ports in the nodes'
/// attach ranges.
pub open spec fn endpoints_ok(g: Graph, e: Edge, r: (usize, usize, usize, usize)) -> bool {
    let src = g.nodes@[e.from as int];
    let dst = g.nodes@[e.to as int];
    let dir = inner_dir_of(g.dir);
    match dir {
        InnerDir::TD => r.1 == sadd(src.y, src.height) && r.3 == dst.y && port_ok(r.0, src, dir) && port_ok(r.2, dst, dir),
        InnerDir::LR => r.0 == sadd(src.x, src.width) && r.2 == dst.x && port_ok(r.1, src, dir) && port_ok(r.3, dst, dir),
    }
}

/// Spreads the ports (in `ports`, one per edge) of the edges in `group`,
/// which all attach to `node` at the end that `ports` describes; `keys`
/// orders them by where their other ends lie.
proof fn lemma_strictly_increasing(s: Seq<usize>, a: int, b: int)
    requires
        0 <= a < b < s.len(),
        forall|j: int| 0 <= j < s.len() - 1 ==> #[trigger] s[j] < s[j + 1],
    ensures
        s[a] < s[b],
    decreases b - a,
{
    if b > a + 1 {
        lemma_strictly_increasing(s, a, b - 1);
        assert(s[b - 1] < s[b]);
    }
}

proof fn lemma_group_distinct(ports: Seq<usize>, group: Seq<usize>, sorted: Seq<usize>, ps: Seq<usize>)
    requires
        group.no_duplicates(),
        sorted.no_duplicates(),
        sorted.to_multiset() == group.to_multiset(),
        sorted.len() == ps.len(),
        forall|q: int| 0 <= q < sorted.len() ==> #[trigger] sorted[q] < ports.len(),
        forall|q: int| 0 <= q < sorted.len() ==> #[trigger] ports[sorted[q] as int] == ps[q],
        forall|q: int| 0 <= q < ps.len() - 1 ==> #[trigger] ps[q] < ps[q + 1],
    ensures
        forall|j: int, k: int|
            0 <= j < group.len() && 0 <= k < group.len() && j != k ==> #[trigger] ports[group[j] as int]
                != #[trigger] ports[group[k] as int],
{
    broadcast use vstd::seq_lib::group_to_multiset_ensures;

    assert forall|j: int, k: int|
        0 <= j < group.len() && 0 <= k < group.len() && j != k implies #[trigger] ports[group[j] as int]
            != #[trigger] ports[group[k] as int] by {
        assert(sorted.to_multiset().count(group[j]) > 0);
        assert(sorted.to_multiset().count(group[k]) > 0);
        let a = choose|a: int| 0 <= a < sorted.len() && sorted[a] == group[j];
        let b = choose|b: int| 0 <= b < sorted.len() && sorted[b] == group[k];
        assert(a != b);
        assert(ports[sorted[a] as int] == ps[a]);
        assert(ports[sorted[b] as int] == ps[b]);
        if a < b {
            lemma_strictly_increasing(ps, a, b);
        } else {
            lemma_strictly_increasing(ps, b, a);
        }
    }
}

#[verifier::rlimit(40)]
fn spread_group(
    g: &Graph,
    node: NodeId,
    group: &Vec<usize>,
    keys: &Vec<(usize, usize)>,
    ports: &mut Vec<usize>,
    outgoing: bool,
    dir: InnerDir,
)
    requires
        g.shape_ok(),
        node < g.nodes.len(),
        old(ports).len() == g.edges.len(),
        keys.len() == g.edges.len(),
        forall|j: int| 0 <= j < group.len() ==> #[trigger] group@[j] < g.edges.len(),
        forall|j: int|
            0 <= j < group.len() ==> (if outgoing {
                g.edges@[#[trigger] group@[j] as int].from == node
            } else {
                g.edges@[#[trigger] group@[j] as int].to == node
            }),
        forall|i: int|
            0 <= i < g.edges.len() ==> port_ok(
                #[trigger] old(ports)@[i],
                g.nodes@[(if outgoing { g.edges@[i].from } else { g.edges@[i].to }) as int],
                dir,
            ),
    ensures
        final(ports).len() == g.edges.len(),
        forall|i: int|
            0 <= i < g.edges.len() ==> port_ok(
                #[trigger] final(ports)@[i],
                g.nodes@[(if outgoing { g.edges@[i].from } else { g.edges@[i].to }) as int],
                dir,
            ),
        forall|i: int| 0 <= i < g.edges.len() && !group@.contains(i as usize) ==> #[trigger] final(ports)@[i] == old(ports)@[i],
        group.len() < 2 ==> final(ports)@ == old(ports)@,
        ({
            let (lo, hi) = inner_range_spec(g.nodes@[node as int], dir);
            group@.no_duplicates() && lo <= hi && group.len() <= hi - lo + 1 ==> forall|j: int, k: int|
                0 <= j < group.len() && 0 <= k < group.len() && j != k ==> #[trigger] final(ports)@[group@[j] as int]
                    != #[trigger] final(ports)@[group@[k] as int]
        }),
{
    broadcast use vstd::seq_lib::group_to_multiset_ensures;

    if group.len() < 2 {
        return;
    }
    let (lo, hi) = inner_range(&g.nodes[node], dir);
    let mut sorted: Vec<usize> = Vec::new();
    let mut j: usize = 0;
    while j < group.len()
        invariant
            j <= group.len(),
            sorted@ == group@.take(j as int),
        decreases group.len() - j,
    {
        sorted.push(group[j]);
        proof {
            assert(sorted@ =~= group@.take(j + 1));
        }
        j += 1;
    }
    proof {
        assert(group@.take(group.len() as int) =~= group@);
    }
    crate::layout::sort_by_keys(&mut sorted, keys);
    proof {
        assert forall|j: int| 0 <= j < sorted.len() implies group@.contains(#[trigger] sorted@[j]) by {
            assert(sorted@.to_multiset().count(sorted@[j]) > 0);
        }
    }
    let mut ps: Vec<usize> = Vec::new();
    let mut j: usize = 0;
    while j < sorted.len()
        invariant
            j <= sorted.len(),
            ps.len() == j,
            ports.len() == g.edges.len(),
            forall|k: int| 0 <= k < sorted.len() ==> #[trigger] sorted@[k] < g.edges.len(),
            forall|k: int| 0 <= k < j ==> #[trigger] ps@[k] == ports@[sorted@[k] as int],
        decreases sorted.len() - j,
    {
        ps.push(ports[sorted[j]]);
        j += 1;
    }
    proof {
        assert forall|k: int| 0 <= k < ps.len() && lo <= hi implies lo <= #[trigger] ps@[k] by {
            let e = sorted@[k];
            assert(group@.contains(e));
            let m = choose|m: int| 0 <= m < group.len() && group@[m] == e;
            assert(port_ok(ports@[e as int], g.nodes@[(if outgoing { g.edges@[e as int].from } else { g.edges@[e as int].to }) as int], dir));
        }
    }
    spread_ports(&mut ps, lo, hi);
    let ghost ps0 = ps@;
    proof {
        assert(group@.take(group.len() as int) =~= group@);
        if group@.no_duplicates() {
            group@.lemma_multiset_has_no_duplicates();
            sorted@.lemma_multiset_has_no_duplicates_conv();
        }
        assert(sorted@.take(0) =~= Seq::<usize>::empty());
        assert(lo <= hi ==> forall|k: int| 0 <= k < ps.len() ==> lo <= #[trigger] ps@[k] <= hi);
    }
    let mut j: usize = 0;
    while j < sorted.len()
        invariant
            j <= sorted.len(),
            ps.len() == sorted.len(),
            ports.len() == g.edges.len(),
            forall|k: int| 0 <= k < sorted.len() ==> #[trigger] sorted@[k] < g.edges.len(),
            forall|k: int| 0 <= k < sorted.len() ==> group@.contains(#[trigger] sorted@[k]),
            forall|k: int| 0 <= k < ps.len() ==> (lo <= hi ==> lo <= #[trigger] ps@[k] <= hi),
            node < g.nodes.len(),
            g.shape_ok(),
            forall|j: int| 0 <= j < group.len() ==> #[trigger] group@[j] < g.edges.len(),
            forall|j: int|
                0 <= j < group.len() ==> (if outgoing {
                    g.edges@[#[trigger] group@[j] as int].from == node
                } else {
                    g.edges@[#[trigger] group@[j] as int].to == node
                }),
            (lo, hi) == inner_range_spec(g.nodes@[node as int], dir),
            sorted@.to_multiset() == group@.to_multiset(),
            ps0 == ps@,
            group@.no_duplicates() ==> sorted@.no_duplicates(),
            sorted@.no_duplicates() ==> forall|q: int| 0 <= q < j ==> #[trigger] ports@[sorted@[q] as int] == ps@[q],
            lo <= hi && ps.len() <= hi - lo + 1 ==> forall|q: int| 0 <= q < ps.len() - 1 ==> #[trigger] ps@[q] < ps@[q + 1],
            ps.len() == group.len(),
            forall|i: int| 0 <= i < g.edges.len() && !sorted@.take(j as int).contains(i as usize) ==> #[trigger] ports@[i] == old(ports)@[i],
            forall|i: int|
                0 <= i < g.edges.len() ==> port_ok(
                    #[trigger] ports@[i],
                    g.nodes@[(if outgoing { g.edges@[i].from } else { g.edges@[i].to }) as int],
                    dir,
                ),
        decreases sorted.len() - j,
    {
        let e = sorted[j];
        let ghost before = ports@;
        proof {
            assert(group@.contains(e));
            let m = choose|m: int| 0 <= m < group.len() && group@[m] == e;
            assert(group@[m] == e);
        }
        ports.set(e, ps[j]);
        proof {
            assert(sorted@.take(j + 1) =~= sorted@.take(j as int).push(e));
            assert forall|i: int| 0 <= i < g.edges.len() && !sorted@.take(j + 1).contains(i as usize) implies #[trigger] ports@[i] == old(ports)@[i] by {
                assert(sorted@.take(j + 1)[j as int] == e);
                if sorted@.take(j as int).contains(i as usize) {
                    let q = choose|q: int| 0 <= q < j && sorted@.take(j as int)[q] == i as usize;
                    assert(sorted@.take(j + 1)[q] == i as usize);
                }
                assert(ports@[i] == before[i]);
            }
            if sorted@.no_duplicates() {
                assert forall|q: int| 0 <= q < j + 1 implies #[trigger] ports@[sorted@[q] as int] == ps@[q] by {
                    if q < j {
                        assert(sorted@[q] != sorted@[j as int]);
                        assert(ports@[sorted@[q] as int] == before[sorted@[q] as int]);
                    }
                }
            }
            assert forall|i: int| 0 <= i < g.edges.len() implies port_ok(
                #[trigger] ports@[i],
                g.nodes@[(if outgoing { g.edges@[i].from } else { g.edges@[i].to }) as int],
                dir,
            ) by {
                if i != e {
                    assert(ports@[i] == before[i]);
                }
            }
        }
        j += 1;
    }
    proof {
        let (lo2, hi2) = inner_range_spec(g.nodes@[node as int], dir);
        if group@.no_duplicates() && lo2 <= hi2 && group.len() <= hi2 - lo2 + 1 {
            lemma_group_distinct(ports@, group@, sorted@, ps@);
        }
    }
}

fn compute_endpoints(g: &Graph) -> (r: Vec<(usize, usize, usize, usize)>)
    requires
        g.shape_ok(),
    ensures
        r.len() == g.edges.len(),
        forall|i: int| 0 <= i < g.edges.len() ==> endpoints_ok(*g, g.edges@[i], #[trigger] r@[i]),
{
    let dir = inner_dir(g.dir);
    let n_edges = g.edges.len();
    let mut exit_minor: Vec<usize> = Vec::new();
    let mut entry_minor: Vec<usize> = Vec::new();
    let mut to_keys: Vec<(usize, usize)> = Vec::new();
    let mut from_keys: Vec<(usize, usize)> = Vec::new();
    let mut i: usize = 0;
    while i < n_edges
        invariant
            g.shape_ok(),
            n_edges == g.edges.len(),
            i <= n_edges,
            exit_minor.len() == i,
            entry_minor.len() == i,
            to_keys.len() == i,
            from_keys.len() == i,
            dir == inner_dir_of(g.dir),
            forall|k: int| 0 <= k < i ==> port_ok(#[trigger] exit_minor@[k], g.nodes@[g.edges@[k].from as int], dir),
            forall|k: int| 0 <= k < i ==> port_ok(#[trigger] entry_minor@[k], g.nodes@[g.edges@[k].to as int], dir),
        decreases n_edges - i,
    {
        let from = g.edges[i].from;
        let to = g.edges[i].to;
        let (ex, en) = preferred_endpoints(&g.nodes[from], &g.nodes[to], dir);
        exit_minor.push(ex);
        entry_minor.push(en);
        to_keys.push((minor_center(&g.nodes[to], dir), 1));
        from_keys.push((minor_center(&g.nodes[from], dir), 1));
        i += 1;
    }
    let mut node: usize = 0;
    while node < g.nodes.len()
        invariant
            g.shape_ok(),
            n_edges == g.edges.len(),
            exit_minor.len() == n_edges,
            entry_minor.len() == n_edges,
            to_keys.len() == n_edges,
            from_keys.len() == n_edges,
            dir == inner_dir_of(g.dir),
            forall|k: int| 0 <= k < n_edges ==> port_ok(#[trigger] exit_minor@[k], g.nodes@[g.edges@[k].from as int], dir),
            forall|k: int| 0 <= k < n_edges ==> port_ok(#[trigger] entry_minor@[k], g.nodes@[g.edges@[k].to as int], dir),
        decreases g.nodes.len() - node,
    {
        let mut outs: Vec<usize> = Vec::new();
        let mut ins: Vec<usize> = Vec::new();
        let mut i: usize = 0;
        while i < n_edges
            invariant
                n_edges == g.edges.len(),
                i <= n_edges,
                forall|j: int| 0 <= j < outs.len() ==> #[trigger] outs@[j] < n_edges && g.edges@[outs@[j] as int].from == node,
                forall|j: int| 0 <= j < ins.len() ==> #[trigger] ins@[j] < n_edges && g.edges@[ins@[j] as int].to == node,
            decreases n_edges - i,
        {
            if g.edges[i].from == node {
                outs.push(i);
            }
            if g.edges[i].to == node {
                ins.push(i);
            }
            i += 1;
        }
        spread_group(g, node, &outs, &to_keys, &mut exit_minor, true, dir);
        spread_group(g, node, &ins, &from_keys, &mut entry_minor, false, dir);
        node += 1;
    }
    let mut r: Vec<(usize, usize, usize, usize)> = Vec::new();
    let mut i: usize = 0;
    while i < n_edges
        invariant
            g.shape_ok(),
            n_edges == g.edges.len(),
            i <= n_edges,
            r.len() == i,
            exit_minor.len() == n_edges,
            entry_minor.len() == n_edges,
            dir == inner_dir_of(g.dir),
            forall|k: int| 0 <= k < n_edges ==> port_ok(#[trigger] exit_minor@[k], g.nodes@[g.edges@[k].from as int], dir),
            forall|k: int| 0 <= k < n_edges ==> port_ok(#[trigger] entry_minor@[k], g.nodes@[g.edges@[k].to as int], dir),
            forall|k: int| 0 <= k < i ==> endpoints_ok(*g, g.edges@[k], #[trigger] r@[k]),
        decreases n_edges - i,
    {
        let src = &g.nodes[g.edges[i].from];
        let dst = &g.nodes[g.edges[i].to];
        let t = match dir {
            InnerDir::TD => (exit_minor[i], src.y.saturating_add(src.height), entry_minor[i], dst.y),
            InnerDir::LR => (src.x.saturating_add(src.width), exit_minor[i], dst.x, entry_minor[i]),
        };
        r.push(t);
        proof {
            assert(port_ok(exit_minor@[i as int], g.nodes@[g.edges@[i as int].from as int], dir));
            assert(port_ok(entry_minor@[i as int], g.nodes@[g.edges@[i as int].to as int], dir));
        }
        i += 1;
    }
    r
}

// ---------------------------------------------------------------------------
// What a drawing step may change.
/// Cell `(x, y)` reads the same in `a` and `b`, in every grid but the
/// overrides.
/// Cell `(x, y)` of `c`, where it lies on the canvas, is line art: an edge
/// segment or a crossing.
pub open spec fn line_cell(c: Canvas, x: int, y: int) -> bool {
    c.inside(x, y) ==> (c.kinds_g()[y][x] == CellKind::Edge || c.kinds_g()[y][x] == CellKind::Crossing)
}

/// `line_cell` at (major, minor) coordinates.
pub open spec fn lined(c: Canvas, dir: InnerDir, m: usize, n: usize) -> bool {
    line_cell(c, xy_of(dir, m, n).0 as int, xy_of(dir, m, n).1 as int)
}

/// `b` has `a`'s size, keeps every line cell of `a` a line cell, and has
/// no arrow head that `a` did not have.
pub open spec fn keeps_lines(a: Canvas, b: Canvas) -> bool {
    &&& b.height() == a.height()
    &&& b.width_of() == a.width_of()
    &&& forall|x: int, y: int| a.inside(x, y) && line_cell(a, x, y) ==> #[trigger] line_cell(b, x, y)
    &&& forall|x: int, y: int|
        a.inside(x, y) && #[trigger] b.kinds_g()[y][x] == CellKind::Arrow ==> a.kinds_g()[y][x] == CellKind::Arrow
}

proof fn lemma_keeps_trans(a: Canvas, b: Canvas, c: Canvas)
    requires
        a.wf(),
        keeps_lines(a, b),
        keeps_lines(b, c),
    ensures
        keeps_lines(a, c),
{
    assert forall|x: int, y: int| a.inside(x, y) && line_cell(a, x, y) implies #[trigger] line_cell(c, x, y) by {
        assert(line_cell(b, x, y));
    }
    assert forall|x: int, y: int| a.inside(x, y) && #[trigger] c.kinds_g()[y][x] == CellKind::Arrow implies a.kinds_g()[y][x]
        == CellKind::Arrow by {
        assert(b.inside(x, y));
    }
}

proof fn lemma_lined_keep(b: Canvas, c: Canvas, dir: InnerDir, m: usize, n: usize)
    requires
        keeps_lines(b, c),
        lined(b, dir, m, n),
    ensures
        lined(c, dir, m, n),
{
    let p = xy_of(dir, m, n);
    if b.inside(p.0 as int, p.1 as int) {
        assert(line_cell(c, p.0 as int, p.1 as int));
    }
}

/// Setting one cell keeps every other cell's line art.
#[verifier::spinoff_prover]
proof fn lemma_lined_set(b: Canvas, c: Canvas, dir: InnerDir, m: usize, n: usize, pm: usize, pn: usize)
    requires
        c.height() == b.height(),
        c.width_of() == b.width_of(),
        b.wf(),
        c.kinds_g() == (if b.inside(xy_of(dir, pm, pn).0 as int, xy_of(dir, pm, pn).1 as int) {
            upd(b.kinds_g(), xy_of(dir, pm, pn).0 as int, xy_of(dir, pm, pn).1 as int, CellKind::Arrow)
        } else {
            b.kinds_g()
        }),
        lined(b, dir, m, n),
        m != pm || n != pn,
    ensures
        lined(c, dir, m, n),
{
    let p = xy_of(dir, m, n);
    let q = xy_of(dir, pm, pn);
    assert(p != q);
    if b.inside(p.0 as int, p.1 as int) && b.inside(q.0 as int, q.1 as int) {
        let g = b.kinds_g();
        assert(g[q.1 as int].len() == b.width_of());
        if p.1 == q.1 {
            assert(p.0 != q.0);
            assert(upd(g, q.0 as int, q.1 as int, CellKind::Arrow)[p.1 as int] == g[q.1 as int].update(q.0 as int, CellKind::Arrow));
        } else {
            assert(upd(g, q.0 as int, q.1 as int, CellKind::Arrow)[p.1 as int] == g[p.1 as int]);
        }
        assert(c.kinds_g()[p.1 as int][p.0 as int] == b.kinds_g()[p.1 as int][p.0 as int]);
    }
}

proof fn lemma_keeps_refl(a: Canvas)
    ensures
        keeps_lines(a, a),
{
}

pub open spec fn cell_same(a: Canvas, b: Canvas, x: int, y: int) -> bool {
    &&& b.chars_g()[y][x] == a.chars_g()[y][x]
    &&& b.kinds_g()[y][x] == a.kinds_g()[y][x]
    &&& b.sides_g()[y][x] == a.sides_g()[y][x]
    &&& b.styles_g()[y][x] == a.styles_g()[y][x]
}

/// `b` is `a` with at most the cell `(px, py)` redrawn.
pub open spec fn only_at(a: Canvas, b: Canvas, px: int, py: int) -> bool {
    &&& b.wf()
    &&& b.height() == a.height()
    &&& b.width_of() == a.width_of()
    &&& b.over_g() == a.over_g()
    &&& forall|x: int, y: int| a.inside(x, y) && !(x == px && y == py) ==> #[trigger] cell_same(a, b, x, y)
}

/// `b` is `a` with cells redrawn only inside the rectangle
/// `[x0, x1] x [y0, y1]`.
pub open spec fn redrawn_within(a: Canvas, b: Canvas, x0: int, x1: int, y0: int, y1: int) -> bool {
    &&& b.wf()
    &&& b.height() == a.height()
    &&& b.width_of() == a.width_of()
    &&& b.over_g() == a.over_g()
    &&& forall|x: int, y: int|
        a.inside(x, y) && !(x0 <= x <= x1 && y0 <= y <= y1) ==> #[trigger] cell_same(a, b, x, y)
}

#[verifier::spinoff_prover]
proof fn lemma_set_only_at(a: Canvas, b: Canvas, px: usize, py: usize, ch: char, kind: CellKind)
    requires
        a.wf(),
        b.wf(),
        b.height() == a.height(),
        b.width_of() == a.width_of(),
        b.sides@ == a.sides@,
        b.cell_style@ == a.cell_style@,
        b.override_style@ == a.override_style@,
        b.chars_g() == (if a.inside(px as int, py as int) {
            upd(a.chars_g(), px as int, py as int, ch)
        } else {
            a.chars_g()
        }),
        b.kinds_g() == (if a.inside(px as int, py as int) {
            upd(a.kinds_g(), px as int, py as int, kind)
        } else {
            a.kinds_g()
        }),
    ensures
        only_at(a, b, px as int, py as int),
{
    assert forall|x: int, y: int| a.inside(x, y) && !(x == px && y == py) implies #[trigger] cell_same(a, b, x, y) by {
        assert(a.chars_g()[y].len() == a.width_of());
        assert(a.kinds_g()[y].len() == a.width_of());
    }
}

proof fn lemma_redrawn_step(a: Canvas, b: Canvas, c: Canvas, px: int, py: int, x0: int, x1: int, y0: int, y1: int)
    requires
        redrawn_within(a, b, x0, x1, y0, y1),
        only_at(b, c, px, py),
        (x0 <= px <= x1 && y0 <= py <= y1) || !b.inside(px, py),
    ensures
        redrawn_within(a, c, x0, x1, y0, y1),
{
    assert forall|x: int, y: int|
        a.inside(x, y) && !(x0 <= x <= x1 && y0 <= y <= y1) implies #[trigger] cell_same(a, c, x, y) by {
        assert(cell_same(a, b, x, y));
        assert(cell_same(b, c, x, y));
    }
}

proof fn lemma_redrawn_refl(a: Canvas, x0: int, x1: int, y0: int, y1: int)
    requires
        a.wf(),
    ensures
        redrawn_within(a, a, x0, x1, y0, y1),
{
    assert forall|x: int, y: int|
        a.inside(x, y) && !(x0 <= x <= x1 && y0 <= y <= y1) implies #[trigger] cell_same(a, a, x, y) by {}
}

proof fn lemma_redrawn_trans(a: Canvas, b: Canvas, c: Canvas, x0: int, x1: int, y0: int, y1: int)
    requires
        redrawn_within(a, b, x0, x1, y0, y1),
        redrawn_within(b, c, x0, x1, y0, y1),
    ensures
        redrawn_within(a, c, x0, x1, y0, y1),
{
    assert forall|x: int, y: int|
        a.inside(x, y) && !(x0 <= x <= x1 && y0 <= y <= y1) implies #[trigger] cell_same(a, c, x, y) by {
        assert(cell_same(a, b, x, y));
        assert(cell_same(b, c, x, y));
    }
}

proof fn lemma_redrawn_widen(a: Canvas, b: Canvas, x0: int, x1: int, y0: int, y1: int, u0: int, u1: int, v0: int, v1: int)
    requires
        redrawn_within(a, b, x0, x1, y0, y1),
        u0 <= x0,
        x1 <= u1,
        v0 <= y0,
        y1 <= v1,
    ensures
        redrawn_within(a, b, u0, u1, v0, v1),
{
    assert forall|x: int, y: int|
        a.inside(x, y) && !(u0 <= x <= u1 && v0 <= y <= v1) implies #[trigger] cell_same(a, b, x, y) by {
        assert(cell_same(a, b, x, y));
    }
}

#[verifier::spinoff_prover]
proof fn lemma_add_sides_only_at(a: Canvas, b: Canvas, px: usize, py: usize, new: u8, style: EdgeStyle, kind: CellKind)
    requires
        a.wf(),
        b.wf(),
        b.height() == a.height(),
        b.width_of() == a.width_of(),
        b.override_style@ == a.override_style@,
        if !a.inside(px as int, py as int) || new == 0 {
            &&& b.chars_g() == a.chars_g()
            &&& b.kinds_g() == a.kinds_g()
            &&& b.sides_g() == a.sides_g()
            &&& b.styles_g() == a.styles_g()
        } else if crossing(a.sides_g()[py as int][px as int], new) {
            &&& b.chars_g() == upd(a.chars_g(), px as int, py as int, '╳')
            &&& b.kinds_g() == upd(a.kinds_g(), px as int, py as int, CellKind::Crossing)
            &&& b.sides_g() == a.sides_g()
            &&& b.styles_g() == a.styles_g()
        } else {
            let c = a.sides_g()[py as int][px as int] | new;
            let st = dominant(style, a.styles_g()[py as int][px as int]);
            &&& b.sides_g() == upd(a.sides_g(), px as int, py as int, c)
            &&& b.styles_g() == upd(a.styles_g(), px as int, py as int, st)
            &&& b.chars_g() == upd(a.chars_g(), px as int, py as int, glyph(c, st))
            &&& b.kinds_g() == upd(a.kinds_g(), px as int, py as int, kind)
        },
    ensures
        only_at(a, b, px as int, py as int),
{
    assert forall|x: int, y: int| a.inside(x, y) && !(x == px && y == py) implies #[trigger] cell_same(a, b, x, y) by {
        assert(a.chars_g()[y].len() == a.width_of());
        assert(a.kinds_g()[y].len() == a.width_of());
        assert(a.sides_g()[y].len() == a.width_of());
        assert(a.styles_g()[y].len() == a.width_of());
    }
}

// ---------------------------------------------------------------------------
// Which characters a drawing step may leave.
/// The characters of line art, arrow heads, tips and borders.
pub open spec fn base_char(c: char) -> bool {
    ||| c == ' ' || c == '╳' || c == '×' || c == '○'
    ||| c == '▼' || c == '▲' || c == '▶' || c == '◀'
    ||| c == '│' || c == '┃' || c == '┊' || c == '─' || c == '━' || c == '┄'
    ||| c == '╭' || c == '╮' || c == '╰' || c == '╯'
    ||| c == '┌' || c == '┐' || c == '└' || c == '┘'
    ||| c == '┏' || c == '┓' || c == '┗' || c == '┛'
    ||| c == '┬' || c == '┴' || c == '├' || c == '┤' || c == '┼'
    ||| c == '┳' || c == '┻' || c == '┣' || c == '┫' || c == '╋'
}

pub open spec fn base_p() -> spec_fn(char) -> bool {
    |c: char| base_char(c)
}

/// Every cell of `b` shows what `a` showed there, or a character `p` allows.
pub open spec fn drawn_from(a: Canvas, b: Canvas, p: spec_fn(char) -> bool) -> bool {
    forall|x: int, y: int|
        b.inside(x, y) ==> (a.inside(x, y) && #[trigger] b.chars_g()[y][x] == a.chars_g()[y][x]) || p(
            b.chars_g()[y][x],
        )
}

proof fn lemma_glyph_base(sides: u8, style: EdgeStyle)
    ensures
        base_char(glyph(sides, style)),
{
}

proof fn lemma_drawn_refl(a: Canvas, p: spec_fn(char) -> bool)
    ensures
        drawn_from(a, a, p),
{
}

proof fn lemma_drawn_trans(a: Canvas, b: Canvas, c: Canvas, p: spec_fn(char) -> bool)
    requires
        drawn_from(a, b, p),
        drawn_from(b, c, p),
    ensures
        drawn_from(a, c, p),
{
    assert forall|x: int, y: int| c.inside(x, y) implies (a.inside(x, y) && #[trigger] c.chars_g()[y][x] == a.chars_g()[y][x]) || p(
        c.chars_g()[y][x],
    ) by {
        if !p(c.chars_g()[y][x]) {
            assert(b.inside(x, y) && c.chars_g()[y][x] == b.chars_g()[y][x]);
            assert((a.inside(x, y) && b.chars_g()[y][x] == a.chars_g()[y][x]) || p(b.chars_g()[y][x]));
        }
    }
}

#[verifier::spinoff_prover]
proof fn lemma_drawn_set(a: Canvas, b: Canvas, px: usize, py: usize, ch: char, p: spec_fn(char) -> bool)
    requires
        a.wf(),
        b.height() == a.height(),
        b.width_of() == a.width_of(),
        b.chars_g() == (if a.inside(px as int, py as int) {
            upd(a.chars_g(), px as int, py as int, ch)
        } else {
            a.chars_g()
        }),
        p(ch),
    ensures
        drawn_from(a, b, p),
{
    assert forall|x: int, y: int| b.inside(x, y) implies (a.inside(x, y) && #[trigger] b.chars_g()[y][x] == a.chars_g()[y][x]) || p(
        b.chars_g()[y][x],
    ) by {
        assert(a.chars_g()[y].len() == a.width_of());
    }
}

proof fn lemma_drawn_sides(a: Canvas, b: Canvas, px: usize, py: usize, new: u8, style: EdgeStyle, kind: CellKind)
    requires
        a.wf(),
        b.height() == a.height(),
        b.width_of() == a.width_of(),
        if !a.inside(px as int, py as int) || new == 0 {
            b.chars_g() == a.chars_g()
        } else if crossing(a.sides_g()[py as int][px as int], new) {
            b.chars_g() == upd(a.chars_g(), px as int, py as int, '╳')
        } else {
            let c = a.sides_g()[py as int][px as int] | new;
            let st = dominant(style, a.styles_g()[py as int][px as int]);
            b.chars_g() == upd(a.chars_g(), px as int, py as int, glyph(c, st))
        },
    ensures
        drawn_from(a, b, base_p()),
{
    if a.inside(px as int, py as int) && new != 0 && !crossing(a.sides_g()[py as int][px as int], new) {
        let c = a.sides_g()[py as int][px as int] | new;
        let st = dominant(style, a.styles_g()[py as int][px as int]);
        lemma_glyph_base(c, st);
        lemma_drawn_set(a, b, px, py, glyph(c, st), base_p());
    } else if a.inside(px as int, py as int) && new != 0 {
        lemma_drawn_set(a, b, px, py, '╳', base_p());
    } else {
        lemma_drawn_refl(a, base_p());
    }
}

// ---------------------------------------------------------------------------
// Edges.
/// The canvas rectangle `[x0, x1] x [y0, y1]` of the (major, minor)
/// rectangle `[m0, m1] x [n0, n1]`.
pub open spec fn axes_rect(dir: InnerDir, m0: int, m1: int, n0: int, n1: int) -> (int, int, int, int) {
    match dir {
        InnerDir::TD => (n0, n1, m0, m1),
        InnerDir::LR => (m0, m1, n0, n1),
    }
}

/// `b` is `a` redrawn only inside the (major, minor) rectangle.
pub open spec fn redrawn_axes(a: Canvas, b: Canvas, dir: InnerDir, m0: int, m1: int, n0: int, n1: int) -> bool {
    let r = axes_rect(dir, m0, m1, n0, n1);
    &&& redrawn_within(a, b, r.0, r.1, r.2, r.3)
    &&& drawn_from(a, b, base_p())
}

/// Cell `(x, y)` of `c` shows line art with `sides` added to what `a` had
/// there: a crossing where a plain vertical run meets a plain horizontal
/// one, else the combined sides in their glyph.
pub open spec fn sides_drawn(a: Canvas, c: Canvas, x: int, y: int, sides: u8, kind: CellKind) -> bool {
    a.inside(x, y) && sides != 0 ==> if crossing(a.sides_g()[y][x], sides) {
        c.chars_g()[y][x] == '╳' && c.kinds_g()[y][x] == CellKind::Crossing
    } else {
        &&& c.sides_g()[y][x] == (a.sides_g()[y][x] | sides)
        &&& c.chars_g()[y][x] == glyph(c.sides_g()[y][x], c.styles_g()[y][x])
        &&& c.kinds_g()[y][x] == kind
    }
}

proof fn lemma_sides_drawn(a: Canvas, b: Canvas, c: Canvas, px: usize, py: usize, new: u8, style: EdgeStyle, kind: CellKind)
    requires
        a.wf(),
        b.wf(),
        a.height() == b.height(),
        a.width_of() == b.width_of(),
        b.inside(px as int, py as int) ==> cell_same(a, b, px as int, py as int),
        b.height() == c.height(),
        b.width_of() == c.width_of(),
        if !b.inside(px as int, py as int) || new == 0 {
            &&& c.chars_g() == b.chars_g()
            &&& c.kinds_g() == b.kinds_g()
            &&& c.sides_g() == b.sides_g()
            &&& c.styles_g() == b.styles_g()
        } else if crossing(b.sides_g()[py as int][px as int], new) {
            &&& c.chars_g() == upd(b.chars_g(), px as int, py as int, '╳')
            &&& c.kinds_g() == upd(b.kinds_g(), px as int, py as int, CellKind::Crossing)
            &&& c.sides_g() == b.sides_g()
            &&& c.styles_g() == b.styles_g()
        } else {
            let cs = b.sides_g()[py as int][px as int] | new;
            let st = dominant(style, b.styles_g()[py as int][px as int]);
            &&& c.sides_g() == upd(b.sides_g(), px as int, py as int, cs)
            &&& c.styles_g() == upd(b.styles_g(), px as int, py as int, st)
            &&& c.chars_g() == upd(b.chars_g(), px as int, py as int, glyph(cs, st))
            &&& c.kinds_g() == upd(b.kinds_g(), px as int, py as int, kind)
        },
    ensures
        sides_drawn(a, c, px as int, py as int, new, kind),
{
    if b.inside(px as int, py as int) {
        assert(b.chars_g()[py as int].len() == b.width_of());
        assert(b.kinds_g()[py as int].len() == b.width_of());
        assert(b.sides_g()[py as int].len() == b.width_of());
        assert(b.styles_g()[py as int].len() == b.width_of());
    }
}

proof fn lemma_sides_kept(a: Canvas, c: Canvas, d: Canvas, x: int, y: int, sides: u8, kind: CellKind)
    requires
        sides_drawn(a, c, x, y, sides, kind),
        c.inside(x, y) ==> cell_same(c, d, x, y),
        a.height() == c.height(),
        a.width_of() == c.width_of(),
    ensures
        sides_drawn(a, d, x, y, sides, kind),
{
}

/// Line art along the flow: cells `m0 .. m1` at `minor`.
fn run_major(canvas: &mut Canvas, axes: Axes, m0: usize, m1: usize, minor: usize, sides: u8, style: EdgeStyle)
    requires
        old(canvas).wf(),
    ensures
        redrawn_axes(*old(canvas), *final(canvas), axes.dir, m0 as int, m1 - 1, minor as int, minor as int),
        forall|m: int|
            m0 <= m < m1 ==> sides_drawn(
                *old(canvas),
                *final(canvas),
                (#[trigger] xy_of(axes.dir, m as usize, minor)).0 as int,
                xy_of(axes.dir, m as usize, minor).1 as int,
                sides,
                CellKind::Edge,
            ),
        keeps_lines(*old(canvas), *final(canvas)),
        sides != 0 ==> forall|m: int| m0 <= m < m1 ==> #[trigger] lined(*final(canvas), axes.dir, m as usize, minor),
{
    let ghost a = *canvas;
    proof {
        let r = axes_rect(axes.dir, m0 as int, m1 - 1, minor as int, minor as int);
        lemma_redrawn_refl(a, r.0, r.1, r.2, r.3);
        lemma_drawn_refl(a, base_p());
        lemma_keeps_refl(a);
    }
    let mut m = m0;
    while m < m1
        invariant
            m0 <= m,
            a == *old(canvas),
            a.wf(),
            redrawn_axes(a, *canvas, axes.dir, m0 as int, m1 - 1, minor as int, minor as int),
            forall|k: int|
                m0 <= k < m ==> sides_drawn(
                    a,
                    *canvas,
                    (#[trigger] xy_of(axes.dir, k as usize, minor)).0 as int,
                    xy_of(axes.dir, k as usize, minor).1 as int,
                    sides,
                    CellKind::Edge,
                ),
            forall|k: int|
                m <= k < m1 ==> (canvas.inside((#[trigger] xy_of(axes.dir, k as usize, minor)).0 as int, xy_of(axes.dir, k as usize, minor).1 as int)
                    ==> cell_same(a, *canvas, xy_of(axes.dir, k as usize, minor).0 as int, xy_of(axes.dir, k as usize, minor).1 as int)),
            keeps_lines(a, *canvas),
            sides != 0 ==> forall|k: int| m0 <= k < m ==> #[trigger] lined(*canvas, axes.dir, k as usize, minor),
        decreases m1 - m,
    {
        let (x, y) = axes.xy(m, minor);
        let ghost b = *canvas;
        canvas.add_sides(x, y, sides, style, CellKind::Edge);
        proof {
            let r = axes_rect(axes.dir, m0 as int, m1 - 1, minor as int, minor as int);
            lemma_redrawn_step(a, b, *canvas, x as int, y as int, r.0, r.1, r.2, r.3);
            lemma_drawn_sides(b, *canvas, x, y, sides, style, CellKind::Edge);
            lemma_drawn_trans(a, b, *canvas, base_p());
            assert(xy_of(axes.dir, m as usize, minor) == (x, y));
            lemma_sides_drawn(a, b, *canvas, x, y, sides, style, CellKind::Edge);
            lemma_keeps_trans(a, b, *canvas);
            if sides != 0 {
                assert forall|k: int| m0 <= k < m + 1 implies #[trigger] lined(*canvas, axes.dir, k as usize, minor) by {
                    if k < m {
                        let p = xy_of(axes.dir, k as usize, minor);
                        assert(lined(b, axes.dir, k as usize, minor));
                        if b.inside(p.0 as int, p.1 as int) {
                            assert(line_cell(*canvas, p.0 as int, p.1 as int));
                        }
                    }
                }
            }
            assert forall|k: int| m0 <= k < m + 1 implies sides_drawn(
                a,
                *canvas,
                (#[trigger] xy_of(axes.dir, k as usize, minor)).0 as int,
                xy_of(axes.dir, k as usize, minor).1 as int,
                sides,
                CellKind::Edge,
            ) by {
                if k < m {
                    let p = xy_of(axes.dir, k as usize, minor);
                    lemma_sides_kept(a, b, *canvas, p.0 as int, p.1 as int, sides, CellKind::Edge);
                }
            }
            assert forall|k: int| m + 1 <= k < m1 && canvas.inside((#[trigger] xy_of(axes.dir, k as usize, minor)).0 as int, xy_of(axes.dir, k as usize, minor).1 as int)
                implies cell_same(a, *canvas, xy_of(axes.dir, k as usize, minor).0 as int, xy_of(axes.dir, k as usize, minor).1 as int) by {
                let p = xy_of(axes.dir, k as usize, minor);
                if canvas.inside(p.0 as int, p.1 as int) {
                    assert(cell_same(b, *canvas, p.0 as int, p.1 as int));
                }
            }
        }
        m += 1;
    }
}

/// Line art across the flow: cells `n0 .. n1` at `major`.
fn run_minor(canvas: &mut Canvas, axes: Axes, major: usize, n0: usize, n1: usize, sides: u8, style: EdgeStyle)
    requires
        old(canvas).wf(),
    ensures
        redrawn_axes(*old(canvas), *final(canvas), axes.dir, major as int, major as int, n0 as int, n1 - 1),
        forall|n: int|
            n0 <= n < n1 ==> sides_drawn(
                *old(canvas),
                *final(canvas),
                (#[trigger] xy_of(axes.dir, major, n as usize)).0 as int,
                xy_of(axes.dir, major, n as usize).1 as int,
                sides,
                CellKind::Edge,
            ),
{
    let ghost a = *canvas;
    proof {
        let r = axes_rect(axes.dir, major as int, major as int, n0 as int, n1 - 1);
        lemma_redrawn_refl(a, r.0, r.1, r.2, r.3);
        lemma_drawn_refl(a, base_p());
    }
    let mut n = n0;
    while n < n1
        invariant
            n0 <= n,
            a == *old(canvas),
            a.wf(),
            redrawn_axes(a, *canvas, axes.dir, major as int, major as int, n0 as int, n1 - 1),
            forall|k: int|
                n0 <= k < n ==> sides_drawn(
                    a,
                    *canvas,
                    (#[trigger] xy_of(axes.dir, major, k as usize)).0 as int,
                    xy_of(axes.dir, major, k as usize).1 as int,
                    sides,
                    CellKind::Edge,
                ),
            forall|k: int|
                n <= k < n1 ==> (canvas.inside((#[trigger] xy_of(axes.dir, major, k as usize)).0 as int, xy_of(axes.dir, major, k as usize).1 as int)
                    ==> cell_same(a, *canvas, xy_of(axes.dir, major, k as usize).0 as int, xy_of(axes.dir, major, k as usize).1 as int)),
        decreases n1 - n,
    {
        let (x, y) = axes.xy(major, n);
        let ghost b = *canvas;
        canvas.add_sides(x, y, sides, style, CellKind::Edge);
        proof {
            let r = axes_rect(axes.dir, major as int, major as int, n0 as int, n1 - 1);
            lemma_redrawn_step(a, b, *canvas, x as int, y as int, r.0, r.1, r.2, r.3);
            lemma_drawn_sides(b, *canvas, x, y, sides, style, CellKind::Edge);
            lemma_drawn_trans(a, b, *canvas, base_p());
            assert(xy_of(axes.dir, major, n as usize) == (x, y));
            lemma_sides_drawn(a, b, *canvas, x, y, sides, style, CellKind::Edge);
            assert forall|k: int| n0 <= k < n + 1 implies sides_drawn(
                a,
                *canvas,
                (#[trigger] xy_of(axes.dir, major, k as usize)).0 as int,
                xy_of(axes.dir, major, k as usize).1 as int,
                sides,
                CellKind::Edge,
            ) by {
                if k < n {
                    let p = xy_of(axes.dir, major, k as usize);
                    lemma_sides_kept(a, b, *canvas, p.0 as int, p.1 as int, sides, CellKind::Edge);
                }
            }
            assert forall|k: int| n + 1 <= k < n1 && canvas.inside((#[trigger] xy_of(axes.dir, major, k as usize)).0 as int, xy_of(axes.dir, major, k as usize).1 as int)
                implies cell_same(a, *canvas, xy_of(axes.dir, major, k as usize).0 as int, xy_of(axes.dir, major, k as usize).1 as int) by {
                let p = xy_of(axes.dir, major, k as usize);
                if canvas.inside(p.0 as int, p.1 as int) {
                    assert(cell_same(b, *canvas, p.0 as int, p.1 as int));
                }
            }
        }
        n += 1;
    }
}

/// One cell drawn at (major, minor).
proof fn lemma_axes_cell(a: Canvas, b: Canvas, c: Canvas, dir: InnerDir, m: usize, n: usize, m0: int, m1: int, n0: int, n1: int)
    requires
        redrawn_axes(a, b, dir, m0, m1, n0, n1),
        only_at(b, c, xy_of(dir, m, n).0 as int, xy_of(dir, m, n).1 as int),
        drawn_from(b, c, base_p()),
        m0 <= m <= m1,
        n0 <= n <= n1,
    ensures
        redrawn_axes(a, c, dir, m0, m1, n0, n1),
{
    let r = axes_rect(dir, m0, m1, n0, n1);
    lemma_redrawn_step(a, b, c, xy_of(dir, m, n).0 as int, xy_of(dir, m, n).1 as int, r.0, r.1, r.2, r.3);
    lemma_drawn_trans(a, b, c, base_p());
}

proof fn lemma_axes_widen(a: Canvas, b: Canvas, dir: InnerDir, m0: int, m1: int, n0: int, n1: int, p0: int, p1: int, q0: int, q1: int)
    requires
        redrawn_axes(a, b, dir, m0, m1, n0, n1),
        p0 <= m0,
        m1 <= p1,
        q0 <= n0,
        n1 <= q1,
    ensures
        redrawn_axes(a, b, dir, p0, p1, q0, q1),
{
    let r = axes_rect(dir, m0, m1, n0, n1);
    let u = axes_rect(dir, p0, p1, q0, q1);
    lemma_redrawn_widen(a, b, r.0, r.1, r.2, r.3, u.0, u.1, u.2, u.3);
}

proof fn lemma_axes_trans(a: Canvas, b: Canvas, c: Canvas, dir: InnerDir, m0: int, m1: int, n0: int, n1: int)
    requires
        redrawn_axes(a, b, dir, m0, m1, n0, n1),
        redrawn_axes(b, c, dir, m0, m1, n0, n1),
    ensures
        redrawn_axes(a, c, dir, m0, m1, n0, n1),
{
    let r = axes_rect(dir, m0, m1, n0, n1);
    lemma_redrawn_trans(a, b, c, r.0, r.1, r.2, r.3);
    lemma_drawn_trans(a, b, c, base_p());
}

/// The character and kind at (major, minor), when that cell is on the canvas.
pub open spec fn shows_at(c: Canvas, dir: InnerDir, m: usize, n: usize, ch: char, kind: CellKind) -> bool {
    let p = xy_of(dir, m, n);
    c.inside(p.0 as int, p.1 as int) ==> c.chars_g()[p.1 as int][p.0 as int] == ch && c.kinds_g()[p.1 as int][p.0 as int] == kind
}

/// Middle of the major span `[sm, dm]`, where an L-shaped edge turns.
pub open spec fn bend(sm: usize, dm: usize) -> usize {
    ((sm + dm) / 2) as usize
}

/// Draws a straight or L-shaped edge from (sm, smn) to (dm, dmn) in
/// (major, minor) coordinates: along the flow to the middle, across to the
/// target's minor position, and on to the target; then the tips.
fn draw_edge(
    canvas: &mut Canvas,
    axes: Axes,
    sm: usize,
    smn: usize,
    dm: usize,
    dmn: usize,
    tip_fwd: ArrowTip,
    tip_back: bool,
    style: EdgeStyle,
)
    requires
        old(canvas).wf(),
    ensures
        final(canvas).wf(),
        dm <= sm ==> *final(canvas) == *old(canvas),
        redrawn_axes(
            *old(canvas),
            *final(canvas),
            axes.dir,
            sm as int,
            dm - 1,
            (if smn < dmn { smn } else { dmn }) as int,
            (if smn < dmn { dmn } else { smn }) as int,
        ),
        dm > sm && tip_back ==> shows_at(*final(canvas), axes.dir, sm, smn, back_arrow_of(axes.dir), CellKind::Arrow),
        dm > sm && (tip_glyph(tip_fwd, axes.dir) matches Some(ch)) && (smn == dmn || dm > bend(sm, dm) + 1)
            && !(tip_back && dm - 1 == sm && dmn == smn) ==> shows_at(
            *final(canvas),
            axes.dir,
            (dm - 1) as usize,
            dmn,
            tip_glyph(tip_fwd, axes.dir)->0,
            CellKind::Arrow,
        ),
{
    if dm <= sm {
        return;
    }
    let ghost a = *canvas;
    let ghost n0: int = (if smn < dmn { smn } else { dmn }) as int;
    let ghost n1: int = (if smn < dmn { dmn } else { smn }) as int;
    let fwd_char = tip_char(tip_fwd, axes);
    if smn == dmn {
        run_major(canvas, axes, sm, dm, smn, axes.major_sides(), style);
        proof {
            lemma_axes_widen(a, *canvas, axes.dir, sm as int, dm - 1, smn as int, smn as int, sm as int, dm - 1, n0, n1);
        }
        if let Some(ch) = fwd_char {
            let (x, y) = axes.xy(dm - 1, smn);
            let ghost b = *canvas;
            canvas.set(x, y, ch, CellKind::Arrow);
            proof {
                lemma_drawn_set(b, *canvas, x, y, ch, base_p());
                lemma_axes_cell(a, b, *canvas, axes.dir, (dm - 1) as usize, smn, sm as int, dm - 1, n0, n1);
            }
        }
        let ghost c1 = *canvas;
        if tip_back {
            let (x, y) = axes.xy(sm, smn);
            canvas.set(x, y, axes.back_arrow(), CellKind::Arrow);
            proof {
                lemma_drawn_set(c1, *canvas, x, y, back_arrow_of(axes.dir), base_p());
                lemma_axes_cell(a, c1, *canvas, axes.dir, sm, smn, sm as int, dm - 1, n0, n1);
                let p = xy_of(axes.dir, (dm - 1) as usize, dmn);
                if !(dm - 1 == sm) && c1.inside(p.0 as int, p.1 as int) {
                    assert(cell_same(c1, *canvas, p.0 as int, p.1 as int));
                }
            }
        }
        return;
    }
    let mid_m = sm + (dm - sm) / 2;
    assert(mid_m == bend(sm, dm));
    run_major(canvas, axes, sm, mid_m, smn, axes.major_sides(), style);
    proof {
        lemma_axes_widen(a, *canvas, axes.dir, sm as int, mid_m - 1, smn as int, smn as int, sm as int, dm - 1, n0, n1);
    }
    let toward_dst = if dmn > smn {
        axes.minor_fwd()
    } else {
        axes.minor_back()
    };
    let (x, y) = axes.xy(mid_m, smn);
    let ghost b = *canvas;
    canvas.add_sides(x, y, axes.major_back() | toward_dst, style, CellKind::Edge);
    proof {
        lemma_drawn_sides(b, *canvas, x, y, major_back_of(axes.dir) | toward_dst, style, CellKind::Edge);
        lemma_axes_cell(a, b, *canvas, axes.dir, mid_m, smn, sm as int, dm - 1, n0, n1);
    }
    let (lo, hi) = if smn < dmn {
        (smn, dmn)
    } else {
        (dmn, smn)
    };
    let ghost b = *canvas;
    run_minor(canvas, axes, mid_m, lo + 1, hi, axes.minor_sides(), style);
    proof {
        lemma_axes_widen(b, *canvas, axes.dir, mid_m as int, mid_m as int, lo + 1, hi - 1, sm as int, dm - 1, n0, n1);
        lemma_axes_trans(a, b, *canvas, axes.dir, sm as int, dm - 1, n0, n1);
    }
    let from_src = if smn < dmn {
        axes.minor_back()
    } else {
        axes.minor_fwd()
    };
    let (x, y) = axes.xy(mid_m, dmn);
    let ghost b = *canvas;
    canvas.add_sides(x, y, from_src | axes.major_fwd(), style, CellKind::Edge);
    proof {
        lemma_drawn_sides(b, *canvas, x, y, from_src | major_fwd_of(axes.dir), style, CellKind::Edge);
        lemma_axes_cell(a, b, *canvas, axes.dir, mid_m, dmn, sm as int, dm - 1, n0, n1);
    }
    let ghost b = *canvas;
    run_major(canvas, axes, mid_m + 1, dm, dmn, axes.major_sides(), style);
    proof {
        lemma_axes_widen(b, *canvas, axes.dir, mid_m + 1, dm - 1, dmn as int, dmn as int, sm as int, dm - 1, n0, n1);
        lemma_axes_trans(a, b, *canvas, axes.dir, sm as int, dm - 1, n0, n1);
    }
    if let Some(ch) = fwd_char {
        if dm > mid_m + 1 {
            let (x, y) = axes.xy(dm - 1, dmn);
            let ghost b = *canvas;
            canvas.set(x, y, ch, CellKind::Arrow);
            proof {
                lemma_drawn_set(b, *canvas, x, y, ch, base_p());
                lemma_axes_cell(a, b, *canvas, axes.dir, (dm - 1) as usize, dmn, sm as int, dm - 1, n0, n1);
            }
        }
    }
    let ghost c1 = *canvas;
    if tip_back {
        let (x, y) = axes.xy(sm, smn);
        canvas.set(x, y, axes.back_arrow(), CellKind::Arrow);
        proof {
            lemma_drawn_set(c1, *canvas, x, y, back_arrow_of(axes.dir), base_p());
            lemma_axes_cell(a, c1, *canvas, axes.dir, sm, smn, sm as int, dm - 1, n0, n1);
            let p = xy_of(axes.dir, (dm - 1) as usize, dmn);
            if c1.inside(p.0 as int, p.1 as int) {
                assert(cell_same(c1, *canvas, p.0 as int, p.1 as int));
            }
        }
    }
}

// ---------------------------------------------------------------------------
// Merges: several edges into one target share a bar across the flow.
/// Where a merging edge leaves its source: (major, minor) of the middle of
/// the source's far side.
pub open spec fn src_point(g: Graph, dir: InnerDir, e: usize) -> (usize, usize) {
    let s = g.nodes@[g.edges@[e as int].from as int];
    match dir {
        InnerDir::TD => (sadd(s.y, s.height), sadd(s.x, s.width / 2)),
        InnerDir::LR => (sadd(s.x, s.width), sadd(s.y, s.height / 2)),
    }
}

/// Where merged edges enter the target: (major, minor) of the middle of
/// its near side.
pub open spec fn target_point(n: Node, dir: InnerDir) -> (usize, usize) {
    match dir {
        InnerDir::TD => (n.y, sadd(n.x, n.width / 2)),
        InnerDir::LR => (n.x, sadd(n.y, n.height / 2)),
    }
}

/// Smallest element (0 for an empty sequence).
pub open spec fn seq_min(s: Seq<usize>) -> usize
    decreases s.len(),
{
    if s.len() == 0 {
        0
    } else if s.len() == 1 {
        s[0]
    } else {
        let m = seq_min(s.drop_last());
        if s.last() < m {
            s.last()
        } else {
            m
        }
    }
}

/// Largest element (0 for an empty sequence).
pub open spec fn seq_max(s: Seq<usize>) -> usize
    decreases s.len(),
{
    if s.len() == 0 {
        0
    } else {
        let m = seq_max(s.drop_last());
        if s.last() > m {
            s.last()
        } else {
            m
        }
    }
}

proof fn lemma_seq_bounds(s: Seq<usize>, j: int)
    requires
        0 <= j < s.len(),
    ensures
        seq_min(s) <= s[j] <= seq_max(s),
    decreases s.len(),
{
    if j < s.len() - 1 {
        lemma_seq_bounds(s.drop_last(), j);
        assert(s.drop_last()[j] == s[j]);
    }
    if s.len() > 1 && j == s.len() - 1 {
        if s.len() - 1 > 0 {
        }
    }
}

pub open spec fn majors(g: Graph, dir: InnerDir, ids: Seq<usize>) -> Seq<usize> {
    ids.map_values(|e: usize| src_point(g, dir, e).0)
}

pub open spec fn minors(g: Graph, dir: InnerDir, ids: Seq<usize>) -> Seq<usize> {
    ids.map_values(|e: usize| src_point(g, dir, e).1)
}

/// Where the merge bar runs: halfway from the farthest source to the
/// target when there is room, else right at the farthest source.
pub open spec fn merge_bar(max_sm: usize, dm: usize) -> usize {
    if dm > max_sm + 1 {
        (max_sm + (dm - max_sm) / 2) as usize
    } else {
        max_sm
    }
}

#[verifier::spinoff_prover]
#[verifier::rlimit(80)]
fn draw_merge(canvas: &mut Canvas, axes: Axes, g: &Graph, target_id: NodeId, edge_ids: &Vec<usize>)
    requires
        old(canvas).wf(),
        g.shape_ok(),
        target_id < g.nodes.len(),
        edge_ids.len() >= 1,
        forall|j: int| 0 <= j < edge_ids.len() ==> #[trigger] edge_ids@[j] < g.edges.len(),
    ensures
        ({
            let ms = majors(*g, axes.dir, edge_ids@);
            let ns = minors(*g, axes.dir, edge_ids@);
            let (dm, dmn) = target_point(g.nodes@[target_id as int], axes.dir);
            let mid = merge_bar(seq_max(ms), dm);
            &&& redrawn_axes(
                *old(canvas),
                *final(canvas),
                axes.dir,
                seq_min(ms) as int,
                (if seq_max(ms) > dm { seq_max(ms) } else { dm }) as int,
                (if seq_min(ns) < dmn { seq_min(ns) } else { dmn }) as int,
                (if seq_max(ns) > dmn { seq_max(ns) } else { dmn }) as int,
            )
            &&& dm > mid + 1 ==> shows_at(*final(canvas), axes.dir, (dm - 1) as usize, dmn, arrow_of(axes.dir), CellKind::Arrow)
            &&& dm == mid + 1 ==> shows_at(*final(canvas), axes.dir, mid, dmn, arrow_of(axes.dir), CellKind::Arrow)
            &&& dm <= mid ==> keeps_lines(*old(canvas), *final(canvas))
            &&& forall|j: int, m: int|
                0 <= j < ms.len() && #[trigger] ms[j] <= m < mid ==> #[trigger] lined(*final(canvas), axes.dir, m as usize, ns[j])
            &&& forall|j: int, n: int|
                0 <= j < ns.len() && between(n, #[trigger] ns[j] as int, dmn as int) && !(dm == mid + 1 && n == dmn)
                    ==> #[trigger] lined(*final(canvas), axes.dir, mid, n as usize)
            &&& forall|m: int| mid < m && m + 1 < dm ==> #[trigger] lined(*final(canvas), axes.dir, m as usize, dmn)
        }),
{
    broadcast use vstd::seq_lib::group_to_multiset_ensures;

    let ghost ms_g = majors(*g, axes.dir, edge_ids@);
    let ghost ns_g = minors(*g, axes.dir, edge_ids@);
    let dst = &g.nodes[target_id];
    let (dm, dmn) = match axes.dir {
        InnerDir::TD => (dst.y, dst.x.saturating_add(dst.width / 2)),
        InnerDir::LR => (dst.x, dst.y.saturating_add(dst.height / 2)),
    };
    let ghost m0: int = seq_min(ms_g) as int;
    let ghost m1: int = (if seq_max(ms_g) > dm { seq_max(ms_g) } else { dm }) as int;
    let ghost n0: int = (if seq_min(ns_g) < dmn { seq_min(ns_g) } else { dmn }) as int;
    let ghost n1: int = (if seq_max(ns_g) > dmn { seq_max(ns_g) } else { dmn }) as int;
    let k = edge_ids.len();
    let mut style = EdgeStyle::Normal;
    let mut ms: Vec<usize> = Vec::new();
    let mut mns: Vec<usize> = Vec::new();
    let mut sts: Vec<EdgeStyle> = Vec::new();
    let mut keys: Vec<(usize, usize)> = Vec::new();
    let mut max_sm: usize = 0;
    let mut j: usize = 0;
    while j < k
        invariant
            g.shape_ok(),
            k == edge_ids.len(),
            j <= k,
            ms.len() == j,
            mns.len() == j,
            sts.len() == j,
            keys.len() == j,
            forall|q: int| 0 <= q < edge_ids.len() ==> #[trigger] edge_ids@[q] < g.edges.len(),
            ms_g == majors(*g, axes.dir, edge_ids@),
            ns_g == minors(*g, axes.dir, edge_ids@),
            forall|q: int| 0 <= q < j ==> #[trigger] ms@[q] == ms_g[q] && mns@[q] == ns_g[q],
            j > 0 ==> max_sm == seq_max(ms_g.take(j as int)),
            j == 0 ==> max_sm == 0,
        decreases k - j,
    {
        let e = edge_ids[j];
        let s = &g.nodes[g.edges[e].from];
        let (m, mn) = match axes.dir {
            InnerDir::TD => (s.y.saturating_add(s.height), s.x.saturating_add(s.width / 2)),
            InnerDir::LR => (s.x.saturating_add(s.width), s.y.saturating_add(s.height / 2)),
        };
        style = style.max_over(g.edges[e].style);
        ms.push(m);
        mns.push(mn);
        sts.push(g.edges[e].style);
        keys.push((mn, 1));
        proof {
            assert(ms_g.take(j + 1).drop_last() =~= ms_g.take(j as int));
            assert(ms_g.take(j + 1).last() == m);
            if j == 0 {
                assert(ms_g.take(1).drop_last().len() == 0);
            }
            assert(seq_max(ms_g.take(j + 1)) == if m > seq_max(ms_g.take(j as int)) { m } else { seq_max(ms_g.take(j as int)) });
        }
        if j == 0 || m > max_sm {
            max_sm = m;
        }
        j += 1;
    }
    proof {
        assert(ms_g.take(k as int) =~= ms_g);
    }
    // Sources ordered across the flow, then duplicates dropped.
    let mut order: Vec<usize> = Vec::new();
    let mut j: usize = 0;
    while j < k
        invariant
            j <= k,
            order.len() == j,
            keys.len() == k,
            forall|q: int| 0 <= q < j ==> #[trigger] order@[q] < k,
            forall|q: int| 0 <= q < j ==> #[trigger] order@[q] == q,
        decreases k - j,
    {
        order.push(j);
        j += 1;
    }
    let ghost order0 = order@;
    crate::layout::sort_by_keys(&mut order, &keys);
    let mut srcs: Vec<(usize, usize, EdgeStyle)> = Vec::new();
    let mut j: usize = 0;
    while j < order.len()
        invariant
            j <= order.len(),
            ms.len() == k,
            mns.len() == k,
            sts.len() == k,
            forall|q: int| 0 <= q < order.len() ==> #[trigger] order@[q] < keys.len(),
            keys.len() == k,
            forall|q: int| 0 <= q < k ==> #[trigger] ms@[q] == ms_g[q] && mns@[q] == ns_g[q],
            ms_g.len() == k,
            ns_g.len() == k,
            forall|q: int|
                0 <= q < srcs.len() ==> exists|p: int| 0 <= p < k && (#[trigger] srcs@[q]).0 == ms_g[p] && srcs@[q].1 == ns_g[p],
            forall|t: int|
                0 <= t < j ==> exists|q: int|
                    0 <= q < srcs.len() && (#[trigger] srcs@[q]).0 == ms_g[order@[t] as int] && srcs@[q].1 == ns_g[#[trigger] order@[t] as int],
        decreases order.len() - j,
    {
        let p = order[j];
        let t = (ms[p], mns[p], sts[p]);
        let dup = srcs.len() > 0 && srcs[srcs.len() - 1].0 == t.0 && srcs[srcs.len() - 1].1 == t.1;
        let ghost sb = srcs@;
        if !dup {
            srcs.push(t);
            proof {
                assert(srcs@[srcs.len() - 1].0 == ms_g[p as int]);
            }
        }
        proof {
            assert forall|t2: int|
                0 <= t2 < j + 1 implies exists|q: int|
                    0 <= q < srcs.len() && (#[trigger] srcs@[q]).0 == ms_g[order@[t2] as int] && srcs@[q].1 == ns_g[#[trigger] order@[t2] as int] by {
                if t2 < j {
                    let q = choose|q: int|
                        0 <= q < sb.len() && (#[trigger] sb[q]).0 == ms_g[order@[t2] as int] && sb[q].1 == ns_g[order@[t2] as int];
                    assert(srcs@[q] == sb[q]);
                } else {
                    assert(order@[t2] == p);
                    let q = srcs.len() - 1;
                    assert(srcs@[q].0 == ms_g[p as int] && srcs@[q].1 == ns_g[p as int]);
                }
            }
        }
        j += 1;
    }
    proof {
        assert forall|q: int| 0 <= q < srcs.len() implies m0 <= (#[trigger] srcs@[q]).0 <= m1 && n0 <= srcs@[q].1 <= n1
            && srcs@[q].0 <= seq_max(ms_g) by {
            let p = choose|p: int| 0 <= p < k && srcs@[q].0 == ms_g[p] && srcs@[q].1 == ns_g[p];
            lemma_seq_bounds(ms_g, p);
            lemma_seq_bounds(ns_g, p);
        }
    }
    let mid_m = if dm > max_sm && dm - max_sm > 1 {
        max_sm + (dm - max_sm) / 2
    } else {
        max_sm
    };
    assert(mid_m == merge_bar(seq_max(ms_g), dm));
    proof {
        assert(m0 <= mid_m <= m1) by {
            lemma_seq_bounds(ms_g, 0);
        }
        assert(n0 <= dmn <= n1);
    }
    proof {
        assert forall|p: int| 0 <= p < k implies exists|q: int|
            0 <= q < srcs.len() && (#[trigger] srcs@[q]).0 == #[trigger] ms_g[p] && srcs@[q].1 == ns_g[p] by {
            assert(order0[p] == p);
            assert(order0.to_multiset().count(p as usize) > 0);
            assert(order@.to_multiset().count(p as usize) > 0);
            assert(order@.contains(p as usize));
            let t = choose|t: int| 0 <= t < order.len() && order@[t] == p as usize;
            assert(order@[t] as int == p);
        }
    }
    draw_merge_lines(canvas, axes, &srcs, mid_m, dm, dmn, style, Ghost(m0), Ghost(m1), Ghost(n0), Ghost(n1));
    proof {
        assert forall|j: int, m: int|
            0 <= j < ms_g.len() && #[trigger] ms_g[j] <= m < mid_m implies #[trigger] lined(*canvas, axes.dir, m as usize, ns_g[j]) by {
            let q = choose|q: int| 0 <= q < srcs.len() && (#[trigger] srcs@[q]).0 == ms_g[j] && srcs@[q].1 == ns_g[j];
            assert(srcs@[q].0 <= m < mid_m);
        }
        assert forall|j: int, n: int|
            0 <= j < ns_g.len() && between(n, #[trigger] ns_g[j] as int, dmn as int) && !(dm == mid_m + 1 && n == dmn)
                implies #[trigger] lined(*canvas, axes.dir, mid_m, n as usize) by {
            let q = choose|q: int| 0 <= q < srcs.len() && (#[trigger] srcs@[q]).0 == ms_g[j] && srcs@[q].1 == ns_g[j];
            assert(between(n, srcs@[q].1 as int, dmn as int));
        }
    }
}

proof fn lemma_side_bits(dir: InnerDir)
    ensures
        major_back_of(dir) != 0,
        major_fwd_of(dir) != 0,
        minor_back_of(dir) != 0,
        minor_fwd_of(dir) != 0,
        forall|a: u8, b: u8| b != 0 ==> #[trigger] (a | b) != 0,
{
    assert(forall|a: u8, b: u8| b != 0 ==> #[trigger] (a | b) != 0) by (bit_vector);
}

/// `n` lies between `a` and `b` (either way round).
pub open spec fn between(n: int, a: int, b: int) -> bool {
    (a <= n <= b) || (b <= n <= a)
}

/// The lines of a merge: each source's run to the bar at `mid_m`, the bar
/// across to the target's minor position `dmn`, the taps, the drop to the
/// target at `dm`, and the arrow head.
#[verifier::spinoff_prover]
#[verifier::rlimit(60)]
fn draw_merge_lines(
    canvas: &mut Canvas,
    axes: Axes,
    srcs: &Vec<(usize, usize, EdgeStyle)>,
    mid_m: usize,
    dm: usize,
    dmn: usize,
    style: EdgeStyle,
    Ghost(m0): Ghost<int>,
    Ghost(m1): Ghost<int>,
    Ghost(n0): Ghost<int>,
    Ghost(n1): Ghost<int>,
)
    requires
        old(canvas).wf(),
        forall|q: int| 0 <= q < srcs.len() ==> m0 <= (#[trigger] srcs@[q]).0 <= m1 && n0 <= srcs@[q].1 <= n1 && srcs@[q].0 <= mid_m,
        m0 <= mid_m <= m1,
        dm <= m1,
        n0 <= dmn <= n1,
    ensures
        redrawn_axes(*old(canvas), *final(canvas), axes.dir, m0, m1, n0, n1),
        mid_m < dm && dm - mid_m > 1 ==> shows_at(*final(canvas), axes.dir, (dm - 1) as usize, dmn, arrow_of(axes.dir), CellKind::Arrow),
        mid_m < dm && dm - mid_m == 1 ==> shows_at(*final(canvas), axes.dir, mid_m, dmn, arrow_of(axes.dir), CellKind::Arrow),
        dm <= mid_m ==> keeps_lines(*old(canvas), *final(canvas)),
        forall|q: int, m: int|
            0 <= q < srcs.len() && (#[trigger] srcs@[q]).0 <= m < mid_m ==> #[trigger] lined(*final(canvas), axes.dir, m as usize, srcs@[q].1),
        forall|q: int, n: int|
            0 <= q < srcs.len() && between(n, (#[trigger] srcs@[q]).1 as int, dmn as int) && !(mid_m < dm && dm - mid_m == 1
                && n == dmn) ==> #[trigger] lined(*final(canvas), axes.dir, mid_m, n as usize),
        forall|m: int| mid_m < m && m + 1 < dm ==> #[trigger] lined(*final(canvas), axes.dir, m as usize, dmn),
{
    let ghost a = *canvas;
    proof {
        let r = axes_rect(axes.dir, m0, m1, n0, n1);
        lemma_redrawn_refl(a, r.0, r.1, r.2, r.3);
        lemma_keeps_refl(a);
    }
    // Runs along the flow: each source forward to the bar, in its own style.
    let mut q: usize = 0;
    while q < srcs.len()
        invariant
            q <= srcs.len(),
            forall|q: int| 0 <= q < srcs.len() ==> m0 <= (#[trigger] srcs@[q]).0 <= m1 && n0 <= srcs@[q].1 <= n1 && srcs@[q].0 <= mid_m,
            m0 <= mid_m <= m1,
            redrawn_axes(a, *canvas, axes.dir, m0, m1, n0, n1),
            a.wf(),
            keeps_lines(a, *canvas),
            forall|q2: int, m: int|
                0 <= q2 < q && (#[trigger] srcs@[q2]).0 <= m < mid_m ==> #[trigger] lined(*canvas, axes.dir, m as usize, srcs@[q2].1),
        decreases srcs.len() - q,
    {
        let (sm, smn, src_style) = srcs[q];
        let ghost b = *canvas;
        run_major(canvas, axes, sm, mid_m, smn, axes.major_sides(), src_style);
        proof {
            lemma_axes_widen(b, *canvas, axes.dir, sm as int, mid_m - 1, smn as int, smn as int, m0, m1, n0, n1);
            lemma_axes_trans(a, b, *canvas, axes.dir, m0, m1, n0, n1);
            lemma_keeps_trans(a, b, *canvas);
            assert(major_sides_of(axes.dir) != 0);
            assert forall|q2: int, m: int|
                0 <= q2 < q + 1 && (#[trigger] srcs@[q2]).0 <= m < mid_m implies #[trigger] lined(*canvas, axes.dir, m as usize, srcs@[q2].1) by {
                if q2 < q {
                    lemma_lined_keep(b, *canvas, axes.dir, m as usize, srcs@[q2].1);
                }
            }
        }
        q += 1;
    }
    // Bar segments, one per source, from its minor position to the target's.
    let mut q: usize = 0;
    while q < srcs.len()
        invariant
            q <= srcs.len(),
            forall|q: int| 0 <= q < srcs.len() ==> m0 <= (#[trigger] srcs@[q]).0 <= m1 && n0 <= srcs@[q].1 <= n1 && srcs@[q].0 <= mid_m,
            m0 <= mid_m <= m1,
            n0 <= dmn <= n1,
            redrawn_axes(a, *canvas, axes.dir, m0, m1, n0, n1),
            a.wf(),
            keeps_lines(a, *canvas),
            forall|q2: int, m: int|
                0 <= q2 < srcs.len() && (#[trigger] srcs@[q2]).0 <= m < mid_m ==> #[trigger] lined(*canvas, axes.dir, m as usize, srcs@[q2].1),
            forall|q2: int, n: int|
                0 <= q2 < q && between(n, (#[trigger] srcs@[q2]).1 as int, dmn as int) && srcs@[q2].1 != dmn
                    ==> #[trigger] lined(*canvas, axes.dir, mid_m, n as usize),
        decreases srcs.len() - q,
    {
        let (_, smn, src_style) = srcs[q];
        let (lo, hi) = if smn < dmn {
            (smn, dmn)
        } else {
            (dmn, smn)
        };
        let ghost c0 = *canvas;
        let mut mn = lo;
        while mn <= hi
            invariant
                lo <= mn,
                n0 <= lo,
                hi <= n1,
                m0 <= mid_m <= m1,
                redrawn_axes(a, *canvas, axes.dir, m0, m1, n0, n1),
                a.wf(),
                keeps_lines(c0, *canvas),
                c0.wf(),
                keeps_lines(a, *canvas),
                forall|n: int| lo <= n < mn && lo < hi ==> #[trigger] lined(*canvas, axes.dir, mid_m, n as usize),
            ensures
                redrawn_axes(a, *canvas, axes.dir, m0, m1, n0, n1),
                keeps_lines(c0, *canvas),
                keeps_lines(a, *canvas),
                forall|n: int| lo <= n <= hi && lo < hi ==> #[trigger] lined(*canvas, axes.dir, mid_m, n as usize),
            decreases hi + 1 - mn,
        {
            let mut sides: u8 = 0;
            if mn > lo {
                sides = sides | axes.minor_back();
            }
            if mn < hi {
                sides = sides | axes.minor_fwd();
            }
            proof {
                assert(lo < hi ==> sides != 0) by {
                    lemma_side_bits(axes.dir);
                }
            }
            if sides != 0 {
                let (x, y) = axes.xy(mid_m, mn);
                let ghost b = *canvas;
                canvas.add_sides(x, y, sides, src_style, CellKind::Edge);
                proof {
                    lemma_drawn_sides(b, *canvas, x, y, sides, src_style, CellKind::Edge);
                    lemma_axes_cell(a, b, *canvas, axes.dir, mid_m, mn, m0, m1, n0, n1);
                    lemma_keeps_trans(c0, b, *canvas);
                    lemma_keeps_trans(a, b, *canvas);
                    assert forall|n: int| lo <= n < mn + 1 && lo < hi implies #[trigger] lined(*canvas, axes.dir, mid_m, n as usize) by {
                        if n < mn {
                            lemma_lined_keep(b, *canvas, axes.dir, mid_m, n as usize);
                        }
                    }
                }
            }
            if mn == hi {
                break;
            }
            mn += 1;
        }
        proof {
            assert forall|q2: int, m: int|
                0 <= q2 < srcs.len() && (#[trigger] srcs@[q2]).0 <= m < mid_m implies #[trigger] lined(*canvas, axes.dir, m as usize, srcs@[q2].1) by {
                lemma_lined_keep(c0, *canvas, axes.dir, m as usize, srcs@[q2].1);
            }
            assert forall|q2: int, n: int|
                0 <= q2 < q + 1 && between(n, (#[trigger] srcs@[q2]).1 as int, dmn as int) && srcs@[q2].1 != dmn
                    implies #[trigger] lined(*canvas, axes.dir, mid_m, n as usize) by {
                if q2 < q {
                    lemma_lined_keep(c0, *canvas, axes.dir, mid_m, n as usize);
                }
            }
        }
        q += 1;
    }
    // Source taps: each joins the bar from behind.
    let mut q: usize = 0;
    while q < srcs.len()
        invariant
            q <= srcs.len(),
            forall|q: int| 0 <= q < srcs.len() ==> m0 <= (#[trigger] srcs@[q]).0 <= m1 && n0 <= srcs@[q].1 <= n1 && srcs@[q].0 <= mid_m,
            m0 <= mid_m <= m1,
            redrawn_axes(a, *canvas, axes.dir, m0, m1, n0, n1),
            a.wf(),
            keeps_lines(a, *canvas),
            forall|q2: int, m: int|
                0 <= q2 < srcs.len() && (#[trigger] srcs@[q2]).0 <= m < mid_m ==> #[trigger] lined(*canvas, axes.dir, m as usize, srcs@[q2].1),
            forall|q2: int, n: int|
                0 <= q2 < srcs.len() && between(n, (#[trigger] srcs@[q2]).1 as int, dmn as int) && srcs@[q2].1 != dmn
                    ==> #[trigger] lined(*canvas, axes.dir, mid_m, n as usize),
            forall|q2: int| 0 <= q2 < q ==> #[trigger] lined(*canvas, axes.dir, mid_m, srcs@[q2].1),
        decreases srcs.len() - q,
    {
        let (_, smn, src_style) = srcs[q];
        let (x, y) = axes.xy(mid_m, smn);
        let ghost b = *canvas;
        canvas.add_sides(x, y, axes.major_back(), src_style, CellKind::Edge);
        proof {
            lemma_drawn_sides(b, *canvas, x, y, major_back_of(axes.dir), src_style, CellKind::Edge);
            lemma_axes_cell(a, b, *canvas, axes.dir, mid_m, smn, m0, m1, n0, n1);
            lemma_keeps_trans(a, b, *canvas);
            lemma_side_bits(axes.dir);
            assert forall|q2: int, m: int|
                0 <= q2 < srcs.len() && (#[trigger] srcs@[q2]).0 <= m < mid_m implies #[trigger] lined(*canvas, axes.dir, m as usize, srcs@[q2].1) by {
                lemma_lined_keep(b, *canvas, axes.dir, m as usize, srcs@[q2].1);
            }
            assert forall|q2: int, n: int|
                0 <= q2 < srcs.len() && between(n, (#[trigger] srcs@[q2]).1 as int, dmn as int) && srcs@[q2].1 != dmn
                    implies #[trigger] lined(*canvas, axes.dir, mid_m, n as usize) by {
                lemma_lined_keep(b, *canvas, axes.dir, mid_m, n as usize);
            }
            assert forall|q2: int| 0 <= q2 < q + 1 implies #[trigger] lined(*canvas, axes.dir, mid_m, srcs@[q2].1) by {
                if q2 < q {
                    lemma_lined_keep(b, *canvas, axes.dir, mid_m, srcs@[q2].1);
                }
            }
        }
        q += 1;
    }
    // Target tap, the drop to the target, and the arrow head.
    let (x, y) = axes.xy(mid_m, dmn);
    let ghost b = *canvas;
    canvas.add_sides(x, y, axes.major_fwd(), style, CellKind::Edge);
    proof {
        lemma_drawn_sides(b, *canvas, x, y, major_fwd_of(axes.dir), style, CellKind::Edge);
        lemma_axes_cell(a, b, *canvas, axes.dir, mid_m, dmn, m0, m1, n0, n1);
        lemma_keeps_trans(a, b, *canvas);
        lemma_side_bits(axes.dir);
        assert forall|q2: int, m: int|
            0 <= q2 < srcs.len() && (#[trigger] srcs@[q2]).0 <= m < mid_m implies #[trigger] lined(*canvas, axes.dir, m as usize, srcs@[q2].1) by {
            lemma_lined_keep(b, *canvas, axes.dir, m as usize, srcs@[q2].1);
        }
        assert forall|q2: int, n: int|
            0 <= q2 < srcs.len() && between(n, (#[trigger] srcs@[q2]).1 as int, dmn as int) implies #[trigger] lined(*canvas, axes.dir, mid_m, n as usize) by {
            if n == dmn {
            } else if n == srcs@[q2].1 {
                lemma_lined_keep(b, *canvas, axes.dir, mid_m, n as usize);
            } else {
                lemma_lined_keep(b, *canvas, axes.dir, mid_m, n as usize);
            }
        }
    }
    let ghost b = *canvas;
    run_major(canvas, axes, mid_m.saturating_add(1), dm, dmn, axes.major_sides(), style);
    proof {
        lemma_axes_widen(b, *canvas, axes.dir, mid_m.saturating_add(1) as int, dm - 1, dmn as int, dmn as int, m0, m1, n0, n1);
        lemma_axes_trans(a, b, *canvas, axes.dir, m0, m1, n0, n1);
        lemma_keeps_trans(a, b, *canvas);
        assert(major_sides_of(axes.dir) != 0);
        assert forall|q2: int, m: int|
            0 <= q2 < srcs.len() && (#[trigger] srcs@[q2]).0 <= m < mid_m implies #[trigger] lined(*canvas, axes.dir, m as usize, srcs@[q2].1) by {
            lemma_lined_keep(b, *canvas, axes.dir, m as usize, srcs@[q2].1);
        }
        assert forall|q2: int, n: int|
            0 <= q2 < srcs.len() && between(n, (#[trigger] srcs@[q2]).1 as int, dmn as int) implies #[trigger] lined(*canvas, axes.dir, mid_m, n as usize) by {
            lemma_lined_keep(b, *canvas, axes.dir, mid_m, n as usize);
        }
    }
    let ghost c1 = *canvas;
    if mid_m < dm && dm - mid_m > 1 {
        let (x, y) = axes.xy(dm - 1, dmn);
        let ghost b = *canvas;
        canvas.set(x, y, axes.arrow(), CellKind::Arrow);
        proof {
            lemma_drawn_set(b, *canvas, x, y, arrow_of(axes.dir), base_p());
            lemma_axes_cell(a, b, *canvas, axes.dir, (dm - 1) as usize, dmn, m0, m1, n0, n1);
            assert forall|q2: int, m: int|
                0 <= q2 < srcs.len() && (#[trigger] srcs@[q2]).0 <= m < mid_m implies #[trigger] lined(*canvas, axes.dir, m as usize, srcs@[q2].1) by {
                lemma_lined_set(b, *canvas, axes.dir, m as usize, srcs@[q2].1, (dm - 1) as usize, dmn);
            }
            assert forall|q2: int, n: int|
                0 <= q2 < srcs.len() && between(n, (#[trigger] srcs@[q2]).1 as int, dmn as int) implies #[trigger] lined(*canvas, axes.dir, mid_m, n as usize) by {
                lemma_lined_set(b, *canvas, axes.dir, mid_m, n as usize, (dm - 1) as usize, dmn);
            }
            assert forall|m: int| mid_m < m && m + 1 < dm implies #[trigger] lined(*canvas, axes.dir, m as usize, dmn) by {
                lemma_lined_set(b, *canvas, axes.dir, m as usize, dmn, (dm - 1) as usize, dmn);
            }
        }
    } else if mid_m < dm && dm - mid_m == 1 {
        let (x, y) = axes.xy(mid_m, dmn);
        let ghost b = *canvas;
        canvas.set(x, y, axes.arrow(), CellKind::Arrow);
        proof {
            lemma_drawn_set(b, *canvas, x, y, arrow_of(axes.dir), base_p());
            lemma_axes_cell(a, b, *canvas, axes.dir, mid_m, dmn, m0, m1, n0, n1);
            assert forall|q2: int, m: int|
                0 <= q2 < srcs.len() && (#[trigger] srcs@[q2]).0 <= m < mid_m implies #[trigger] lined(*canvas, axes.dir, m as usize, srcs@[q2].1) by {
                lemma_lined_set(b, *canvas, axes.dir, m as usize, srcs@[q2].1, mid_m, dmn);
            }
            assert forall|q2: int, n: int|
                0 <= q2 < srcs.len() && between(n, (#[trigger] srcs@[q2]).1 as int, dmn as int) && n != dmn implies #[trigger] lined(*canvas, axes.dir, mid_m, n as usize) by {
                lemma_lined_set(b, *canvas, axes.dir, mid_m, n as usize, mid_m, dmn);
            }
        }
    }
}

// ---------------------------------------------------------------------------
// Boxes.
/// Corner glyphs (top-left, top-right, bottom-left, bottom-right).
pub open spec fn corners_of(shape: Shape) -> (char, char, char, char) {
    match shape {
        Shape::Round => ('╭', '╮', '╰', '╯'),
        Shape::Square => ('┌', '┐', '└', '┘'),
    }
}

/// Left padding that centers a line of `len` characters in a box of width `w`.
pub open spec fn box_pad(w: int, len: int) -> int {
    if w - 2 > len {
        (w - 2 - len) / 2
    } else {
        0
    }
}

/// How far a box's border has been drawn: corners first (top-left,
/// top-right, bottom-left, bottom-right), then the top and bottom runs
/// (up to column `x + top - 1` and `x + bot - 1`), then the left and right
/// runs (down to rows `y + left - 1` and `y + right - 1`); a stage is
/// `(corners, top, bot, left, right)`. The border glyph that a box at
/// `(x, y)` of size `w` x `h`, drawn up to stage `st`, leaves on cell
/// `(cx, cy)`; later strokes cover earlier ones.
pub open spec fn border_stage(x: int, y: int, w: int, h: int, shape: Shape, st: (int, int, int, int, int), cx: int, cy: int) -> Option<char> {
    let r = x + w - 1;
    let b = y + h - 1;
    let c = corners_of(shape);
    if y < cy < b && ((cx == x && cy < y + st.3) || (cx == r && cy < y + st.4)) {
        Some('│')
    } else if x < cx < r && ((cy == y && cx < x + st.1) || (cy == b && cx < x + st.2)) {
        Some('─')
    } else if st.0 > 3 && cx == r && cy == b {
        Some(c.3)
    } else if st.0 > 2 && cx == x && cy == b {
        Some(c.2)
    } else if st.0 > 1 && cx == r && cy == y {
        Some(c.1)
    } else if st.0 > 0 && cx == x && cy == y {
        Some(c.0)
    } else {
        None
    }
}

/// The label character on cell `(cx, cy)` from the first `done` lines and
/// the first `part` characters of the next one, each line centered on its
/// own row inside the box.
pub open spec fn label_stage(x: int, y: int, w: int, lines: Seq<Seq<char>>, done: int, part: int, cx: int, cy: int) -> Option<char> {
    let li = cy - y - 1;
    if 0 <= li < lines.len() && (li < done || li == done) {
        let ci = cx - (x + 1 + box_pad(w, lines[li].len() as int));
        if 0 <= ci < lines[li].len() && (li < done || ci < part) {
            Some(lines[li][ci])
        } else {
            None
        }
    } else {
        None
    }
}

/// What a box drawing leaves on a cell: a label character over a border
/// glyph over what was there.
pub open spec fn box_char(old: char, border: Option<char>, label: Option<char>) -> char {
    match label {
        Some(c) => c,
        None => match border {
            Some(c) => c,
            None => old,
        },
    }
}

pub open spec fn box_kind(old: CellKind, border: Option<char>, label: Option<char>) -> CellKind {
    if label is Some {
        CellKind::Label
    } else if border is Some {
        CellKind::Border
    } else {
        old
    }
}

/// Cell `(cx, cy)` of `b` is that of `a` with the box drawn over it.
pub open spec fn box_cell_ok(a: Canvas, b: Canvas, x: int, y: int, w: int, h: int, shape: Shape, lines: Seq<Seq<char>>, st: (int, int, int, int, int), done: int, part: int, cx: int, cy: int) -> bool {
    &&& b.chars_g()[cy][cx] == box_char(
        a.chars_g()[cy][cx],
        border_stage(x, y, w, h, shape, st, cx, cy),
        label_stage(x, y, w, lines, done, part, cx, cy),
    )
    &&& b.kinds_g()[cy][cx] == box_kind(
        a.kinds_g()[cy][cx],
        border_stage(x, y, w, h, shape, st, cx, cy),
        label_stage(x, y, w, lines, done, part, cx, cy),
    )
}

/// `b` is `a` with the box (borders to stage `st`, labels of the first
/// `done` lines and `part` characters of the next) drawn over it.
pub open spec fn box_drawn(a: Canvas, b: Canvas, x: int, y: int, w: int, h: int, shape: Shape, lines: Seq<Seq<char>>, st: (int, int, int, int, int), done: int, part: int) -> bool {
    &&& b.wf()
    &&& b.height() == a.height()
    &&& b.width_of() == a.width_of()
    &&& b.sides@ == a.sides@
    &&& b.cell_style@ == a.cell_style@
    &&& b.override_style@ == a.override_style@
    &&& forall|cx: int, cy: int|
        a.inside(cx, cy) ==> #[trigger] box_cell_ok(a, b, x, y, w, h, shape, lines, st, done, part, cx, cy)
}

/// The box's rows and label columns fit in `usize`, and a box with a
/// label is at least two cells wide.
pub open spec fn box_fits(x: usize, y: usize, w: usize, h: usize, lines: Seq<Seq<char>>) -> bool {
    &&& 1 <= w
    &&& 1 <= h
    &&& x + w <= usize::MAX
    &&& y + h <= usize::MAX
    &&& y + lines.len() <= usize::MAX
    &&& lines.len() > 0 ==> w >= 2
    &&& forall|li: int| 0 <= li < lines.len() ==> x + box_pad(w as int, #[trigger] lines[li].len() as int) + lines[li].len() <= usize::MAX
}

#[verifier::spinoff_prover]
proof fn lemma_box_step(a: Canvas, b: Canvas, c: Canvas, x: int, y: int, w: int, h: int, shape: Shape, lines: Seq<Seq<char>>,
    st: (int, int, int, int, int), dn: int, pt: int, st2: (int, int, int, int, int), dn2: int, pt2: int, px: usize, py: usize, ch: char, kind: CellKind)
    requires
        box_drawn(a, b, x, y, w, h, shape, lines, st, dn, pt),
        c.wf(),
        c.height() == b.height(),
        c.width_of() == b.width_of(),
        c.sides@ == b.sides@,
        c.cell_style@ == b.cell_style@,
        c.override_style@ == b.override_style@,
        c.chars_g() == (if b.inside(px as int, py as int) { upd(b.chars_g(), px as int, py as int, ch) } else { b.chars_g() }),
        c.kinds_g() == (if b.inside(px as int, py as int) { upd(b.kinds_g(), px as int, py as int, kind) } else { b.kinds_g() }),
        forall|cx: int, cy: int| !(cx == px && cy == py) ==> #[trigger] border_stage(x, y, w, h, shape, st2, cx, cy)
            == border_stage(x, y, w, h, shape, st, cx, cy) && label_stage(x, y, w, lines, dn2, pt2, cx, cy)
            == label_stage(x, y, w, lines, dn, pt, cx, cy),
        a.inside(px as int, py as int) ==> ch == box_char(
            a.chars_g()[py as int][px as int],
            border_stage(x, y, w, h, shape, st2, px as int, py as int),
            label_stage(x, y, w, lines, dn2, pt2, px as int, py as int),
        ) && kind == box_kind(
            a.kinds_g()[py as int][px as int],
            border_stage(x, y, w, h, shape, st2, px as int, py as int),
            label_stage(x, y, w, lines, dn2, pt2, px as int, py as int),
        ),
    ensures
        box_drawn(a, c, x, y, w, h, shape, lines, st2, dn2, pt2),
{
    assert forall|cx: int, cy: int| a.inside(cx, cy) implies #[trigger] box_cell_ok(a, c, x, y, w, h, shape, lines, st2, dn2, pt2, cx, cy) by {
        assert(b.chars_g()[cy].len() == b.width_of());
        assert(b.kinds_g()[cy].len() == b.width_of());
        assert(box_cell_ok(a, b, x, y, w, h, shape, lines, st, dn, pt, cx, cy));
        if cx == px && cy == py {
        } else {
            assert(c.chars_g()[cy][cx] == b.chars_g()[cy][cx]);
            assert(c.kinds_g()[cy][cx] == b.kinds_g()[cy][cx]);
            assert(border_stage(x, y, w, h, shape, st2, cx, cy) == border_stage(x, y, w, h, shape, st, cx, cy));
        }
    }
}

proof fn lemma_box_restage(a: Canvas, b: Canvas, x: int, y: int, w: int, h: int, shape: Shape, lines: Seq<Seq<char>>,
    st: (int, int, int, int, int), dn: int, pt: int, st2: (int, int, int, int, int), dn2: int, pt2: int)
    requires
        box_drawn(a, b, x, y, w, h, shape, lines, st, dn, pt),
        forall|cx: int, cy: int| #[trigger] border_stage(x, y, w, h, shape, st2, cx, cy)
            == border_stage(x, y, w, h, shape, st, cx, cy) && label_stage(x, y, w, lines, dn2, pt2, cx, cy)
            == label_stage(x, y, w, lines, dn, pt, cx, cy),
    ensures
        box_drawn(a, b, x, y, w, h, shape, lines, st2, dn2, pt2),
{
    assert forall|cx: int, cy: int| a.inside(cx, cy) implies #[trigger] box_cell_ok(a, b, x, y, w, h, shape, lines, st2, dn2, pt2, cx, cy) by {
        assert(box_cell_ok(a, b, x, y, w, h, shape, lines, st, dn, pt, cx, cy));
        assert(border_stage(x, y, w, h, shape, st2, cx, cy) == border_stage(x, y, w, h, shape, st, cx, cy));
    }
}

proof fn lemma_box_start(a: Canvas, x: int, y: int, w: int, h: int, shape: Shape, lines: Seq<Seq<char>>)
    requires
        a.wf(),
    ensures
        box_drawn(a, a, x, y, w, h, shape, lines, (0, 1, 1, 1, 1), 0, 0),
{
    assert forall|cx: int, cy: int| a.inside(cx, cy) implies #[trigger] box_cell_ok(a, a, x, y, w, h, shape, lines, (0, 1, 1, 1, 1), 0, 0, cx, cy) by {
        assert(border_stage(x, y, w, h, shape, (0, 1, 1, 1, 1), cx, cy) is None);
        assert(label_stage(x, y, w, lines, 0, 0, cx, cy) is None);
    }
}

/// Draws a box with the given corner shape and each label line centered on
/// its own row inside it.
fn draw_box(canvas: &mut Canvas, x: usize, y: usize, w: usize, h: usize, lines: &Vec<Vec<char>>, shape: Shape)
    requires
        old(canvas).wf(),
        box_fits(x, y, w, h, grid(lines@)),
    ensures
        box_drawn(*old(canvas), *final(canvas), x as int, y as int, w as int, h as int, shape, grid(lines@), (4, w as int, w as int, h as int, h as int), lines.len() as int, 0),
{
    let ghost a = *canvas;
    let ghost ls = grid(lines@);
    let ghost (xi, yi, wi, hi) = (x as int, y as int, w as int, h as int);
    proof {
        lemma_box_start(a, xi, yi, wi, hi, shape, ls);
    }
    let (tl, tr, bl, br) = match shape {
        Shape::Round => ('╭', '╮', '╰', '╯'),
        Shape::Square => ('┌', '┐', '└', '┘'),
    };
    let r = x + w - 1;
    let b = y + h - 1;
    let ghost c0 = *canvas;
    canvas.set(x, y, tl, CellKind::Border);
    proof {
        lemma_box_step(a, c0, *canvas, xi, yi, wi, hi, shape, ls, (0, 1, 1, 1, 1), 0, 0, (1, 1, 1, 1, 1), 0, 0, x, y, tl, CellKind::Border);
    }
    let ghost c0 = *canvas;
    canvas.set(r, y, tr, CellKind::Border);
    proof {
        lemma_box_step(a, c0, *canvas, xi, yi, wi, hi, shape, ls, (1, 1, 1, 1, 1), 0, 0, (2, 1, 1, 1, 1), 0, 0, r, y, tr, CellKind::Border);
    }
    let ghost c0 = *canvas;
    canvas.set(x, b, bl, CellKind::Border);
    proof {
        lemma_box_step(a, c0, *canvas, xi, yi, wi, hi, shape, ls, (2, 1, 1, 1, 1), 0, 0, (3, 1, 1, 1, 1), 0, 0, x, b, bl, CellKind::Border);
    }
    let ghost c0 = *canvas;
    canvas.set(r, b, br, CellKind::Border);
    proof {
        lemma_box_step(a, c0, *canvas, xi, yi, wi, hi, shape, ls, (3, 1, 1, 1, 1), 0, 0, (4, 1, 1, 1, 1), 0, 0, r, b, br, CellKind::Border);
    }
    let mut i: usize = 1;
    while i + 1 < w
        invariant
            1 <= i,
            i < w || i == 1,
            r == x + w - 1,
            b == y + h - 1,
            xi == x && yi == y && wi == w && hi == h,
            ls == grid(lines@),
            box_fits(x, y, w, h, ls),
            box_drawn(a, *canvas, xi, yi, wi, hi, shape, ls, (4, i as int, i as int, 1, 1), 0, 0),
        decreases w - i,
    {
        let ghost c0 = *canvas;
        canvas.set(x + i, y, '─', CellKind::Border);
        proof {
            lemma_box_step(a, c0, *canvas, xi, yi, wi, hi, shape, ls, (4, i as int, i as int, 1, 1), 0, 0, (4, i + 1, i as int, 1, 1), 0, 0, (x + i) as usize, y, '─', CellKind::Border);
        }
        let ghost c0 = *canvas;
        canvas.set(x + i, b, '─', CellKind::Border);
        proof {
            lemma_box_step(a, c0, *canvas, xi, yi, wi, hi, shape, ls, (4, i + 1, i as int, 1, 1), 0, 0, (4, i + 1, i + 1, 1, 1), 0, 0, (x + i) as usize, b, '─', CellKind::Border);
        }
        i += 1;
    }
    proof {
        lemma_box_restage(a, *canvas, xi, yi, wi, hi, shape, ls, (4, i as int, i as int, 1, 1), 0, 0, (4, wi, wi, 1, 1), 0, 0);
    }
    let mut j: usize = 1;
    while j + 1 < h
        invariant
            1 <= j,
            j < h || j == 1,
            r == x + w - 1,
            b == y + h - 1,
            xi == x && yi == y && wi == w && hi == h,
            ls == grid(lines@),
            box_fits(x, y, w, h, ls),
            box_drawn(a, *canvas, xi, yi, wi, hi, shape, ls, (4, wi, wi, j as int, j as int), 0, 0),
        decreases h - j,
    {
        let ghost c0 = *canvas;
        canvas.set(x, y + j, '│', CellKind::Border);
        proof {
            lemma_box_step(a, c0, *canvas, xi, yi, wi, hi, shape, ls, (4, wi, wi, j as int, j as int), 0, 0, (4, wi, wi, j + 1, j as int), 0, 0, x, (y + j) as usize, '│', CellKind::Border);
        }
        let ghost c0 = *canvas;
        canvas.set(r, y + j, '│', CellKind::Border);
        proof {
            lemma_box_step(a, c0, *canvas, xi, yi, wi, hi, shape, ls, (4, wi, wi, j + 1, j as int), 0, 0, (4, wi, wi, j + 1, j + 1), 0, 0, r, (y + j) as usize, '│', CellKind::Border);
        }
        j += 1;
    }
    proof {
        lemma_box_restage(a, *canvas, xi, yi, wi, hi, shape, ls, (4, wi, wi, j as int, j as int), 0, 0, (4, wi, wi, hi, hi), 0, 0);
    }
    let n = lines.len();
    let mut li: usize = 0;
    while li < n
        invariant
            n == lines.len(),
            li <= n,
            xi == x && yi == y && wi == w && hi == h,
            ls == grid(lines@),
            box_fits(x, y, w, h, ls),
            box_drawn(a, *canvas, xi, yi, wi, hi, shape, ls, (4, wi, wi, hi, hi), li as int, 0),
        decreases n - li,
    {
        let line = &lines[li];
        let row = y + 1 + li;
        let inner = w - 2;
        let len = line.len();
        let pad = if inner > len {
            (inner - len) / 2
        } else {
            0
        };
        proof {
            assert(ls[li as int] == line@);
            assert(pad == box_pad(wi, len as int));
            assert(x + box_pad(w as int, ls[li as int].len() as int) + ls[li as int].len() <= usize::MAX);
        }
        let mut ci: usize = 0;
        while ci < len
            invariant
                ci <= len,
                len == line.len(),
                line@ == ls[li as int],
                li < n,
                n == lines.len(),
                row == y + 1 + li,
                pad == box_pad(wi, len as int),
                x + pad + len <= usize::MAX,
                xi == x && yi == y && wi == w && hi == h,
                ls == grid(lines@),
                box_drawn(a, *canvas, xi, yi, wi, hi, shape, ls, (4, wi, wi, hi, hi), li as int, ci as int),
            decreases len - ci,
        {
            let ghost c0 = *canvas;
            let col = x + 1 + pad + ci;
            canvas.set(col, row, line[ci], CellKind::Label);
            proof {
                lemma_box_step(a, c0, *canvas, xi, yi, wi, hi, shape, ls, (4, wi, wi, hi, hi), li as int, ci as int, (4, wi, wi, hi, hi), li as int, ci + 1, col, row, line@[ci as int], CellKind::Label);
            }
            ci += 1;
        }
        proof {
            lemma_box_restage(a, *canvas, xi, yi, wi, hi, shape, ls, (4, wi, wi, hi, hi), li as int, len as int, (4, wi, wi, hi, hi), li + 1, 0);
        }
        li += 1;
    }
}

// ---------------------------------------------------------------------------
// Edge labels.
/// Row `y` of `g` with `t` written over it from column `x0`.
pub open spec fn put_text<T>(g: Seq<Seq<T>>, x0: int, y: int, t: Seq<T>) -> Seq<Seq<T>> {
    g.update(y, g[y].take(x0) + t + g[y].skip(x0 + t.len()))
}

proof fn lemma_put_text_empty<T>(g: Seq<Seq<T>>, x0: int, y: int)
    requires
        0 <= y < g.len(),
        0 <= x0 <= g[y].len(),
    ensures
        put_text(g, x0, y, Seq::<T>::empty()) == g,
{
    assert(g[y].take(x0) + Seq::<T>::empty() + g[y].skip(x0) =~= g[y]);
    assert(put_text(g, x0, y, Seq::<T>::empty()) =~= g);
}

#[verifier::spinoff_prover]
proof fn lemma_put_text_step<T>(g: Seq<Seq<T>>, x0: int, y: int, t: Seq<T>, k: int)
    requires
        0 <= y < g.len(),
        0 <= x0,
        0 <= k < t.len(),
        x0 + t.len() <= g[y].len(),
    ensures
        upd(put_text(g, x0, y, t.take(k)), x0 + k, y, t[k]) == put_text(g, x0, y, t.take(k + 1)),
{
    let a = put_text(g, x0, y, t.take(k));
    let row = g[y].take(x0) + t.take(k) + g[y].skip(x0 + k);
    let row2 = g[y].take(x0) + t.take(k + 1) + g[y].skip(x0 + k + 1);
    assert(t.take(k).len() == k && t.take(k + 1).len() == k + 1);
    assert(a == g.update(y, row));
    assert(a[y] == row);
    assert(row.update(x0 + k, t[k]) =~= row2);
    assert(upd(a, x0 + k, y, t[k]) == g.update(y, row).update(y, row2));
    assert(g.update(y, row).update(y, row2) =~= g.update(y, row2));
    assert(put_text(g, x0, y, t.take(k + 1)) == g.update(y, row2));
}

/// `n` label kinds.
pub open spec fn label_kinds(n: nat) -> Seq<CellKind> {
    Seq::new(n, |_i: int| CellKind::Label)
}

/// Writes `t` as label cells into row `row` from column `start`; the span
/// lies inside the canvas.
fn write_label(canvas: &mut Canvas, start: usize, row: usize, t: &Vec<char>)
    requires
        old(canvas).wf(),
        row < old(canvas).height(),
        start + t.len() <= old(canvas).width_of(),
    ensures
        final(canvas).wf(),
        final(canvas).height() == old(canvas).height(),
        final(canvas).width_of() == old(canvas).width_of(),
        final(canvas).sides@ == old(canvas).sides@,
        final(canvas).cell_style@ == old(canvas).cell_style@,
        final(canvas).override_style@ == old(canvas).override_style@,
        final(canvas).chars_g() == put_text(old(canvas).chars_g(), start as int, row as int, t@),
        final(canvas).kinds_g() == put_text(old(canvas).kinds_g(), start as int, row as int, label_kinds(t.len() as nat)),
{
    let ghost a = *canvas;
    proof {
        assert(a.chars_g()[row as int].len() == a.width_of());
        assert(a.kinds_g()[row as int].len() == a.width_of());
        assert(t@.take(0) =~= Seq::<char>::empty());
        assert(label_kinds(0) =~= Seq::<CellKind>::empty());
        lemma_put_text_empty(a.chars_g(), start as int, row as int);
        lemma_put_text_empty(a.kinds_g(), start as int, row as int);
    }
    let mut k: usize = 0;
    while k < t.len()
        invariant
            k <= t.len(),
            canvas.wf(),
            a.wf(),
            row < a.height(),
            start + t.len() <= a.width_of(),
            a.chars_g()[row as int].len() == a.width_of(),
            a.kinds_g()[row as int].len() == a.width_of(),
            canvas.height() == a.height(),
            canvas.width_of() == a.width_of(),
            canvas.sides@ == a.sides@,
            canvas.cell_style@ == a.cell_style@,
            canvas.override_style@ == a.override_style@,
            canvas.chars_g() == put_text(a.chars_g(), start as int, row as int, t@.take(k as int)),
            canvas.kinds_g() == put_text(a.kinds_g(), start as int, row as int, label_kinds(k as nat)),
        decreases t.len() - k,
    {
        let ghost before = *canvas;
        canvas.set(start + k, row, t[k], CellKind::Label);
        proof {
            assert(before.inside((start + k) as int, row as int));
            lemma_put_text_step(a.chars_g(), start as int, row as int, t@, k as int);
            lemma_put_text_step(a.kinds_g(), start as int, row as int, label_kinds(t.len() as nat), k as int);
            assert(label_kinds(t.len() as nat).take(k as int) =~= label_kinds(k as nat));
            assert(label_kinds(t.len() as nat).take(k + 1) =~= label_kinds((k + 1) as nat));
        }
        k += 1;
    }
    proof {
        assert(t@.take(t.len() as int) =~= t@);
        assert(label_kinds(t.len() as nat).take(t.len() as int) =~= label_kinds(t.len() as nat));
    }
}

/// A TD label sits on the row below the edge's start, centered on its
/// column, where it fits on the canvas over blanks and vertical runs only.
pub open spec fn td_label_fits(c: Canvas, sx: usize, sy: usize, t: Seq<char>) -> bool {
    let row = sy + 1;
    let start = ssub(sx, (t.len() / 2) as usize);
    &&& row < c.height()
    &&& t.len() > 0
    &&& start + t.len() <= c.width_of()
    &&& forall|k: int| 0 <= k < t.len() ==> (#[trigger] c.chars_g()[row][start + k] == ' ' || c.chars_g()[row][start + k] == '│')
}

fn place_edge_label_td(canvas: &mut Canvas, sx: usize, sy: usize, text: &Vec<char>)
    requires
        old(canvas).wf(),
    ensures
        final(canvas).wf(),
        if td_label_fits(*old(canvas), sx, sy, text@) {
            let start = ssub(sx, (text.len() / 2) as usize) as int;
            &&& final(canvas).height() == old(canvas).height()
            &&& final(canvas).width_of() == old(canvas).width_of()
            &&& final(canvas).sides@ == old(canvas).sides@
            &&& final(canvas).cell_style@ == old(canvas).cell_style@
            &&& final(canvas).override_style@ == old(canvas).override_style@
            &&& final(canvas).chars_g() == put_text(old(canvas).chars_g(), start, sy + 1, text@)
            &&& final(canvas).kinds_g() == put_text(old(canvas).kinds_g(), start, sy + 1, label_kinds(text.len() as nat))
        } else {
            *final(canvas) == *old(canvas)
        },
{
    if canvas.chars.len() == 0 || sy >= canvas.chars.len() - 1 {
        return;
    }
    let row = sy + 1;
    let len = text.len();
    if len == 0 {
        return;
    }
    let start = sx.saturating_sub(len / 2);
    let width = canvas.chars[row].len();
    proof {
        assert(canvas.chars_g()[row as int].len() == canvas.width_of());
    }
    if len > width || start > width - len {
        return;
    }
    let mut k: usize = 0;
    while k < len
        invariant
            k <= len,
            len == text.len(),
            start + len <= canvas.width_of(),
            row < canvas.height(),
            canvas.wf(),
            canvas.chars@[row as int]@ == canvas.chars_g()[row as int],
            *canvas == *old(canvas),
            row == sy + 1,
            start == ssub(sx, (len / 2) as usize),
            forall|j: int| 0 <= j < k ==> (#[trigger] canvas.chars_g()[row as int][start + j] == ' ' || canvas.chars_g()[row as int][start + j] == '│'),
        decreases len - k,
    {
        proof {
            assert(canvas.chars_g()[row as int].len() == canvas.width_of());
        }
        let c = canvas.chars[row][start + k];
        if c != ' ' && c != '│' {
            proof {
                assert(canvas.chars_g()[row as int][start + k] == c);
                assert(!td_label_fits(*old(canvas), sx, sy, text@));
            }
            return;
        }
        k += 1;
    }
    write_label(canvas, start, row, text);
}

/// Cells an LR label may cover: blanks and horizontal runs.
pub open spec fn flat(c: char) -> bool {
    c == '─' || c == '━' || c == '┄' || c == ' '
}

/// End of the run of flat cells of `row` starting at `i`.
pub open spec fn flat_run_end(row: Seq<char>, i: int) -> int
    decreases row.len() - i,
{
    if 0 <= i < row.len() && flat(row[i]) {
        flat_run_end(row, i + 1)
    } else {
        i
    }
}

/// Start of an LR label: centered on the flat run from the edge's start,
/// with two cells of line kept on each side.
pub open spec fn lr_label_start(row: Seq<char>, sx: usize, len: nat) -> int {
    let run_len = flat_run_end(row, sx as int) - sx;
    sx + 2 + (run_len - len - 4) / 2
}

/// An LR label fits where the flat run from the edge's start is long
/// enough for it and the padding.
pub open spec fn lr_label_fits(c: Canvas, sx: usize, sy: usize, t: Seq<char>) -> bool {
    &&& sy < c.height()
    &&& t.len() > 0
    &&& flat_run_end(c.chars_g()[sy as int], sx as int) - sx >= t.len() + 4
}

proof fn lemma_flat_run(row: Seq<char>, i: int)
    requires
        0 <= i,
    ensures
        flat_run_end(row, i) >= i,
        flat_run_end(row, i) <= (if i > row.len() { i } else { row.len() as int }),
        forall|k: int| i <= k < flat_run_end(row, i) ==> flat(#[trigger] row[k]),
    decreases row.len() - i,
{
    if 0 <= i < row.len() && flat(row[i]) {
        lemma_flat_run(row, i + 1);
    }
}

fn place_edge_label_lr(canvas: &mut Canvas, sx: usize, sy: usize, text: &Vec<char>)
    requires
        old(canvas).wf(),
    ensures
        final(canvas).wf(),
        if lr_label_fits(*old(canvas), sx, sy, text@) {
            let start = lr_label_start(old(canvas).chars_g()[sy as int], sx, text.len() as nat);
            &&& final(canvas).height() == old(canvas).height()
            &&& final(canvas).width_of() == old(canvas).width_of()
            &&& final(canvas).sides@ == old(canvas).sides@
            &&& final(canvas).cell_style@ == old(canvas).cell_style@
            &&& final(canvas).override_style@ == old(canvas).override_style@
            &&& final(canvas).chars_g() == put_text(old(canvas).chars_g(), start, sy as int, text@)
            &&& final(canvas).kinds_g() == put_text(old(canvas).kinds_g(), start, sy as int, label_kinds(text.len() as nat))
        } else {
            *final(canvas) == *old(canvas)
        },
{
    if sy >= canvas.chars.len() {
        return;
    }
    let len = text.len();
    if len == 0 {
        return;
    }
    let ghost row_s = canvas.chars_g()[sy as int];
    proof {
        lemma_flat_run(row_s, sx as int);
        assert(canvas.chars@[sy as int]@ == row_s);
        assert(row_s.len() == canvas.width_of());
    }
    let mut run_end = sx;
    while run_end < canvas.chars[sy].len() && (canvas.chars[sy][run_end] == '─' || canvas.chars[sy][run_end] == '━'
        || canvas.chars[sy][run_end] == '┄' || canvas.chars[sy][run_end] == ' ')
        invariant
            sx <= run_end,
            sy < canvas.chars.len(),
            canvas.chars@[sy as int]@ == row_s,
            flat_run_end(row_s, sx as int) == flat_run_end(row_s, run_end as int),
        decreases canvas.chars@[sy as int].len() - run_end,
    {
        run_end += 1;
    }
    let run_len = run_end - sx;
    if len > usize::MAX - 4 || run_len < len + 4 {
        return;
    }
    let extra = run_len - len - 4;
    let start = sx + 2 + extra / 2;
    proof {
        assert(flat_run_end(row_s, run_end as int) == run_end);
    }
    let mut k: usize = 0;
    while k < len
        invariant
            k <= len,
            len == text.len(),
            start + len <= run_end,
            run_end <= row_s.len(),
            sy < canvas.chars.len(),
            canvas.chars@[sy as int]@ == row_s,
            *canvas == *old(canvas),
            sx <= start,
            forall|j: int| sx <= j < run_end ==> flat(#[trigger] row_s[j]),
        decreases len - k,
    {
        let c = canvas.chars[sy][start + k];
        if c != ' ' && c != '─' && c != '━' && c != '┄' {
            proof {
                assert(flat(row_s[start + k]));
            }
            return;
        }
        k += 1;
    }
    proof {
        assert(canvas.chars_g()[0].len() == canvas.width_of());
    }
    write_label(canvas, start, sy, text);
}

// ---------------------------------------------------------------------------
// Subgraph containers.
/// Number of subgraphs strictly above `cur`'s chain start: 0 for the top
/// level.
pub open spec fn ancestors(subs: Seq<crate::graph::Subgraph>, cur: Option<usize>) -> nat
    decreases (match cur {
        Some(s) => s + 1,
        None => 0,
    }),
{
    match cur {
        None => 0,
        Some(p) => if p < subs.len() {
            match subs[p as int].parent {
                Some(q) => if q < p {
                    1 + ancestors(subs, Some(q))
                } else {
                    1
                },
                None => 1,
            }
        } else {
            1
        },
    }
}

/// Nesting depth of a subgraph: how many subgraphs enclose it.
fn depth(g: &Graph, sid: SubgraphId) -> (d: usize)
    requires
        g.shape_ok(),
        sid < g.subgraphs.len(),
    ensures
        d == ancestors(g.subgraphs@, g.subgraphs@[sid as int].parent),
{
    let mut d: usize = 0;
    let mut cur = g.subgraphs[sid].parent;
    proof {
        if let Some(p) = cur {
            assert(p < sid);
        }
    }
    while cur.is_some()
        invariant
            g.shape_ok(),
            sid < g.subgraphs.len(),
            cur matches Some(p) ==> p < sid,
            d + ancestors(g.subgraphs@, cur) == ancestors(g.subgraphs@, g.subgraphs@[sid as int].parent),
            d <= sid - (match cur {
                Some(p) => p + 1,
                None => 0,
            }) + 1,
        decreases (match cur {
            Some(p) => p + 1,
            None => 0,
        }),
    {
        let p = cur.unwrap();
        d += 1;
        cur = g.subgraphs[p].parent;
    }
    d
}

/// A character of some subgraph's title or name.
pub open spec fn title_char(g: Graph, c: char) -> bool {
    exists|s: int|
        0 <= s < g.subgraphs.len() && ((#[trigger] g.subgraphs@[s]).label@.contains(c)
            || g.subgraphs@[s].name@.contains(c))
}

pub open spec fn title_p(g: Graph) -> spec_fn(char) -> bool {
    |c: char| base_char(c) || title_char(g, c)
}

proof fn lemma_drawn_widen(a: Canvas, b: Canvas, p: spec_fn(char) -> bool, q: spec_fn(char) -> bool)
    requires
        drawn_from(a, b, p),
        forall|c: char| #[trigger] p(c) ==> q(c),
    ensures
        drawn_from(a, b, q),
{
    assert forall|x: int, y: int| b.inside(x, y) implies (a.inside(x, y) && #[trigger] b.chars_g()[y][x] == a.chars_g()[y][x]) || q(
        b.chars_g()[y][x],
    ) by {
        if !(a.inside(x, y) && b.chars_g()[y][x] == a.chars_g()[y][x]) {
            assert(p(b.chars_g()[y][x]));
        }
    }
}

proof fn lemma_drawn_grow(b: Canvas, c: Canvas, p: spec_fn(char) -> bool)
    requires
        b.wf(),
        c.wf(),
        c.height() >= b.height(),
        c.width_of() >= b.width_of(),
        c.chars_g() == grown(b.chars_g(), c.height() as nat, c.width_of() as nat, ' '),
        p(' '),
    ensures
        drawn_from(b, c, p),
{
    assert forall|x: int, y: int| c.inside(x, y) implies (b.inside(x, y) && #[trigger] c.chars_g()[y][x] == b.chars_g()[y][x]) || p(
        c.chars_g()[y][x],
    ) by {
        if y < b.height() {
            assert(b.chars_g()[y].len() == b.width_of());
        }
    }
}

/// What container drawing keeps of canvas `a` in `b`: the canvas only
/// grows, line art is untouched, and a cell that was a box border stays
/// a border (or becomes part of a container title).
pub open spec fn containers_keep(a: Canvas, b: Canvas) -> bool {
    &&& a.wf()
    &&& b.wf()
    &&& b.height() >= a.height()
    &&& b.width_of() >= a.width_of()
    &&& b.sides_g() == grown(a.sides_g(), b.height() as nat, b.width_of() as nat, 0u8)
    &&& b.styles_g() == grown(a.styles_g(), b.height() as nat, b.width_of() as nat, EdgeStyle::Normal)
    &&& forall|x: int, y: int|
        a.inside(x, y) && a.kinds_g()[y][x] == CellKind::Border ==> (#[trigger] b.kinds_g()[y][x] == CellKind::Border
            || b.kinds_g()[y][x] == CellKind::Label)
}

proof fn lemma_keep_refl(a: Canvas)
    requires
        a.wf(),
    ensures
        containers_keep(a, a),
{
    if a.height() > 0 {
        assert(a.chars_g()[0].len() == a.width_of());
    }
    assert(grown(a.sides_g(), a.height() as nat, a.width_of() as nat, 0u8) =~= a.sides_g()) by {
        assert forall|y: int| 0 <= y < a.height() implies grown(a.sides_g(), a.height() as nat, a.width_of() as nat, 0u8)[y] =~= a.sides_g()[y] by {
            assert(a.sides_g()[y].len() == a.width_of());
        }
    }
    assert(grown(a.styles_g(), a.height() as nat, a.width_of() as nat, EdgeStyle::Normal) =~= a.styles_g()) by {
        assert forall|y: int| 0 <= y < a.height() implies grown(a.styles_g(), a.height() as nat, a.width_of() as nat, EdgeStyle::Normal)[y] =~= a.styles_g()[y] by {
            assert(a.styles_g()[y].len() == a.width_of());
        }
    }
}

/// A border or label write keeps what containers keep.
#[verifier::spinoff_prover]
proof fn lemma_keep_set(a: Canvas, b: Canvas, c: Canvas, px: usize, py: usize, kind: CellKind)
    requires
        containers_keep(a, b),
        kind == CellKind::Border || kind == CellKind::Label,
        c.wf(),
        c.height() == b.height(),
        c.width_of() == b.width_of(),
        c.sides@ == b.sides@,
        c.cell_style@ == b.cell_style@,
        c.kinds_g() == (if b.inside(px as int, py as int) { upd(b.kinds_g(), px as int, py as int, kind) } else { b.kinds_g() }),
    ensures
        containers_keep(a, c),
{
    assert forall|x: int, y: int|
        a.inside(x, y) && a.kinds_g()[y][x] == CellKind::Border implies (#[trigger] c.kinds_g()[y][x] == CellKind::Border
            || c.kinds_g()[y][x] == CellKind::Label) by {
        assert(b.kinds_g()[y].len() == b.width_of());
        assert(b.kinds_g()[y][x] == CellKind::Border || b.kinds_g()[y][x] == CellKind::Label);
    }
}

proof fn lemma_keep_grow(a: Canvas, b: Canvas, c: Canvas)
    requires
        containers_keep(a, b),
        c.wf(),
        c.height() >= b.height(),
        c.width_of() >= b.width_of(),
        c.sides_g() == grown(b.sides_g(), c.height() as nat, c.width_of() as nat, 0u8),
        c.styles_g() == grown(b.styles_g(), c.height() as nat, c.width_of() as nat, EdgeStyle::Normal),
        c.kinds_g() == grown(b.kinds_g(), c.height() as nat, c.width_of() as nat, CellKind::Empty),
    ensures
        containers_keep(a, c),
{
    assert(c.sides_g() =~= grown(a.sides_g(), c.height() as nat, c.width_of() as nat, 0u8)) by {
        assert forall|y: int| 0 <= y < c.height() implies c.sides_g()[y] =~= grown(a.sides_g(), c.height() as nat, c.width_of() as nat, 0u8)[y] by {
            if y < b.height() {
                assert(b.sides_g()[y].len() == b.width_of());
            }
            if y < a.height() {
                assert(a.sides_g()[y].len() == a.width_of());
            }
        }
    }
    assert(c.styles_g() =~= grown(a.styles_g(), c.height() as nat, c.width_of() as nat, EdgeStyle::Normal)) by {
        assert forall|y: int| 0 <= y < c.height() implies c.styles_g()[y] =~= grown(a.styles_g(), c.height() as nat, c.width_of() as nat, EdgeStyle::Normal)[y] by {
            if y < b.height() {
                assert(b.styles_g()[y].len() == b.width_of());
            }
            if y < a.height() {
                assert(a.styles_g()[y].len() == a.width_of());
            }
        }
    }
    assert forall|x: int, y: int|
        a.inside(x, y) && a.kinds_g()[y][x] == CellKind::Border implies (#[trigger] c.kinds_g()[y][x] == CellKind::Border
            || c.kinds_g()[y][x] == CellKind::Label) by {
        assert(b.kinds_g()[y].len() == b.width_of());
        assert(c.kinds_g()[y][x] == b.kinds_g()[y][x]);
    }
}

impl Canvas {
    /// Draws a container stroke unless the cell is a box border.
    fn put_border(&mut self, x: usize, y: usize, ch: char, Ghost(a): Ghost<Canvas>)
        requires
            containers_keep(a, *old(self)),
        ensures
            containers_keep(a, *final(self)),
            final(self).height() == old(self).height(),
            final(self).width_of() == old(self).width_of(),
            final(self).override_style@ == old(self).override_style@,
            base_char(ch) ==> drawn_from(*old(self), *final(self), base_p()),
            final(self).sides@ == old(self).sides@,
            final(self).cell_style@ == old(self).cell_style@,
            final(self).chars_g() == (if old(self).inside(x as int, y as int) && old(self).kinds_g()[y as int][x as int]
                != CellKind::Border {
                upd(old(self).chars_g(), x as int, y as int, ch)
            } else {
                old(self).chars_g()
            }),
            final(self).kinds_g() == (if old(self).inside(x as int, y as int) && old(self).kinds_g()[y as int][x as int]
                != CellKind::Border {
                upd(old(self).kinds_g(), x as int, y as int, CellKind::Border)
            } else {
                old(self).kinds_g()
            }),
    {
        let ghost a0 = *self;
        let is_border = if self.in_bounds(x, y) {
            proof {
                assert(self.kinds_g()[y as int].len() == self.width_of());
            }
            self.kinds[y][x] == CellKind::Border
        } else {
            false
        };
        if !is_border {
            let ghost b = *self;
            self.set(x, y, ch, CellKind::Border);
            proof {
                lemma_keep_set(a, b, *self, x, y, CellKind::Border);
                if base_char(ch) {
                    lemma_drawn_set(b, *self, x, y, ch, base_p());
                }
            }
        }
    }
}

/// Every node has a size of at least one cell and its far sides fit in
/// `usize`.
pub open spec fn nodes_sized(g: Graph) -> bool {
    forall|i: int|
        0 <= i < g.nodes.len() ==> 1 <= (#[trigger] g.nodes@[i]).width && 1 <= g.nodes@[i].height
            && g.nodes@[i].x + g.nodes@[i].width <= usize::MAX && g.nodes@[i].y + g.nodes@[i].height <= usize::MAX
}

/// Cell `(cx, cy)` lies on the border of the rectangle
/// `[l, r] x [t, b]`.
pub open spec fn on_frame(cx: int, cy: int, l: int, r: int, t: int, b: int) -> bool {
    t <= cy <= b && l <= cx <= r && (cy == t || cy == b || cx == l || cx == r)
}

/// Cell `(x, y)` of `c` is part of a drawn outline: a border or a title.
pub open spec fn outline_cell(c: Canvas, x: int, y: int) -> bool {
    c.kinds_g()[y][x] == CellKind::Border || c.kinds_g()[y][x] == CellKind::Label
}

/// Every cell of the frame `[l, r] x [t, b]` that lies on `c` (at `usize`
/// coordinates) is drawn.
pub open spec fn outlined(c: Canvas, l: int, r: int, t: int, b: int) -> bool {
    forall|x: int, y: int|
        c.inside(x, y) && x < usize::MAX && y < usize::MAX && on_frame(x, y, l, r, t, b) ==> #[trigger] outline_cell(c, x, y)
}

/// The frame a subgraph's container is drawn on: its members' bounding
/// box widened by 2 left, right and top and by 1 at the bottom.
pub open spec fn frame_of(g: Graph, sid: usize) -> (int, int, int, int) {
    let bb = sub_bounds(g, sid, g.nodes.len() as int);
    (ssub(bb.1, 2) as int, sadd(bb.2, 2) as int, ssub(bb.3, 2) as int, sadd(bb.4, 1) as int)
}

/// The subgraph has at least one member node.
pub open spec fn has_members(g: Graph, sid: usize) -> bool {
    sub_bounds(g, sid, g.nodes.len() as int).0
}

/// `(x, y)` lies on the frame of one of the subgraphs `order[0..k]` that
/// have members.
pub open spec fn on_drawn_frame(g: Graph, order: Seq<usize>, k: int, x: int, y: int) -> bool {
    exists|j: int|
        0 <= j < k && has_members(g, #[trigger] order[j]) && on_frame(x, y, frame_of(g, order[j]).0, frame_of(g, order[j]).1, frame_of(g, order[j]).2, frame_of(g, order[j]).3)
}

/// `(x, y)` lies on the frame of some subgraph that has members.
pub open spec fn on_some_frame(g: Graph, x: int, y: int) -> bool {
    exists|sid: int|
        0 <= sid < g.subgraphs.len() && #[trigger] has_members(g, sid as usize) && on_frame(
            x,
            y,
            frame_of(g, sid as usize).0,
            frame_of(g, sid as usize).1,
            frame_of(g, sid as usize).2,
            frame_of(g, sid as usize).3,
        )
}

/// A drawn frame that lay within `b` stays drawn in a grown `c` that keeps
/// `b`'s outlines.
proof fn lemma_outlined_grow(b: Canvas, c: Canvas, l: int, r: int, t: int, bt: int)
    requires
        outlined(b, l, r, t, bt),
        outlines_kept(b, c),
        0 <= r <= usize::MAX,
        0 <= bt <= usize::MAX,
        b.width_of() >= sadd(r as usize, 1),
        b.height() >= sadd(bt as usize, 1),
    ensures
        outlined(c, l, r, t, bt),
{
    assert forall|x: int, y: int|
        c.inside(x, y) && x < usize::MAX && y < usize::MAX && on_frame(x, y, l, r, t, bt) implies #[trigger] outline_cell(c, x, y) by {
        assert(b.inside(x, y));
        assert(outline_cell(b, x, y));
    }
}

/// `c` is at least as large as `a` and keeps every outline cell of `a`.
pub open spec fn outlines_kept(a: Canvas, c: Canvas) -> bool {
    &&& c.height() >= a.height()
    &&& c.width_of() >= a.width_of()
    &&& forall|x: int, y: int| a.inside(x, y) && outline_cell(a, x, y) ==> #[trigger] outline_cell(c, x, y)
}

/// Cell `(x, y)` of `c` is as in `a`, its style override included.
pub open spec fn kept_at(a: Canvas, c: Canvas, x: int, y: int) -> bool {
    cell_same(a, c, x, y) && c.over_g()[y][x] == a.over_g()[y][x]
}

/// Cell `(x, y)` of `c` is blank: a space of no kind.
pub open spec fn blank_at(c: Canvas, x: int, y: int) -> bool {
    c.chars_g()[y][x] == ' ' && c.kinds_g()[y][x] == CellKind::Empty
}

/// `c` is `a`, grown, with only cells of the frame `[l, r] x [t, b]`
/// changed; the cells added by growing off the frame are blank.
pub open spec fn off_frame_same(a: Canvas, c: Canvas, l: int, r: int, t: int, b: int) -> bool {
    &&& c.height() >= a.height()
    &&& c.width_of() >= a.width_of()
    &&& forall|x: int, y: int|
        a.inside(x, y) && !on_frame(x, y, l, r, t, b) ==> #[trigger] kept_at(a, c, x, y)
    &&& forall|x: int, y: int|
        c.inside(x, y) && !a.inside(x, y) && !on_frame(x, y, l, r, t, b) ==> #[trigger] blank_at(c, x, y)
}

proof fn lemma_outlines_trans(a: Canvas, b: Canvas, c: Canvas)
    requires
        outlines_kept(a, b),
        outlines_kept(b, c),
    ensures
        outlines_kept(a, c),
{
    assert forall|x: int, y: int| a.inside(x, y) && outline_cell(a, x, y) implies #[trigger] outline_cell(c, x, y) by {
        assert(outline_cell(b, x, y));
    }
}

/// One cell of a frame redrawn as border or title: outlines stay, the cell
/// becomes part of the outline, and nothing off the frame changes.
#[verifier::spinoff_prover]
proof fn lemma_frame_cell(
    a0: Canvas,
    b: Canvas,
    c: Canvas,
    px: int,
    py: int,
    ch: char,
    k: CellKind,
    l: int,
    r: int,
    t: int,
    bt: int,
)
    requires
        b.wf(),
        c.wf(),
        c.height() == b.height(),
        c.width_of() == b.width_of(),
        c.sides_g() == b.sides_g(),
        c.styles_g() == b.styles_g(),
        c.over_g() == b.over_g(),
        k == CellKind::Border || k == CellKind::Label,
        c.chars_g() == b.chars_g() || (b.inside(px, py) && c.chars_g() == upd(b.chars_g(), px, py, ch)),
        (c.kinds_g() == b.kinds_g() && (b.inside(px, py) ==> b.kinds_g()[py][px] == CellKind::Border)) || (b.inside(px, py)
            && c.kinds_g() == upd(b.kinds_g(), px, py, k)),
        off_frame_same(a0, b, l, r, t, bt),
        on_frame(px, py, l, r, t, bt),
    ensures
        outlines_kept(b, c),
        off_frame_same(a0, c, l, r, t, bt),
        b.inside(px, py) ==> outline_cell(c, px, py),
{
    assert forall|x: int, y: int| b.inside(x, y) && !(x == px && y == py) implies c.chars_g()[y][x] == b.chars_g()[y][x]
        && c.kinds_g()[y][x] == b.kinds_g()[y][x] by {
        assert(b.chars_g()[y].len() == b.width_of());
        assert(b.kinds_g()[y].len() == b.width_of());
        if y == py {
            if c.chars_g() != b.chars_g() {
                assert(upd(b.chars_g(), px, py, ch)[y] == b.chars_g()[py].update(px, ch));
            }
            if c.kinds_g() != b.kinds_g() {
                assert(upd(b.kinds_g(), px, py, k)[y] == b.kinds_g()[py].update(px, k));
            }
        }
    }
    if b.inside(px, py) {
        assert(b.kinds_g()[py].len() == b.width_of());
        if c.kinds_g() != b.kinds_g() {
            assert(upd(b.kinds_g(), px, py, k)[py] == b.kinds_g()[py].update(px, k));
        }
    }
    assert forall|x: int, y: int| b.inside(x, y) && outline_cell(b, x, y) implies #[trigger] outline_cell(c, x, y) by {}
    assert forall|x: int, y: int| a0.inside(x, y) && !on_frame(x, y, l, r, t, bt) implies #[trigger] kept_at(a0, c, x, y) by {
        assert(kept_at(a0, b, x, y));
    }
    assert forall|x: int, y: int| c.inside(x, y) && !a0.inside(x, y) && !on_frame(x, y, l, r, t, bt) implies #[trigger] blank_at(c, x, y) by {
        assert(blank_at(b, x, y));
    }
}

/// Growing the canvas keeps what it had, blank around it.
proof fn lemma_frame_grow(a0: Canvas, c: Canvas, nh: nat, nw: nat, l: int, r: int, t: int, bt: int)
    requires
        a0.wf(),
        c.wf(),
        nh >= a0.height(),
        nw >= a0.width_of(),
        c.height() == nh,
        c.width_of() == nw,
        c.chars_g() == grown(a0.chars_g(), nh, nw, ' '),
        c.kinds_g() == grown(a0.kinds_g(), nh, nw, CellKind::Empty),
        c.sides_g() == grown(a0.sides_g(), nh, nw, 0u8),
        c.styles_g() == grown(a0.styles_g(), nh, nw, EdgeStyle::Normal),
        c.over_g() == grown(a0.over_g(), nh, nw, empty_style()),
    ensures
        off_frame_same(a0, c, l, r, t, bt),
        outlines_kept(a0, c),
{
    assert forall|x: int, y: int| a0.inside(x, y) && !on_frame(x, y, l, r, t, bt) implies #[trigger] kept_at(a0, c, x, y) by {
        lemma_grown_cell(a0, c, nh, nw, x, y);
    }
    assert forall|x: int, y: int| c.inside(x, y) && !a0.inside(x, y) && !on_frame(x, y, l, r, t, bt) implies #[trigger] blank_at(c, x, y) by {
        lemma_grown_cell(a0, c, nh, nw, x, y);
    }
    assert forall|x: int, y: int| a0.inside(x, y) && outline_cell(a0, x, y) implies #[trigger] outline_cell(c, x, y) by {
        lemma_grown_cell(a0, c, nh, nw, x, y);
    }
}

proof fn lemma_grown_cell(a0: Canvas, c: Canvas, nh: nat, nw: nat, x: int, y: int)
    requires
        a0.wf(),
        nh >= a0.height(),
        nw >= a0.width_of(),
        c.chars_g() == grown(a0.chars_g(), nh, nw, ' '),
        c.kinds_g() == grown(a0.kinds_g(), nh, nw, CellKind::Empty),
        c.sides_g() == grown(a0.sides_g(), nh, nw, 0u8),
        c.styles_g() == grown(a0.styles_g(), nh, nw, EdgeStyle::Normal),
        c.over_g() == grown(a0.over_g(), nh, nw, empty_style()),
        0 <= y < nh,
        0 <= x < nw,
    ensures
        a0.inside(x, y) ==> cell_same(a0, c, x, y) && c.over_g()[y][x] == a0.over_g()[y][x],
        !a0.inside(x, y) ==> c.chars_g()[y][x] == ' ' && c.kinds_g()[y][x] == CellKind::Empty,
{
    if a0.inside(x, y) {
        assert(a0.chars_g()[y].len() == a0.width_of());
        assert(a0.kinds_g()[y].len() == a0.width_of());
        assert(a0.sides_g()[y].len() == a0.width_of());
        assert(a0.styles_g()[y].len() == a0.width_of());
        assert(a0.over_g()[y].len() == a0.width_of());
    } else if y < a0.height() {
        assert(a0.chars_g()[y].len() == a0.width_of());
        assert(a0.kinds_g()[y].len() == a0.width_of());
    }
}

/// Sets the style override on the border of the rectangle
/// `[left, right] x [top, bottom]`.
fn override_frame(canvas: &mut Canvas, left: usize, right: usize, top: usize, bottom: usize, style: Style)
    requires
        old(canvas).wf(),
    ensures
        final(canvas).wf(),
        final(canvas).height() == old(canvas).height(),
        final(canvas).width_of() == old(canvas).width_of(),
        final(canvas).chars@ == old(canvas).chars@,
        final(canvas).kinds@ == old(canvas).kinds@,
        final(canvas).sides@ == old(canvas).sides@,
        final(canvas).cell_style@ == old(canvas).cell_style@,
        forall|cx: int, cy: int|
            old(canvas).inside(cx, cy) ==> #[trigger] final(canvas).over_g()[cy][cx] == (if on_frame(
                cx,
                cy,
                left as int,
                right as int,
                top as int,
                bottom as int,
            ) {
                style
            } else {
                old(canvas).over_g()[cy][cx]
            }),
{
    let ghost a = *canvas;
    if top > bottom || left > right {
        return;
    }
    let mut y = top;
    loop
        invariant_except_break
            top <= y <= bottom,
            forall|cx: int, cy: int|
                a.inside(cx, cy) ==> #[trigger] canvas.over_g()[cy][cx] == (if on_frame(cx, cy, left as int, right as int, top as int, bottom as int) && cy < y {
                    style
                } else {
                    a.over_g()[cy][cx]
                }),
        invariant
            left <= right,
            top <= bottom,
            a == *old(canvas),
            canvas.wf(),
            canvas.height() == old(canvas).height(),
            canvas.width_of() == old(canvas).width_of(),
            canvas.chars@ == old(canvas).chars@,
            canvas.kinds@ == old(canvas).kinds@,
            canvas.sides@ == old(canvas).sides@,
            canvas.cell_style@ == old(canvas).cell_style@,
        ensures
            forall|cx: int, cy: int|
                a.inside(cx, cy) ==> #[trigger] canvas.over_g()[cy][cx] == (if on_frame(cx, cy, left as int, right as int, top as int, bottom as int) {
                    style
                } else {
                    a.over_g()[cy][cx]
                }),
        decreases bottom - y,
    {
        let mut x = left;
        loop
            invariant_except_break
                left <= x <= right,
                forall|cx: int, cy: int|
                    a.inside(cx, cy) ==> #[trigger] canvas.over_g()[cy][cx] == (if on_frame(cx, cy, left as int, right as int, top as int, bottom as int)
                        && (cy < y || (cy == y && cx < x)) {
                        style
                    } else {
                        a.over_g()[cy][cx]
                    }),
            invariant
                left <= right,
                top <= y <= bottom,
                a == *old(canvas),
                canvas.wf(),
                canvas.height() == old(canvas).height(),
                canvas.width_of() == old(canvas).width_of(),
                canvas.chars@ == old(canvas).chars@,
                canvas.kinds@ == old(canvas).kinds@,
                canvas.sides@ == old(canvas).sides@,
                canvas.cell_style@ == old(canvas).cell_style@,
            ensures
                forall|cx: int, cy: int|
                    a.inside(cx, cy) ==> #[trigger] canvas.over_g()[cy][cx] == (if on_frame(cx, cy, left as int, right as int, top as int, bottom as int)
                        && cy <= y {
                        style
                    } else {
                        a.over_g()[cy][cx]
                    }),
            decreases right - x,
        {
            let ghost b = *canvas;
            if y == top || y == bottom || x == left || x == right {
                canvas.set_override(x, y, style);
            }
            proof {
                assert forall|cx: int, cy: int| a.inside(cx, cy) implies #[trigger] canvas.over_g()[cy][cx] == (if on_frame(
                    cx,
                    cy,
                    left as int,
                    right as int,
                    top as int,
                    bottom as int,
                ) && (cy < y || (cy == y && cx <= x)) {
                    style
                } else {
                    a.over_g()[cy][cx]
                }) by {
                    assert(b.over_g()[cy].len() == b.width_of());
                    assert(b.over_g()[cy][cx] == (if on_frame(cx, cy, left as int, right as int, top as int, bottom as int) && (cy < y
                        || (cy == y && cx < x)) {
                        style
                    } else {
                        a.over_g()[cy][cx]
                    }));
                }
            }
            if x == right {
                break;
            }
            x += 1;
        }
        if y == bottom {
            break;
        }
        y += 1;
    }
}

/// Draws the container of subgraph `sid` around every node in it (nested
/// ones included): a square border with padding, the title on the top
/// border where it fits, and the subgraph's style on the border. Cells
/// that are box borders are left alone.
/// Whether any node lies in subgraph `sid` (nested ones included), and the
/// least and greatest columns and rows its boxes cover, over the first `n`
/// nodes.
pub open spec fn sub_bounds(g: Graph, sid: usize, n: int) -> (bool, usize, usize, usize, usize)
    decreases n,
{
    if n <= 0 {
        (false, usize::MAX, 0, usize::MAX, 0)
    } else {
        let p = sub_bounds(g, sid, n - 1);
        let nd = g.nodes@[n - 1];
        if in_chain(g.subgraphs@, nd.subgraph, sid) {
            let r = nd.x + nd.width - 1;
            let b = nd.y + nd.height - 1;
            (
                true,
                if nd.x < p.1 { nd.x } else { p.1 },
                if r > p.2 { r as usize } else { p.2 },
                if nd.y < p.3 { nd.y } else { p.3 },
                if b > p.4 { b as usize } else { p.4 },
            )
        } else {
            p
        }
    }
}

/// Corner `(x, y)` of `c` shows `ch`, unless `o` already had a box border
/// there.
pub open spec fn corner_ok(o: Canvas, c: Canvas, x: int, y: int, ch: char) -> bool {
    c.inside(x, y) ==> c.chars_g()[y][x] == ch || (o.inside(x, y) && o.kinds_g()[y][x] == CellKind::Border)
}

/// The four corners of the container `[l, r] x [t, b]`.
pub open spec fn corners_ok(o: Canvas, c: Canvas, l: int, r: int, t: int, b: int) -> bool {
    &&& corner_ok(o, c, l, t, '┌')
    &&& corner_ok(o, c, r, t, '┐')
    &&& corner_ok(o, c, l, b, '└')
    &&& corner_ok(o, c, r, b, '┘')
}

/// `(x, y)` is one of the four corners.
pub open spec fn is_corner(x: int, y: int, l: int, r: int, t: int, b: int) -> bool {
    (x == l || x == r) && (y == t || y == b)
}

#[verifier::spinoff_prover]
proof fn lemma_corners_keep(o: Canvas, c1: Canvas, c2: Canvas, px: int, py: int, v: char, l: int, r: int, t: int, b: int)
    requires
        corners_ok(o, c1, l, r, t, b),
        c2.height() == c1.height(),
        c2.width_of() == c1.width_of(),
        c1.wf(),
        !is_corner(px, py, l, r, t, b),
        c2.chars_g() == c1.chars_g() || (c1.inside(px, py) && c2.chars_g() == upd(c1.chars_g(), px, py, v)),
    ensures
        corners_ok(o, c2, l, r, t, b),
{
    if c2.inside(l, t) {
        assert(c1.chars_g()[t].len() == c1.width_of());
    }
    if c2.inside(r, t) {
        assert(c1.chars_g()[t].len() == c1.width_of());
    }
    if c2.inside(l, b) {
        assert(c1.chars_g()[b].len() == c1.width_of());
    }
    if c2.inside(r, b) {
        assert(c1.chars_g()[b].len() == c1.width_of());
    }
}

/// The corner cells' kinds in `c` are those in `e`.
pub open spec fn corner_kinds(e: Canvas, c: Canvas, l: int, r: int, t: int, b: int) -> bool {
    &&& e.inside(l, t) ==> c.kinds_g()[t][l] == e.kinds_g()[t][l]
    &&& e.inside(r, t) ==> c.kinds_g()[t][r] == e.kinds_g()[t][r]
    &&& e.inside(l, b) ==> c.kinds_g()[b][l] == e.kinds_g()[b][l]
    &&& e.inside(r, b) ==> c.kinds_g()[b][r] == e.kinds_g()[b][r]
}

/// `c2` is `c1` after a container stroke `ch` at `(px, py)`.
pub open spec fn stroke(c1: Canvas, c2: Canvas, px: int, py: int, ch: char) -> bool {
    &&& c2.height() == c1.height()
    &&& c2.width_of() == c1.width_of()
    &&& c2.chars_g() == (if c1.inside(px, py) && c1.kinds_g()[py][px] != CellKind::Border {
        upd(c1.chars_g(), px, py, ch)
    } else {
        c1.chars_g()
    })
    &&& c2.kinds_g() == (if c1.inside(px, py) && c1.kinds_g()[py][px] != CellKind::Border {
        upd(c1.kinds_g(), px, py, CellKind::Border)
    } else {
        c1.kinds_g()
    })
}

proof fn lemma_kind_kept(c1: Canvas, c2: Canvas, px: int, py: int, cx: int, cy: int, ch: char)
    requires
        c1.wf(),
        stroke(c1, c2, px, py, ch),
        !(cx == px && cy == py),
    ensures
        c1.inside(cx, cy) ==> c2.kinds_g()[cy][cx] == c1.kinds_g()[cy][cx],
{
    if c1.inside(cx, cy) {
        assert(c1.kinds_g()[cy].len() == c1.width_of());
    }
}

#[verifier::spinoff_prover]
proof fn lemma_char_kept(o: Canvas, c1: Canvas, c2: Canvas, px: int, py: int, cx: int, cy: int, ch: char, cc: char)
    requires
        c1.wf(),
        stroke(c1, c2, px, py, cc),
        !(cx == px && cy == py),
        corner_ok(o, c1, cx, cy, ch),
    ensures
        corner_ok(o, c2, cx, cy, ch),
{
    if c1.inside(cx, cy) {
        assert(c1.chars_g()[cy].len() == c1.width_of());
    }
}

proof fn lemma_corner_kinds_keep(e: Canvas, c1: Canvas, c2: Canvas, px: int, py: int, l: int, r: int, t: int, b: int, ch: char)
    requires
        c1.wf(),
        c1.height() == e.height(),
        c1.width_of() == e.width_of(),
        corner_kinds(e, c1, l, r, t, b),
        stroke(c1, c2, px, py, ch),
        !is_corner(px, py, l, r, t, b),
    ensures
        corner_kinds(e, c2, l, r, t, b),
{
    lemma_kind_kept(c1, c2, px, py, l, t, ch);
    lemma_kind_kept(c1, c2, px, py, r, t, ch);
    lemma_kind_kept(c1, c2, px, py, l, b, ch);
    lemma_kind_kept(c1, c2, px, py, r, b, ch);
}

proof fn lemma_corner_put(o: Canvas, e: Canvas, c1: Canvas, c2: Canvas, x: int, y: int, ch: char)
    requires
        o.wf(),
        e.wf(),
        c1.wf(),
        e.height() >= o.height(),
        e.width_of() >= o.width_of(),
        e.kinds_g() == grown(o.kinds_g(), e.height() as nat, e.width_of() as nat, CellKind::Empty),
        c1.height() == e.height(),
        c1.width_of() == e.width_of(),
        e.inside(x, y) ==> c1.kinds_g()[y][x] == e.kinds_g()[y][x],
        stroke(c1, c2, x, y, ch),
    ensures
        corner_ok(o, c2, x, y, ch),
{
    if c2.inside(x, y) {
        assert(c1.chars_g()[y].len() == c1.width_of());
        assert(c1.kinds_g()[y].len() == c1.width_of());
        if y < o.height() {
            assert(o.kinds_g()[y].len() == o.width_of());
        }
    }
}

proof fn lemma_border_step(a0: Canvas, b: Canvas, c: Canvas, g: Graph)
    requires
        drawn_from(a0, b, title_p(g)),
        drawn_from(b, c, base_p()),
    ensures
        drawn_from(a0, c, title_p(g)),
{
    lemma_drawn_widen(b, c, base_p(), title_p(g));
    lemma_drawn_trans(a0, b, c, title_p(g));
}

proof fn lemma_outlined_keep(b: Canvas, c: Canvas, l: int, r: int, t: int, bt: int)
    requires
        outlined(b, l, r, t, bt),
        outlines_kept(b, c),
        c.height() == b.height(),
        c.width_of() == b.width_of(),
    ensures
        outlined(c, l, r, t, bt),
{
    assert forall|x: int, y: int| c.inside(x, y) && on_frame(x, y, l, r, t, bt) implies #[trigger] outline_cell(c, x, y) by {
        assert(outline_cell(b, x, y));
    }
}

/// After one side cell at row `y` is drawn, the drawn parts of the frame
/// so far are still drawn and now reach row `y` on that side.
proof fn lemma_frame_progress(b: Canvas, c: Canvas, l: int, r: int, t: int, bt: int, y: int, left_side: bool)
    requires
        outlines_kept(b, c),
        c.height() == b.height(),
        c.width_of() == b.width_of(),
        forall|x2: int| l < x2 < r && b.inside(x2, t) ==> #[trigger] outline_cell(b, x2, t),
        forall|x2: int| l < x2 < r && b.inside(x2, bt) ==> #[trigger] outline_cell(b, x2, bt),
        forall|y2: int| t < y2 < (if left_side { y } else { y + 1 }) && b.inside(l, y2) ==> #[trigger] outline_cell(b, l, y2),
        forall|y2: int| t < y2 < y && b.inside(r, y2) ==> #[trigger] outline_cell(b, r, y2),
        b.inside(if left_side { l } else { r }, y) ==> outline_cell(c, if left_side { l } else { r }, y),
    ensures
        forall|x2: int| l < x2 < r && c.inside(x2, t) ==> #[trigger] outline_cell(c, x2, t),
        forall|x2: int| l < x2 < r && c.inside(x2, bt) ==> #[trigger] outline_cell(c, x2, bt),
        forall|y2: int| t < y2 < y + 1 && c.inside(l, y2) ==> #[trigger] outline_cell(c, l, y2),
        forall|y2: int| t < y2 < (if left_side { y } else { y + 1 }) && c.inside(r, y2) ==> #[trigger] outline_cell(c, r, y2),
{
    assert forall|x2: int| l < x2 < r && c.inside(x2, t) implies #[trigger] outline_cell(c, x2, t) by {
        assert(outline_cell(b, x2, t));
    }
    assert forall|x2: int| l < x2 < r && c.inside(x2, bt) implies #[trigger] outline_cell(c, x2, bt) by {
        assert(outline_cell(b, x2, bt));
    }
    assert forall|y2: int| t < y2 < y + 1 && c.inside(l, y2) implies #[trigger] outline_cell(c, l, y2) by {
        if y2 < y || !left_side {
            assert(outline_cell(b, l, y2));
        }
    }
    assert forall|y2: int| t < y2 < (if left_side { y } else { y + 1 }) && c.inside(r, y2) implies #[trigger] outline_cell(c, r, y2) by {
        if y2 < y {
            assert(outline_cell(b, r, y2));
        }
    }
}

/// A drawn frame side or corner stays drawn.
proof fn lemma_frame_keep_all(b: Canvas, c: Canvas, l: int, r: int, t: int, bt: int)
    requires
        outlines_kept(b, c),
        c.height() == b.height(),
        c.width_of() == b.width_of(),
    ensures
        forall|x2: int, y2: int| b.inside(x2, y2) && outline_cell(b, x2, y2) ==> #[trigger] outline_cell(c, x2, y2),
{
}

#[verifier::spinoff_prover]
#[verifier::rlimit(100)]
fn draw_container(canvas: &mut Canvas, g: &Graph, sid: SubgraphId, Ghost(a): Ghost<Canvas>)
    requires
        containers_keep(a, *old(canvas)),
        g.shape_ok(),
        sid < g.subgraphs.len(),
        nodes_sized(*g),
    ensures
        containers_keep(a, *final(canvas)),
        drawn_from(*old(canvas), *final(canvas), title_p(*g)),
        final(canvas).width_of() >= old(canvas).width_of(),
        final(canvas).height() >= old(canvas).height(),
        ({
            let bb = sub_bounds(*g, sid, g.nodes.len() as int);
            &&& !bb.0 ==> *final(canvas) == *old(canvas)
            &&& bb.0 ==> final(canvas).width_of() >= sadd(sadd(bb.2, 2), 1) && final(canvas).height() >= sadd(sadd(bb.4, 1), 1)
            &&& bb.0 ==> corners_ok(
                *old(canvas),
                *final(canvas),
                ssub(bb.1, 2) as int,
                sadd(bb.2, 2) as int,
                ssub(bb.3, 2) as int,
                sadd(bb.4, 1) as int,
            )
            &&& bb.0 ==> outlined(*final(canvas), ssub(bb.1, 2) as int, sadd(bb.2, 2) as int, ssub(bb.3, 2) as int, sadd(bb.4, 1) as int)
            &&& bb.0 ==> off_frame_same(*old(canvas), *final(canvas), ssub(bb.1, 2) as int, sadd(bb.2, 2) as int, ssub(bb.3, 2) as int, sadd(bb.4, 1) as int)
        }),
        outlines_kept(*old(canvas), *final(canvas)),
{
    let ghost a0 = *canvas;
    proof {
        lemma_drawn_refl(a0, title_p(*g));
    }
    let mut min_x = usize::MAX;
    let mut max_x: usize = 0;
    let mut min_y = usize::MAX;
    let mut max_y: usize = 0;
    let mut any = false;
    let mut i: usize = 0;
    while i < g.nodes.len()
        invariant
            g.shape_ok(),
            nodes_sized(*g),
            i <= g.nodes.len(),
            any ==> min_x <= max_x && min_y <= max_y,
            (any, min_x, max_x, min_y, max_y) == sub_bounds(*g, sid, i as int),
            max_x < usize::MAX,
            max_y < usize::MAX,
        decreases g.nodes.len() - i,
    {
        if g.node_in_subgraph(i, sid) {
            any = true;
            let n = &g.nodes[i];
            assert(1 <= n.width && 1 <= n.height);
            if n.x < min_x {
                min_x = n.x;
            }
            if n.x + n.width - 1 > max_x {
                max_x = n.x + n.width - 1;
            }
            if n.y < min_y {
                min_y = n.y;
            }
            if n.y + n.height - 1 > max_y {
                max_y = n.y + n.height - 1;
            }
        }
        i += 1;
    }
    if !any {
        return;
    }
    assert(*canvas == a0);
    let left = min_x.saturating_sub(2);
    let right = max_x.saturating_add(2);
    let top = min_y.saturating_sub(2);
    let bottom = max_y.saturating_add(1);
    let ghost b = *canvas;
    canvas.ensure(right.saturating_add(1), bottom.saturating_add(1));
    let ghost e = *canvas;
    let ghost (li, ri, ti, bi) = (left as int, right as int, top as int, bottom as int);
    proof {
        lemma_keep_grow(a, b, *canvas);
        lemma_drawn_grow(b, *canvas, title_p(*g));
        assert(li < ri && ti < bi);
        lemma_frame_grow(a0, e, e.height() as nat, e.width_of() as nat, li, ri, ti, bi);
    }
    let mut x = left + 1;
    while x < right
        invariant
            containers_keep(a, *canvas),
            drawn_from(a0, *canvas, title_p(*g)),
            left < x,
            li == left && ri == right && ti == top && bi == bottom,
            li < ri && ti < bi,
            canvas.height() == e.height(),
            canvas.width_of() == e.width_of(),
            corner_kinds(e, *canvas, li, ri, ti, bi),
            x <= right,
            canvas.wf(),
            a0.wf(),
            off_frame_same(a0, *canvas, li, ri, ti, bi),
            outlines_kept(a0, *canvas),
            forall|x2: int| li < x2 < x && canvas.inside(x2, ti) ==> #[trigger] outline_cell(*canvas, x2, ti),
            forall|x2: int| li < x2 < x && canvas.inside(x2, bi) ==> #[trigger] outline_cell(*canvas, x2, bi),
        decreases right - x,
    {
        let ghost pb = *canvas;
        canvas.put_border(x, top, '─', Ghost(a));
        proof {
            lemma_border_step(a0, pb, *canvas, *g);
            lemma_corner_kinds_keep(e, pb, *canvas, x as int, top as int, li, ri, ti, bi, '─');
            lemma_frame_cell(a0, pb, *canvas, x as int, ti, '─', CellKind::Border, li, ri, ti, bi);
            lemma_outlines_trans(a0, pb, *canvas);
            assert forall|x2: int| li < x2 < x + 1 && canvas.inside(x2, ti) implies #[trigger] outline_cell(*canvas, x2, ti) by {
                if x2 < x {
                    assert(outline_cell(pb, x2, ti));
                }
            }
            assert forall|x2: int| li < x2 < x && canvas.inside(x2, bi) implies #[trigger] outline_cell(*canvas, x2, bi) by {
                assert(outline_cell(pb, x2, bi));
            }
        }
        let ghost pb = *canvas;
        canvas.put_border(x, bottom, '─', Ghost(a));
        proof {
            lemma_border_step(a0, pb, *canvas, *g);
            lemma_corner_kinds_keep(e, pb, *canvas, x as int, bottom as int, li, ri, ti, bi, '─');
            lemma_frame_cell(a0, pb, *canvas, x as int, bi, '─', CellKind::Border, li, ri, ti, bi);
            lemma_outlines_trans(a0, pb, *canvas);
            assert forall|x2: int| li < x2 < x + 1 && canvas.inside(x2, ti) implies #[trigger] outline_cell(*canvas, x2, ti) by {
                assert(outline_cell(pb, x2, ti));
            }
            assert forall|x2: int| li < x2 < x + 1 && canvas.inside(x2, bi) implies #[trigger] outline_cell(*canvas, x2, bi) by {
                if x2 < x {
                    assert(outline_cell(pb, x2, bi));
                }
            }
        }
        x += 1;
    }
    let mut y = top + 1;
    while y < bottom
        invariant
            containers_keep(a, *canvas),
            drawn_from(a0, *canvas, title_p(*g)),
            top < y,
            li == left && ri == right && ti == top && bi == bottom,
            li < ri && ti < bi,
            canvas.height() == e.height(),
            canvas.width_of() == e.width_of(),
            corner_kinds(e, *canvas, li, ri, ti, bi),
            y <= bottom,
            canvas.wf(),
            a0.wf(),
            off_frame_same(a0, *canvas, li, ri, ti, bi),
            outlines_kept(a0, *canvas),
            forall|x2: int| li < x2 < ri && canvas.inside(x2, ti) ==> #[trigger] outline_cell(*canvas, x2, ti),
            forall|x2: int| li < x2 < ri && canvas.inside(x2, bi) ==> #[trigger] outline_cell(*canvas, x2, bi),
            forall|y2: int| ti < y2 < y && canvas.inside(li, y2) ==> #[trigger] outline_cell(*canvas, li, y2),
            forall|y2: int| ti < y2 < y && canvas.inside(ri, y2) ==> #[trigger] outline_cell(*canvas, ri, y2),
        decreases bottom - y,
    {
        let ghost pb = *canvas;
        canvas.put_border(left, y, '│', Ghost(a));
        proof {
            lemma_border_step(a0, pb, *canvas, *g);
            lemma_corner_kinds_keep(e, pb, *canvas, left as int, y as int, li, ri, ti, bi, '│');
            lemma_frame_cell(a0, pb, *canvas, li, y as int, '│', CellKind::Border, li, ri, ti, bi);
            lemma_outlines_trans(a0, pb, *canvas);
            lemma_frame_progress(pb, *canvas, li, ri, ti, bi, y as int, true);
        }
        let ghost pb = *canvas;
        canvas.put_border(right, y, '│', Ghost(a));
        proof {
            lemma_border_step(a0, pb, *canvas, *g);
            lemma_corner_kinds_keep(e, pb, *canvas, right as int, y as int, li, ri, ti, bi, '│');
            lemma_frame_cell(a0, pb, *canvas, ri, y as int, '│', CellKind::Border, li, ri, ti, bi);
            lemma_outlines_trans(a0, pb, *canvas);
            lemma_frame_progress(pb, *canvas, li, ri, ti, bi, y as int, false);
        }
        y += 1;
    }
    let ghost pb = *canvas;
    canvas.put_border(left, top, '┌', Ghost(a));
    let ghost p1 = *canvas;
    proof {
        lemma_border_step(a0, pb, *canvas, *g);
        lemma_frame_cell(a0, pb, *canvas, li, ti, '┌', CellKind::Border, li, ri, ti, bi);
        lemma_outlines_trans(a0, pb, *canvas);
        lemma_frame_keep_all(pb, *canvas, li, ri, ti, bi);
        lemma_corner_put(a0, e, pb, *canvas, li, ti, '┌');
        lemma_kind_kept(pb, *canvas, li, ti, ri, ti, '┌');
        lemma_kind_kept(pb, *canvas, li, ti, li, bi, '┌');
        lemma_kind_kept(pb, *canvas, li, ti, ri, bi, '┌');
    }
    let ghost pb = *canvas;
    canvas.put_border(right, top, '┐', Ghost(a));
    let ghost p2 = *canvas;
    proof {
        lemma_border_step(a0, pb, *canvas, *g);
        lemma_frame_cell(a0, pb, *canvas, ri, ti, '┐', CellKind::Border, li, ri, ti, bi);
        lemma_outlines_trans(a0, pb, *canvas);
        lemma_frame_keep_all(pb, *canvas, li, ri, ti, bi);
        lemma_corner_put(a0, e, pb, *canvas, ri, ti, '┐');
        lemma_char_kept(a0, pb, *canvas, ri, ti, li, ti, '┌', '┐');
        lemma_kind_kept(pb, *canvas, ri, ti, li, bi, '┐');
        lemma_kind_kept(pb, *canvas, ri, ti, ri, bi, '┐');
    }
    let ghost pb = *canvas;
    canvas.put_border(left, bottom, '└', Ghost(a));
    proof {
        lemma_border_step(a0, pb, *canvas, *g);
        lemma_frame_cell(a0, pb, *canvas, li, bi, '└', CellKind::Border, li, ri, ti, bi);
        lemma_outlines_trans(a0, pb, *canvas);
        lemma_frame_keep_all(pb, *canvas, li, ri, ti, bi);
        lemma_corner_put(a0, e, pb, *canvas, li, bi, '└');
        lemma_char_kept(a0, pb, *canvas, li, bi, li, ti, '┌', '└');
        lemma_char_kept(a0, pb, *canvas, li, bi, ri, ti, '┐', '└');
        lemma_kind_kept(pb, *canvas, li, bi, ri, bi, '└');
    }
    let ghost pb = *canvas;
    canvas.put_border(right, bottom, '┘', Ghost(a));
    proof {
        lemma_border_step(a0, pb, *canvas, *g);
        lemma_frame_cell(a0, pb, *canvas, ri, bi, '┘', CellKind::Border, li, ri, ti, bi);
        lemma_outlines_trans(a0, pb, *canvas);
        lemma_frame_keep_all(pb, *canvas, li, ri, ti, bi);
        lemma_corner_put(a0, e, pb, *canvas, ri, bi, '┘');
        lemma_char_kept(a0, pb, *canvas, ri, bi, li, ti, '┌', '┘');
        lemma_char_kept(a0, pb, *canvas, ri, bi, ri, ti, '┐', '┘');
        lemma_char_kept(a0, pb, *canvas, ri, bi, li, bi, '└', '┘');
        assert(corners_ok(a0, *canvas, li, ri, ti, bi));
        assert(outlined(*canvas, li, ri, ti, bi)) by {
            assert forall|x2: int, y2: int| canvas.inside(x2, y2) && on_frame(x2, y2, li, ri, ti, bi) implies #[trigger] outline_cell(*canvas, x2, y2) by {
                if y2 == ti && li < x2 < ri {
                } else if y2 == bi && li < x2 < ri {
                } else if x2 == li && ti < y2 < bi {
                } else if x2 == ri && ti < y2 < bi {
                } else {
                }
            }
        }
    }
    // Title "── Label ──" on the top border, left-anchored.
    let title = if char_count(&g.subgraphs[sid].label) > 0 {
        chars_of_string(&g.subgraphs[sid].label)
    } else {
        chars_of_string(&g.subgraphs[sid].name)
    };
    if title.len() > 0 {
        let title_len = title.len();
        let inner = (right - left).saturating_sub(2);
        if title_len <= inner.saturating_sub(2) {
            let start = left + 2;
            let ghost b = *canvas;
            canvas.set(start - 1, top, ' ', CellKind::Border);
            proof {
                lemma_corners_keep(a0, b, *canvas, start - 1, top as int, ' ', li, ri, ti, bi);
                lemma_frame_cell(a0, b, *canvas, start - 1, ti, ' ', CellKind::Border, li, ri, ti, bi);
                lemma_outlines_trans(a0, b, *canvas);
                lemma_outlined_keep(b, *canvas, li, ri, ti, bi);
                lemma_keep_set(a, b, *canvas, (start - 1) as usize, top, CellKind::Border);
                lemma_drawn_set(b, *canvas, (start - 1) as usize, top, ' ', title_p(*g));
                lemma_drawn_trans(a0, b, *canvas, title_p(*g));
            }
            let mut k: usize = 0;
            while k < title_len
                invariant
                    containers_keep(a, *canvas),
                    drawn_from(a0, *canvas, title_p(*g)),
                    sid < g.subgraphs.len(),
                    title@ == g.subgraphs@[sid as int].label@ || title@ == g.subgraphs@[sid as int].name@,
                    k <= title_len,
                    title_len == title.len(),
                    start + title_len <= right,
                    li == left && ri == right && ti == top && bi == bottom,
                    li < ri && ti < bi,
            li < ri && ti < bi,
                    start == left + 2,
                    corners_ok(a0, *canvas, li, ri, ti, bi),
                    a0.wf(),
                    off_frame_same(a0, *canvas, li, ri, ti, bi),
                    outlines_kept(a0, *canvas),
                    outlined(*canvas, li, ri, ti, bi),
                    canvas.wf(),
                    canvas.height() == e.height(),
                    canvas.width_of() == e.width_of(),
                decreases title_len - k,
            {
                let ghost b = *canvas;
                canvas.set(start + k, top, title[k], CellKind::Label);
                proof {
                    lemma_corners_keep(a0, b, *canvas, start + k, top as int, title@[k as int], li, ri, ti, bi);
                    lemma_frame_cell(a0, b, *canvas, start + k, ti, title@[k as int], CellKind::Label, li, ri, ti, bi);
                    lemma_outlines_trans(a0, b, *canvas);
                    lemma_outlined_keep(b, *canvas, li, ri, ti, bi);
                    lemma_keep_set(a, b, *canvas, (start + k) as usize, top, CellKind::Label);
                    assert(title@.contains(title@[k as int]));
                    assert(title_char(*g, title@[k as int]));
                    lemma_drawn_set(b, *canvas, (start + k) as usize, top, title@[k as int], title_p(*g));
                    lemma_drawn_trans(a0, b, *canvas, title_p(*g));
                }
                k += 1;
            }
            let ghost b = *canvas;
            canvas.set(start + title_len, top, ' ', CellKind::Border);
            proof {
                lemma_corners_keep(a0, b, *canvas, start + title_len, top as int, ' ', li, ri, ti, bi);
                lemma_frame_cell(a0, b, *canvas, start + title_len, ti, ' ', CellKind::Border, li, ri, ti, bi);
                lemma_outlines_trans(a0, b, *canvas);
                lemma_outlined_keep(b, *canvas, li, ri, ti, bi);
                lemma_keep_set(a, b, *canvas, (start + title_len) as usize, top, CellKind::Border);
                lemma_drawn_set(b, *canvas, (start + title_len) as usize, top, ' ', title_p(*g));
                lemma_drawn_trans(a0, b, *canvas, title_p(*g));
            }
        }
    }
    if !g.subgraphs[sid].style.is_empty() {
        let ghost b = *canvas;
        override_frame(canvas, left, right, top, bottom, g.subgraphs[sid].style);
        proof {
            assert(canvas.kinds_g() == b.kinds_g());
            assert(canvas.sides_g() == b.sides_g());
            assert(canvas.styles_g() == b.styles_g());
            assert(canvas.chars_g() == b.chars_g());
            assert(corners_ok(a0, *canvas, li, ri, ti, bi));
            assert(off_frame_same(a0, b, li, ri, ti, bi));
            assert forall|x2: int, y2: int| canvas.inside(x2, y2) implies #[trigger] outline_cell(*canvas, x2, y2) == outline_cell(b, x2, y2) by {}
            assert forall|x2: int, y2: int| a0.inside(x2, y2) && !on_frame(x2, y2, li, ri, ti, bi) implies #[trigger] kept_at(a0, *canvas, x2, y2) by {
                assert(kept_at(a0, b, x2, y2));
                assert(b.inside(x2, y2));
                assert(canvas.over_g()[y2][x2] == b.over_g()[y2][x2]);
                assert(b.over_g()[y2][x2] == a0.over_g()[y2][x2]);
            }
            assert forall|x2: int, y2: int| canvas.inside(x2, y2) && !a0.inside(x2, y2) && !on_frame(x2, y2, li, ri, ti, bi) implies #[trigger] blank_at(*canvas, x2, y2) by {
                assert(blank_at(b, x2, y2));
            }
            assert(off_frame_same(a0, b, li, ri, ti, bi));
            assert(canvas.height() == b.height() && canvas.width_of() == b.width_of());
            assert(off_frame_same(a0, *canvas, li, ri, ti, bi));
            assert forall|x2: int, y2: int| canvas.inside(x2, y2) && on_frame(x2, y2, li, ri, ti, bi) implies #[trigger] outline_cell(*canvas, x2, y2) by {
                assert(outline_cell(b, x2, y2));
            }
            assert(outlined(*canvas, li, ri, ti, bi));
            assert forall|x2: int, y2: int| a0.inside(x2, y2) && outline_cell(a0, x2, y2) implies #[trigger] outline_cell(*canvas, x2, y2) by {
                assert(outline_cell(b, x2, y2));
            }
            assert(outlines_kept(a0, *canvas));
        }
    }
    proof {
        assert(outlined(*canvas, li, ri, ti, bi));
        assert(off_frame_same(a0, *canvas, li, ri, ti, bi));
        assert(outlines_kept(a0, *canvas));
    }
}

/// `(x, y)` off the frames `order[0..k+1]` is off the frames `order[0..k]`
/// and off frame `order[k]`.
proof fn lemma_off_frames(g: Graph, order: Seq<usize>, k: int, x: int, y: int)
    requires
        0 <= k < order.len(),
        !on_drawn_frame(g, order, k + 1, x, y),
    ensures
        !on_drawn_frame(g, order, k, x, y),
        has_members(g, order[k]) ==> !on_frame(x, y, frame_of(g, order[k]).0, frame_of(g, order[k]).1, frame_of(g, order[k]).2, frame_of(g, order[k]).3),
{
    if on_drawn_frame(g, order, k, x, y) {
        let j = choose|j: int|
            0 <= j < k && has_members(g, #[trigger] order[j]) && on_frame(x, y, frame_of(g, order[j]).0, frame_of(g, order[j]).1, frame_of(g, order[j]).2, frame_of(g, order[j]).3);
        assert(0 <= j < k + 1);
    }
    if has_members(g, order[k]) && on_frame(x, y, frame_of(g, order[k]).0, frame_of(g, order[k]).1, frame_of(g, order[k]).2, frame_of(g, order[k]).3) {
        assert(has_members(g, order[k]));
        assert(on_drawn_frame(g, order, k + 1, x, y));
    }
}

/// One more container drawn: the earlier frames stay drawn.
#[verifier::spinoff_prover]
proof fn lemma_containers_outlines(g: Graph, order: Seq<usize>, k: int, b: Canvas, c: Canvas)
    requires
        0 <= k < order.len(),
        forall|j: int|
            0 <= j < k && #[trigger] has_members(g, order[j]) ==> outlined(b, frame_of(g, order[j]).0, frame_of(g, order[j]).1, frame_of(g, order[j]).2, frame_of(g, order[j]).3),
        forall|j: int|
            0 <= j < k && #[trigger] has_members(g, order[j]) ==> b.width_of() >= sadd(frame_of(g, order[j]).1 as usize, 1)
                && b.height() >= sadd(frame_of(g, order[j]).3 as usize, 1),
        outlines_kept(b, c),
        !has_members(g, order[k]) ==> c == b,
        has_members(g, order[k]) ==> {
            let f = frame_of(g, order[k]);
            outlined(c, f.0, f.1, f.2, f.3)
        },
    ensures
        forall|j: int|
            0 <= j < k + 1 && #[trigger] has_members(g, order[j]) ==> outlined(c, frame_of(g, order[j]).0, frame_of(g, order[j]).1, frame_of(g, order[j]).2, frame_of(g, order[j]).3),
{
    assert forall|j: int|
        0 <= j < k + 1 && #[trigger] has_members(g, order[j]) implies outlined(c, frame_of(g, order[j]).0, frame_of(g, order[j]).1, frame_of(g, order[j]).2, frame_of(g, order[j]).3) by {
        if j < k {
            let f = frame_of(g, order[j]);
            lemma_outlined_grow(b, c, f.0, f.1, f.2, f.3);
        }
    }
}

/// One more container drawn: cells off every drawn frame keep their contents.
#[verifier::spinoff_prover]
proof fn lemma_containers_same(g: Graph, order: Seq<usize>, k: int, a: Canvas, b: Canvas, c: Canvas)
    requires
        0 <= k < order.len(),
        b.width_of() >= a.width_of(),
        b.height() >= a.height(),
        forall|x: int, y: int|
            a.inside(x, y) && !on_drawn_frame(g, order, k, x, y) ==> #[trigger] kept_at(a, b, x, y),
        !has_members(g, order[k]) ==> c == b,
        has_members(g, order[k]) ==> {
            let f = frame_of(g, order[k]);
            off_frame_same(b, c, f.0, f.1, f.2, f.3)
        },
    ensures
        forall|x: int, y: int|
            a.inside(x, y) && !on_drawn_frame(g, order, k + 1, x, y) ==> #[trigger] kept_at(a, c, x, y),
{
    assert forall|x: int, y: int|
        a.inside(x, y) && !on_drawn_frame(g, order, k + 1, x, y) implies #[trigger] kept_at(a, c, x, y) by {
        lemma_off_frames(g, order, k, x, y);
        assert(kept_at(a, b, x, y));
        if has_members(g, order[k]) {
            assert(kept_at(b, c, x, y));
        }
    }
}

/// One more container drawn: cells added by growing, off every drawn frame,
/// are blank.
#[verifier::spinoff_prover]
proof fn lemma_containers_blank(g: Graph, order: Seq<usize>, k: int, a: Canvas, b: Canvas, c: Canvas)
    requires
        0 <= k < order.len(),
        forall|x: int, y: int|
            b.inside(x, y) && !a.inside(x, y) && !on_drawn_frame(g, order, k, x, y) ==> #[trigger] blank_at(b, x, y),
        !has_members(g, order[k]) ==> c == b,
        has_members(g, order[k]) ==> {
            let f = frame_of(g, order[k]);
            off_frame_same(b, c, f.0, f.1, f.2, f.3)
        },
    ensures
        forall|x: int, y: int|
            c.inside(x, y) && !a.inside(x, y) && !on_drawn_frame(g, order, k + 1, x, y) ==> #[trigger] blank_at(c, x, y),
{
    assert forall|x: int, y: int|
        c.inside(x, y) && !a.inside(x, y) && !on_drawn_frame(g, order, k + 1, x, y) implies #[trigger] blank_at(c, x, y) by {
        lemma_off_frames(g, order, k, x, y);
        if has_members(g, order[k]) {
            let f = frame_of(g, order[k]);
            assert(off_frame_same(b, c, f.0, f.1, f.2, f.3));
            if b.inside(x, y) {
                assert(blank_at(b, x, y));
                assert(kept_at(b, c, x, y));
                assert(c.chars_g()[y][x] == b.chars_g()[y][x]);
                assert(c.kinds_g()[y][x] == b.kinds_g()[y][x]);
            } else {
                assert(blank_at(c, x, y));
            }
        } else {
            assert(c == b);
            assert(blank_at(b, x, y));
        }
    }
}

/// With every subgraph drawn in some order, a cell off every frame was off
/// every drawn frame.
#[verifier::spinoff_prover]
proof fn lemma_containers_done(g: Graph, order: Seq<usize>, a: Canvas, c: Canvas)
    requires
        forall|q: int| 0 <= q < order.len() ==> #[trigger] order[q] < g.subgraphs.len(),
        forall|x: int, y: int|
            a.inside(x, y) && !on_drawn_frame(g, order, order.len() as int, x, y) ==> #[trigger] kept_at(a, c, x, y),
        forall|x: int, y: int|
            c.inside(x, y) && !a.inside(x, y) && !on_drawn_frame(g, order, order.len() as int, x, y) ==> #[trigger] blank_at(c, x, y),
    ensures
        forall|x: int, y: int|
            a.inside(x, y) && !on_some_frame(g, x, y) ==> #[trigger] kept_at(a, c, x, y),
        forall|x: int, y: int|
            c.inside(x, y) && !a.inside(x, y) && !on_some_frame(g, x, y) ==> #[trigger] blank_at(c, x, y),
{
    assert forall|x: int, y: int| !on_some_frame(g, x, y) implies !on_drawn_frame(g, order, order.len() as int, x, y) by {
        if on_drawn_frame(g, order, order.len() as int, x, y) {
            let j = choose|j: int|
                0 <= j < order.len() && has_members(g, #[trigger] order[j]) && on_frame(x, y, frame_of(g, order[j]).0, frame_of(g, order[j]).1, frame_of(g, order[j]).2, frame_of(g, order[j]).3);
            let s2 = order[j] as int;
            assert(0 <= s2 < g.subgraphs.len() && has_members(g, s2 as usize));
        }
    }
}

/// Draws every subgraph's container, outer ones first so inner borders
/// end up on top.
fn draw_subgraph_containers(canvas: &mut Canvas, g: &Graph)
    requires
        old(canvas).wf(),
        g.shape_ok(),
        nodes_sized(*g),
    ensures
        containers_keep(*old(canvas), *final(canvas)),
        drawn_from(*old(canvas), *final(canvas), title_p(*g)),
        forall|sid: int|
            0 <= sid < g.subgraphs.len() && (#[trigger] sub_bounds(*g, sid as usize, g.nodes.len() as int)).0
                ==> final(canvas).width_of() >= sadd(sadd(sub_bounds(*g, sid as usize, g.nodes.len() as int).2, 2), 1)
                && final(canvas).height() >= sadd(sadd(sub_bounds(*g, sid as usize, g.nodes.len() as int).4, 1), 1),
        forall|sid: int|
            0 <= sid < g.subgraphs.len() && #[trigger] has_members(*g, sid as usize) ==> outlined(
                *final(canvas),
                frame_of(*g, sid as usize).0,
                frame_of(*g, sid as usize).1,
                frame_of(*g, sid as usize).2,
                frame_of(*g, sid as usize).3,
            ),
        forall|x: int, y: int|
            old(canvas).inside(x, y) && !on_some_frame(*g, x, y) ==> #[trigger] kept_at(*old(canvas), *final(canvas), x, y),
        forall|x: int, y: int|
            final(canvas).inside(x, y) && !old(canvas).inside(x, y) && !on_some_frame(*g, x, y) ==> #[trigger] blank_at(*final(canvas), x, y),
{
    let n = g.subgraphs.len();
    let mut ordered: Vec<usize> = Vec::new();
    let mut keys: Vec<(usize, usize)> = Vec::new();
    let mut sid: usize = 0;
    while sid < n
        invariant
            g.shape_ok(),
            n == g.subgraphs.len(),
            sid <= n,
            ordered.len() == sid,
            keys.len() == sid,
            forall|k: int| 0 <= k < sid ==> #[trigger] ordered@[k] == k,
        decreases n - sid,
    {
        ordered.push(sid);
        keys.push((depth(g, sid), 1));
        sid += 1;
    }
    let ghost before = ordered@;
    crate::layout::sort_by_keys(&mut ordered, &keys);
    proof {
        broadcast use vstd::seq_lib::group_to_multiset_ensures;
        assert forall|s2: int| 0 <= s2 < n implies #[trigger] ordered@.contains(s2 as usize) by {
            assert(before[s2] == s2);
            assert(before.to_multiset().count(s2 as usize) > 0);
        }
    }
    let ghost a = *canvas;
    proof {
        lemma_keep_refl(a);
        lemma_drawn_refl(a, title_p(*g));
    }
    let mut k: usize = 0;
    while k < ordered.len()
        invariant
            g.shape_ok(),
            nodes_sized(*g),
            n == g.subgraphs.len(),
            keys.len() == n,
            forall|k: int| 0 <= k < ordered.len() ==> #[trigger] ordered@[k] < keys.len(),
            containers_keep(a, *canvas),
            drawn_from(a, *canvas, title_p(*g)),
            a == *old(canvas),
            k <= ordered.len(),
            a.wf(),
            forall|q: int| 0 <= q < ordered.len() ==> #[trigger] ordered@[q] < n,
            forall|j: int|
                0 <= j < k && #[trigger] has_members(*g, ordered@[j]) ==> outlined(
                    *canvas,
                    frame_of(*g, ordered@[j]).0,
                    frame_of(*g, ordered@[j]).1,
                    frame_of(*g, ordered@[j]).2,
                    frame_of(*g, ordered@[j]).3,
                ),
            forall|x: int, y: int|
                a.inside(x, y) && !on_drawn_frame(*g, ordered@, k as int, x, y) ==> #[trigger] kept_at(a, *canvas, x, y),
            forall|x: int, y: int|
                canvas.inside(x, y) && !a.inside(x, y) && !on_drawn_frame(*g, ordered@, k as int, x, y) ==> #[trigger] blank_at(*canvas, x, y),
            forall|j: int|
                0 <= j < k && (#[trigger] sub_bounds(*g, ordered@[j], g.nodes.len() as int)).0 ==> canvas.width_of()
                    >= sadd(sadd(sub_bounds(*g, ordered@[j], g.nodes.len() as int).2, 2), 1) && canvas.height()
                    >= sadd(sadd(sub_bounds(*g, ordered@[j], g.nodes.len() as int).4, 1), 1),
        decreases ordered.len() - k,
    {
        let ghost cb = *canvas;
        draw_container(canvas, g, ordered[k], Ghost(a));
        proof {
            lemma_drawn_trans(a, cb, *canvas, title_p(*g));
            assert(canvas.width_of() >= cb.width_of() && canvas.height() >= cb.height());
            lemma_containers_outlines(*g, ordered@, k as int, cb, *canvas);
            lemma_containers_same(*g, ordered@, k as int, a, cb, *canvas);
            lemma_containers_blank(*g, ordered@, k as int, a, cb, *canvas);
        }
        k += 1;
    }
    proof {
        assert forall|sid: int|
            0 <= sid < g.subgraphs.len() && (#[trigger] sub_bounds(*g, sid as usize, g.nodes.len() as int)).0
                implies canvas.width_of() >= sadd(sadd(sub_bounds(*g, sid as usize, g.nodes.len() as int).2, 2), 1)
                && canvas.height() >= sadd(sadd(sub_bounds(*g, sid as usize, g.nodes.len() as int).4, 1), 1) by {
            assert(ordered@.contains(sid as usize));
            let j = choose|j: int| 0 <= j < ordered.len() && ordered@[j] == sid as usize;
            assert(sub_bounds(*g, ordered@[j], g.nodes.len() as int) == sub_bounds(*g, sid as usize, g.nodes.len() as int));
        }
        assert forall|sid: int|
            0 <= sid < g.subgraphs.len() && #[trigger] has_members(*g, sid as usize) implies outlined(
                *canvas,
                frame_of(*g, sid as usize).0,
                frame_of(*g, sid as usize).1,
                frame_of(*g, sid as usize).2,
                frame_of(*g, sid as usize).3,
            ) by {
            assert(ordered@.contains(sid as usize));
            let j = choose|j: int| 0 <= j < ordered.len() && ordered@[j] == sid as usize;
            assert(has_members(*g, ordered@[j]));
        }
        lemma_containers_done(*g, ordered@, a, *canvas);
    }
}

// ---------------------------------------------------------------------------
// The characters a rendering shows.
/// A character of a node label line, an edge label, or a subgraph's title
/// or name.
pub open spec fn label_char(g: Graph, c: char) -> bool {
    ||| exists|i: int, j: int|
        0 <= i < g.nodes.len() && 0 <= j < g.nodes@[i].label_lines.len()
            && (#[trigger] g.nodes@[i].label_lines@[j])@.contains(c)
    ||| exists|e: int| 0 <= e < g.edges.len() && ((#[trigger] g.edges@[e]).label matches Some(l) && l@.contains(c))
    ||| title_char(g, c)
}

pub open spec fn pre_p(g: Graph) -> spec_fn(char) -> bool {
    |c: char| base_char(c) || label_char(g, c)
}

/// A character that a rendering of `g` may show: line art, or label text,
/// possibly mirrored along with the chart.
pub open spec fn drawn_char(g: Graph, c: char) -> bool {
    base_char(c) || label_char(g, c) || label_char(g, mirror_v(c)) || label_char(g, mirror_h(c))
}

pub open spec fn drawn_p(g: Graph) -> spec_fn(char) -> bool {
    |c: char| drawn_char(g, c)
}

/// Line art stays line art when mirrored.
proof fn lemma_base_mirror(c: char)
    ensures
        base_char(mirror_v(c)) ==> base_char(c),
        base_char(mirror_h(c)) ==> base_char(c),
{
}

/// Text made only of drawn characters and newlines holds no escape
/// character unless some label does: with a plain theme, rendering emits
/// no ANSI sequence of its own.
pub proof fn law_plain_no_escape(g: Graph, s: Seq<char>)
    requires
        text_ok(s, drawn_p(g)),
        !label_char(g, '\x1b'),
    ensures
        !s.contains('\x1b'),
{
    if s.contains('\x1b') {
        let k = choose|k: int| 0 <= k < s.len() && s[k] == '\x1b';
        assert(s[k] == '\n' || drawn_char(g, s[k]));
        assert(mirror_v('\x1b') == '\x1b');
        assert(mirror_h('\x1b') == '\x1b');
    }
}

/// Every cell of the canvas shows a character that `p` allows.
pub open spec fn chars_all(c: Canvas, p: spec_fn(char) -> bool) -> bool {
    forall|x: int, y: int| c.inside(x, y) ==> p(#[trigger] c.chars_g()[y][x])
}

proof fn lemma_chars_step(a: Canvas, b: Canvas, p: spec_fn(char) -> bool, q: spec_fn(char) -> bool)
    requires
        chars_all(a, q),
        drawn_from(a, b, p),
        forall|c: char| #[trigger] p(c) ==> q(c),
    ensures
        chars_all(b, q),
{
    assert forall|x: int, y: int| b.inside(x, y) implies q(#[trigger] b.chars_g()[y][x]) by {
        if !p(b.chars_g()[y][x]) {
            assert(a.inside(x, y) && b.chars_g()[y][x] == a.chars_g()[y][x]);
        }
    }
}

proof fn lemma_chars_box(a: Canvas, b: Canvas, x: int, y: int, w: int, h: int, shape: Shape, ls: Seq<Seq<char>>, q: spec_fn(char) -> bool)
    requires
        chars_all(a, q),
        box_drawn(a, b, x, y, w, h, shape, ls, (4, w, w, h, h), ls.len() as int, 0),
        forall|c: char| base_char(c) ==> #[trigger] q(c),
        forall|li: int, ci: int| 0 <= li < ls.len() && 0 <= ci < ls[li].len() ==> q(#[trigger] ls[li][ci]),
    ensures
        chars_all(b, q),
{
    assert forall|cx: int, cy: int| b.inside(cx, cy) implies q(#[trigger] b.chars_g()[cy][cx]) by {
        assert(a.inside(cx, cy));
        assert(box_cell_ok(a, b, x, y, w, h, shape, ls, (4, w, w, h, h), ls.len() as int, 0, cx, cy));
        let cs = corners_of(shape);
        assert(base_char(cs.0) && base_char(cs.1) && base_char(cs.2) && base_char(cs.3));
        assert(q('─') && q('│'));
    }
}

proof fn lemma_chars_text(a: Canvas, b: Canvas, start: int, row: int, t: Seq<char>, q: spec_fn(char) -> bool)
    requires
        chars_all(a, q),
        a.wf(),
        b.height() == a.height(),
        b.width_of() == a.width_of(),
        0 <= row < a.height(),
        0 <= start,
        start + t.len() <= a.width_of(),
        b.chars_g() == put_text(a.chars_g(), start, row, t),
        forall|k: int| 0 <= k < t.len() ==> q(#[trigger] t[k]),
    ensures
        chars_all(b, q),
{
    assert forall|x: int, y: int| b.inside(x, y) implies q(#[trigger] b.chars_g()[y][x]) by {
        assert(a.chars_g()[y].len() == a.width_of());
        if y == row {
            let r = a.chars_g()[row].take(start) + t + a.chars_g()[row].skip(start + t.len());
            assert(b.chars_g()[y] == r);
            if x < start {
                assert(r[x] == a.chars_g()[row][x]);
            } else if x < start + t.len() {
                assert(r[x] == t[x - start]);
            } else {
                assert(r[x] == a.chars_g()[row][x]);
            }
        }
    }
}

proof fn lemma_run_bounds(k: Seq<CellKind>, x: int)
    requires
        0 <= x < k.len(),
    ensures
        0 <= run_start(k, x) <= x < run_end(k, x) <= k.len(),
    decreases k.len(),
{
    lemma_run_start_bound(k, x);
    lemma_run_end_bound(k, x);
}

proof fn lemma_run_start_bound(k: Seq<CellKind>, x: int)
    requires
        0 <= x < k.len(),
    ensures
        0 <= run_start(k, x) <= x,
    decreases x,
{
    if x > 0 && k[x - 1] == CellKind::Label {
        lemma_run_start_bound(k, x - 1);
    }
}

proof fn lemma_run_end_bound(k: Seq<CellKind>, x: int)
    requires
        0 <= x < k.len(),
    ensures
        x < run_end(k, x) <= k.len(),
    decreases k.len() - x,
{
    if x + 1 < k.len() && k[x + 1] == CellKind::Label {
        lemma_run_end_bound(k, x + 1);
    }
}

proof fn lemma_chars_flip_v(a: Canvas, b: Canvas, q: spec_fn(char) -> bool, r: spec_fn(char) -> bool)
    requires
        chars_all(a, q),
        a.wf(),
        b.height() == a.height(),
        b.width_of() == a.width_of(),
        b.chars_g() == mirror_rows_v(rev(a.chars_g())),
        forall|c: char| #[trigger] q(mirror_v(c)) ==> r(c),
    ensures
        chars_all(b, r),
{
    assert forall|x: int, y: int| b.inside(x, y) implies r(#[trigger] b.chars_g()[y][x]) by {
        let oy = a.height() - 1 - y;
        assert(a.chars_g()[oy].len() == a.width_of());
        assert(b.chars_g()[y][x] == mirror_v(a.chars_g()[oy][x]));
        assert(a.inside(x, oy));
        law_mirror_involutive(a.chars_g()[oy][x]);
        assert(q(mirror_v(b.chars_g()[y][x])));
    }
}

proof fn lemma_chars_flip_h(a: Canvas, b: Canvas, q: spec_fn(char) -> bool, r: spec_fn(char) -> bool)
    requires
        chars_all(a, q),
        a.wf(),
        b.height() == a.height(),
        b.width_of() == a.width_of(),
        b.chars_g() == mirror_rows_h(a.chars_g(), a.kinds_g()),
        forall|c: char| #[trigger] q(mirror_h(c)) ==> r(c),
    ensures
        chars_all(b, r),
{
    assert forall|x: int, y: int| b.inside(x, y) implies r(#[trigger] b.chars_g()[y][x]) by {
        let row = a.chars_g()[y];
        let kr = rev(a.kinds_g()[y]);
        let mr = rev(row).map_values(|ch: char| mirror_h(ch));
        assert(row.len() == a.width_of());
        assert(a.kinds_g()[y].len() == a.width_of());
        assert(b.chars_g()[y] == unreverse_labels(mr, kr));
        let src: int = if x < kr.len() && kr[x] == CellKind::Label {
            lemma_run_bounds(kr, x);
            run_start(kr, x) + run_end(kr, x) - 1 - x
        } else {
            x
        };
        assert(0 <= src < row.len());
        assert(b.chars_g()[y][x] == mr[src]);
        let o = row[row.len() - 1 - src];
        assert(a.inside(row.len() - 1 - src, y));
        assert(mr[src] == mirror_h(o));
        law_mirror_involutive(o);
        assert(q(mirror_h(b.chars_g()[y][x])));
    }
}

/// Every character of `s` is a newline or one that `q` allows.
pub open spec fn text_ok(s: Seq<char>, q: spec_fn(char) -> bool) -> bool {
    forall|k: int| 0 <= k < s.len() ==> #[trigger] s[k] == '\n' || q(s[k])
}

proof fn lemma_row_end_le(c: Seq<char>, o: Seq<Style>, apply: bool, n: int)
    requires
        0 <= n,
    ensures
        0 <= row_end(c, o, apply, n) <= n,
    decreases n,
{
    if n > 0 {
        lemma_row_end_le(c, o, apply, n - 1);
    }
}

#[verifier::spinoff_prover]
proof fn lemma_plain_lines(cg: Seq<Seq<char>>, kg: Seq<Seq<CellKind>>, og: Seq<Seq<Style>>, t: Theme, n: int, q: spec_fn(char) -> bool)
    requires
        plain_theme(t),
        0 <= n <= cg.len(),
        n <= kg.len(),
        n <= og.len(),
        forall|y: int| 0 <= y < n ==> (#[trigger] kg[y]).len() == cg[y].len() && og[y].len() == cg[y].len(),
        forall|y: int, x: int| 0 <= y < n && 0 <= x < cg[y].len() ==> q(#[trigger] cg[y][x]),
    ensures
        text_ok(all_lines(cg, kg, og, t, false, n), q),
    decreases n,
{
    if n > 0 {
        assert forall|y: int| 0 <= y < n - 1 implies (#[trigger] kg[y]).len() == cg[y].len() && og[y].len() == cg[y].len() by {}
        assert forall|y: int, x: int| 0 <= y < n - 1 && 0 <= x < cg[y].len() implies q(#[trigger] cg[y][x]) by {}
        lemma_plain_lines(cg, kg, og, t, n - 1, q);
        let row = cg[n - 1];
        let end = row_end(row, og[n - 1], false, row.len() as int);
        lemma_row_end_le(row, og[n - 1], false, row.len() as int);
        let line = row_line(row, kg[n - 1], og[n - 1], t, false);
        if end > 0 {
            law_plain_rows(row, kg[n - 1], og[n - 1], t, end);
            assert(line =~= row.take(end) + seq!['\n']);
        }
        let prev = all_lines(cg, kg, og, t, false, n - 1);
        assert forall|k: int| 0 <= k < (prev + line).len() implies #[trigger] (prev + line)[k] == '\n' || q((prev + line)[k]) by {
            if k >= prev.len() {
                let j = k - prev.len();
                if end > 0 && j < end {
                    assert(line[j] == row[j]);
                }
            }
        }
    }
}

proof fn lemma_trailing_ok(s: Seq<char>, q: spec_fn(char) -> bool)
    requires
        text_ok(s, q),
    ensures
        text_ok(drop_trailing_blank(s), q),
    decreases s.len(),
{
    if s.len() >= 2 && s[s.len() - 1] == '\n' && s[s.len() - 2] == '\n' {
        assert(text_ok(s.drop_last(), q)) by {
            assert forall|k: int| 0 <= k < s.drop_last().len() implies #[trigger] s.drop_last()[k] == '\n' || q(s.drop_last()[k]) by {
                assert(s.drop_last()[k] == s[k]);
            }
        }
        lemma_trailing_ok(s.drop_last(), q);
    }
}

proof fn lemma_leading_ok(s: Seq<char>, q: spec_fn(char) -> bool)
    requires
        text_ok(s, q),
    ensures
        text_ok(drop_leading_newlines(s), q),
    decreases s.len(),
{
    if s.len() > 0 && s[0] == '\n' {
        assert(text_ok(s.drop_first(), q)) by {
            assert forall|k: int| 0 <= k < s.drop_first().len() implies #[trigger] s.drop_first()[k] == '\n' || q(s.drop_first()[k]) by {
                assert(s.drop_first()[k] == s[k + 1]);
            }
        }
        lemma_leading_ok(s.drop_first(), q);
    }
}

/// With a plain theme the emitted text holds the canvas's characters and
/// newlines, nothing else.
pub proof fn law_plain_emit(c: Canvas, t: Theme, q: spec_fn(char) -> bool)
    requires
        c.wf(),
        plain_theme(t),
        chars_all(c, q),
    ensures
        text_ok(emit_text(c, t), q),
{
    assert forall|y: int| 0 <= y < c.height() implies (#[trigger] c.kinds_g()[y]).len() == c.chars_g()[y].len()
        && c.over_g()[y].len() == c.chars_g()[y].len() by {}
    assert forall|y: int, x: int| 0 <= y < c.height() && 0 <= x < c.chars_g()[y].len() implies q(#[trigger] c.chars_g()[y][x]) by {
        assert(c.inside(x, y));
    }
    lemma_plain_lines(c.chars_g(), c.kinds_g(), c.over_g(), t, c.height(), q);
    let all = all_lines(c.chars_g(), c.kinds_g(), c.over_g(), t, false, c.height());
    lemma_trailing_ok(all, q);
    lemma_leading_ok(drop_trailing_blank(all), q);
}

/// `s` occurs in `r` from index `p`.
pub open spec fn text_has_at(r: Seq<char>, p: int, s: Seq<char>) -> bool {
    0 <= p && p + s.len() <= r.len() && r.subrange(p, p + s.len()) == s
}

/// `s` occurs somewhere in `r`, its characters in a row.
pub open spec fn contains_text(r: Seq<char>, s: Seq<char>) -> bool {
    exists|p: int| #[trigger] text_has_at(r, p, s)
}

proof fn lemma_row_end_ge(c: Seq<char>, o: Seq<Style>, apply: bool, n: int, x: int)
    requires
        0 < x <= n <= c.len(),
        c[x - 1] != ' ',
    ensures
        row_end(c, o, apply, n) >= x,
    decreases n,
{
    if n > x {
        if !(c[n - 1] != ' ' || (apply && o[n - 1] != empty_style())) {
            lemma_row_end_ge(c, o, apply, n - 1, x);
        }
    }
}

proof fn lemma_all_lines_prefix(c: Seq<Seq<char>>, k: Seq<Seq<CellKind>>, o: Seq<Seq<Style>>, t: Theme, apply: bool, m: int, n: int)
    requires
        0 <= m <= n,
    ensures
        all_lines(c, k, o, t, apply, m).len() <= all_lines(c, k, o, t, apply, n).len(),
        all_lines(c, k, o, t, apply, n).take(all_lines(c, k, o, t, apply, m).len() as int) == all_lines(c, k, o, t, apply, m),
    decreases n - m,
{
    if m < n {
        lemma_all_lines_prefix(c, k, o, t, apply, m, n - 1);
        let a = all_lines(c, k, o, t, apply, n - 1);
        let b = all_lines(c, k, o, t, apply, n);
        assert(b == a + row_line(c[n - 1], k[n - 1], o[n - 1], t, apply));
        assert(b.take(a.len() as int) == a);
        assert(b.take(all_lines(c, k, o, t, apply, m).len() as int) == a.take(all_lines(c, k, o, t, apply, m).len() as int));
    }
}

proof fn lemma_trailing_keeps(s: Seq<char>, i: int)
    requires
        0 <= i < s.len(),
        s[i] != '\n',
    ensures
        drop_trailing_blank(s).len() > i,
        drop_trailing_blank(s).len() <= s.len(),
        drop_trailing_blank(s) == s.take(drop_trailing_blank(s).len() as int),
    decreases s.len(),
{
    if s.len() >= 2 && s[s.len() - 1] == '\n' && s[s.len() - 2] == '\n' {
        lemma_trailing_keeps(s.drop_last(), i);
        let d = drop_trailing_blank(s.drop_last());
        assert(s.drop_last().take(d.len() as int) =~= s.take(d.len() as int));
    } else {
        assert(s.take(s.len() as int) == s);
    }
}

proof fn lemma_leading_drop(s: Seq<char>) -> (m: int)
    ensures
        0 <= m <= s.len(),
        drop_leading_newlines(s) == s.skip(m),
        forall|j: int| 0 <= j < m ==> s[j] == '\n',
    decreases s.len(),
{
    if s.len() > 0 && s[0] == '\n' {
        let m1 = lemma_leading_drop(s.drop_first());
        assert(s.drop_first().skip(m1) == s.skip(m1 + 1));
        assert forall|j: int| 0 <= j < m1 + 1 implies s[j] == '\n' by {
            if j > 0 {
                assert(s[j] == s.drop_first()[j - 1]);
            }
        }
        m1 + 1
    } else {
        assert(s.skip(0) == s);
        0
    }
}

/// With a plain theme, any run of a row that ends in a non-blank glyph and
/// holds no newline shows in the emitted text, its characters in a row.
pub proof fn law_plain_text_shows_runs(c: Canvas, t: Theme, y: int, x0: int, x1: int)
    requires
        c.wf(),
        plain_theme(t),
        0 <= y < c.height(),
        0 <= x0 < x1 <= c.width_of(),
        c.chars_g()[y][x1 - 1] != ' ',
        forall|x: int| x0 <= x < x1 ==> #[trigger] c.chars_g()[y][x] != '\n',
    ensures
        contains_text(emit_text(c, t), c.chars_g()[y].subrange(x0, x1)),
{
    let cg = c.chars_g();
    let kg = c.kinds_g();
    let og = c.over_g();
    let row = cg[y];
    let run = row.subrange(x0, x1);
    assert(row.len() == c.width_of() && kg[y].len() == c.width_of() && og[y].len() == c.width_of());
    lemma_row_end_ge(row, og[y], false, row.len() as int, x1);
    let end = row_end(row, og[y], false, row.len() as int);
    assert(end <= row.len()) by {
        lemma_row_end_le(row, og[y], false, row.len() as int);
    }
    law_plain_rows(row, kg[y], og[y], t, end);
    let line = row_line(row, kg[y], og[y], t, false);
    assert(line == row.take(end) + seq!['\n']);
    let pre = all_lines(cg, kg, og, t, false, y);
    let upto = all_lines(cg, kg, og, t, false, y + 1);
    assert(upto == pre + line);
    let all = all_lines(cg, kg, og, t, false, c.height());
    lemma_all_lines_prefix(cg, kg, og, t, false, y + 1, c.height());
    let p = pre.len() + x0;
    let lastp = pre.len() + x1 - 1;
    assert forall|j: int| 0 <= j < run.len() implies all[p + j] == run[j] by {
        assert(all[p + j] == upto[p + j]);
        assert(upto[p + j] == line[x0 + j]);
        assert(line[x0 + j] == row[x0 + j]);
    }
    assert(all[p + (run.len() - 1)] == run[run.len() - 1]);
    assert(all[lastp] == row[x1 - 1]);
    assert(!plain_theme(t) == false);
    lemma_trailing_keeps(all, lastp);
    let tb = drop_trailing_blank(all);
    let m = lemma_leading_drop(tb);
    assert(tb.len() > lastp);
    assert(tb[p] == all[p]);
    assert(all[p] == row[x0]);
    if m > p {
        assert(tb[p] == '\n');
    }
    let r = drop_leading_newlines(tb);
    assert(r == emit_text(c, t));
    assert(r.subrange(p - m, p - m + run.len()) =~= run) by {
        assert forall|j: int| 0 <= j < run.len() implies r[p - m + j] == run[j] by {
            assert(r[p - m + j] == tb[p + j]);
            assert(tb[p + j] == all[p + j]);
            assert(all[p + j] == run[j]);
        }
    }
    assert(text_has_at(r, p - m, run));
}

// ---------------------------------------------------------------------------
// Rendering.
/// Every node has at least one cell each way and lies well inside
/// `usize`; each box with a label is at least two cells wide and its label
/// rows and columns fit in `usize`.
pub open spec fn drawable(g: Graph) -> bool {
    &&& forall|i: int|
        0 <= i < g.nodes.len() ==> 1 <= (#[trigger] g.nodes@[i]).width && 1 <= g.nodes@[i].height
            && g.nodes@[i].x + g.nodes@[i].width < usize::MAX && g.nodes@[i].y + g.nodes@[i].height < usize::MAX
    &&& forall|i: int|
        0 <= i < g.nodes.len() && !(#[trigger] g.nodes@[i]).is_dummy ==> box_fits(
            g.nodes@[i].x,
            g.nodes@[i].y,
            g.nodes@[i].width,
            g.nodes@[i].height,
            crate::graph::lines_view(g.nodes@[i].label_lines@),
        )
}

/// One past the right edge of the rightmost of the first `k` nodes.
pub open spec fn extent_x(nodes: Seq<Node>, k: int) -> int
    decreases k,
{
    if k <= 0 {
        0
    } else {
        let e = nodes[k - 1].x + nodes[k - 1].width;
        if e > extent_x(nodes, k - 1) {
            e
        } else {
            extent_x(nodes, k - 1)
        }
    }
}

/// One past the bottom edge of the lowest of the first `k` nodes.
pub open spec fn extent_y(nodes: Seq<Node>, k: int) -> int
    decreases k,
{
    if k <= 0 {
        0
    } else {
        let e = nodes[k - 1].y + nodes[k - 1].height;
        if e > extent_y(nodes, k - 1) {
            e
        } else {
            extent_y(nodes, k - 1)
        }
    }
}

proof fn lemma_box_fits_rev(x: usize, y: usize, w: usize, h: usize, ls: Seq<Seq<char>>)
    requires
        box_fits(x, y, w, h, ls),
    ensures
        box_fits(x, y, w, h, rev(ls)),
{
    assert forall|li: int| 0 <= li < rev(ls).len() implies x + box_pad(w as int, #[trigger] rev(ls)[li].len() as int) + rev(ls)[li].len() <= usize::MAX by {
        assert(rev(ls)[li] == ls[ls.len() - 1 - li]);
    }
}

/// Sets the style override on every cell of the box at `(x, y)`.
fn override_box(canvas: &mut Canvas, x: usize, y: usize, w: usize, h: usize, style: Style)
    requires
        old(canvas).wf(),
        x + w <= usize::MAX,
        y + h <= usize::MAX,
    ensures
        final(canvas).wf(),
        final(canvas).height() == old(canvas).height(),
        final(canvas).width_of() == old(canvas).width_of(),
        final(canvas).chars@ == old(canvas).chars@,
        final(canvas).kinds@ == old(canvas).kinds@,
        final(canvas).sides@ == old(canvas).sides@,
        final(canvas).cell_style@ == old(canvas).cell_style@,
        forall|cx: int, cy: int|
            old(canvas).inside(cx, cy) ==> #[trigger] final(canvas).over_g()[cy][cx] == (if x <= cx < x + w && y
                <= cy < y + h {
                style
            } else {
                old(canvas).over_g()[cy][cx]
            }),
{
    let ghost a = *canvas;
    let mut dy: usize = 0;
    while dy < h
        invariant
            y + h <= usize::MAX,
            x + w <= usize::MAX,
            dy <= h,
            a == *old(canvas),
            canvas.wf(),
            canvas.height() == old(canvas).height(),
            canvas.width_of() == old(canvas).width_of(),
            canvas.chars@ == old(canvas).chars@,
            canvas.kinds@ == old(canvas).kinds@,
            canvas.sides@ == old(canvas).sides@,
            canvas.cell_style@ == old(canvas).cell_style@,
            forall|cx: int, cy: int|
                a.inside(cx, cy) ==> #[trigger] canvas.over_g()[cy][cx] == (if x <= cx < x + w && y <= cy < y + dy {
                    style
                } else {
                    a.over_g()[cy][cx]
                }),
        decreases h - dy,
    {
        let mut dx: usize = 0;
        while dx < w
            invariant
                dy < h,
                dx <= w,
                y + h <= usize::MAX,
                x + w <= usize::MAX,
                a == *old(canvas),
                canvas.wf(),
                canvas.height() == old(canvas).height(),
                canvas.width_of() == old(canvas).width_of(),
                canvas.chars@ == old(canvas).chars@,
                canvas.kinds@ == old(canvas).kinds@,
                canvas.sides@ == old(canvas).sides@,
                canvas.cell_style@ == old(canvas).cell_style@,
                forall|cx: int, cy: int|
                    a.inside(cx, cy) ==> #[trigger] canvas.over_g()[cy][cx] == (if (x <= cx < x + w && y <= cy < y + dy)
                        || (cy == y + dy && x <= cx < x + dx) {
                        style
                    } else {
                        a.over_g()[cy][cx]
                    }),
            decreases w - dx,
        {
            let ghost b = *canvas;
            canvas.set_override(x + dx, y + dy, style);
            proof {
                assert forall|cx: int, cy: int| a.inside(cx, cy) implies #[trigger] canvas.over_g()[cy][cx] == (if (x <= cx < x
                    + w && y <= cy < y + dy) || (cy == y + dy && x <= cx < x + dx + 1) {
                    style
                } else {
                    a.over_g()[cy][cx]
                }) by {
                    assert(b.over_g()[cy].len() == b.width_of());
                    assert(b.over_g()[cy][cx] == (if (x <= cx < x + w && y <= cy < y + dy) || (cy == y + dy && x <= cx < x + dx) {
                        style
                    } else {
                        a.over_g()[cy][cx]
                    }));
                }
            }
            dx += 1;
        }
        proof {
            assert forall|cx: int, cy: int| a.inside(cx, cy) implies #[trigger] canvas.over_g()[cy][cx] == (if x <= cx < x + w && y
                <= cy < y + dy + 1 {
                style
            } else {
                a.over_g()[cy][cx]
            }) by {
                assert(canvas.over_g()[cy][cx] == (if (x <= cx < x + w && y <= cy < y + dy) || (cy == y + dy && x <= cx < x + dx) {
                    style
                } else {
                    a.over_g()[cy][cx]
                }));
            }
        }
        dy += 1;
    }
}

/// The label lines of a node as characters, bottom line first when
/// `reverse` is set.
fn label_rows(lines: &Vec<String>, reverse: bool) -> (r: Vec<Vec<char>>)
    ensures
        grid(r@) == (if reverse {
            rev(crate::graph::lines_view(lines@))
        } else {
            crate::graph::lines_view(lines@)
        }),
{
    let ghost lv = crate::graph::lines_view(lines@);
    let mut r: Vec<Vec<char>> = Vec::new();
    let n = lines.len();
    let mut i: usize = 0;
    while i < n
        invariant
            n == lines.len(),
            i <= n,
            r.len() == i,
            lv == crate::graph::lines_view(lines@),
            forall|k: int|
                0 <= k < i ==> (#[trigger] r@[k])@ == (if reverse {
                    lv[n - 1 - k]
                } else {
                    lv[k]
                }),
        decreases n - i,
    {
        let src = if reverse {
            &lines[n - 1 - i]
        } else {
            &lines[i]
        };
        r.push(chars_of_string(src));
        i += 1;
    }
    proof {
        if reverse {
            assert(grid(r@) =~= rev(lv));
        } else {
            assert(grid(r@) =~= lv);
        }
    }
    r
}

/// The style of the first edge into `node`, or the normal style if none.
fn incoming_style(g: &Graph, node: NodeId) -> (s: EdgeStyle)
    ensures
        (exists|i: int| 0 <= i < g.edges.len() && g.edges@[i].to == node && g.edges@[i].style == s
            && forall|j: int| 0 <= j < i ==> (#[trigger] g.edges@[j]).to != node)
            || (s == EdgeStyle::Normal && forall|j: int| 0 <= j < g.edges.len() ==> (#[trigger] g.edges@[j]).to != node),
{
    let mut i: usize = 0;
    while i < g.edges.len()
        invariant
            i <= g.edges.len(),
            forall|j: int| 0 <= j < i ==> (#[trigger] g.edges@[j]).to != node,
        decreases g.edges.len() - i,
    {
        if g.edges[i].to == node {
            return g.edges[i].style;
        }
        i += 1;
    }
    EdgeStyle::Normal
}

/// The text of an edge's label (empty when it has none).
pub open spec fn label_text(e: Edge) -> Seq<char> {
    match e.label {
        Some(t) => t@,
        None => Seq::empty(),
    }
}

/// Whether a label fits its spot on the edge leaving `(sx, sy)`.
pub open spec fn label_fits(c: Canvas, dir: InnerDir, sx: usize, sy: usize, t: Seq<char>) -> bool {
    match dir {
        InnerDir::TD => td_label_fits(c, sx, sy, t),
        InnerDir::LR => lr_label_fits(c, sx, sy, t),
    }
}

/// Where a label goes on the edge leaving `(sx, sy)`: centred under the
/// start of a vertical edge, centred in the flat run of a horizontal one.
pub open spec fn label_spot(c: Canvas, dir: InnerDir, sx: usize, sy: usize, t: Seq<char>) -> (int, int) {
    match dir {
        InnerDir::TD => (ssub(sx, (t.len() / 2) as usize) as int, sy + 1),
        InnerDir::LR => (lr_label_start(c.chars_g()[sy as int], sx, t.len()), sy as int),
    }
}

/// A glyph that no later label can be written over: not part of a flat
/// line, not a blank and not a vertical line.
pub open spec fn ink(ch: char) -> bool {
    !flat(ch) && ch != '│'
}

/// `t` reads left to right from `(x0, y)` in `c`.
pub open spec fn shows_text(c: Canvas, x0: int, y: int, t: Seq<char>) -> bool {
    &&& 0 <= y < c.height()
    &&& 0 <= x0
    &&& x0 + t.len() <= c.width_of()
    &&& forall|k: int| 0 <= k < t.len() ==> #[trigger] c.chars_g()[y][x0 + k] == t[k]
}

/// One turn of label drawing: a label that fits is written at its spot,
/// anything else leaves the canvas as it was.
pub open spec fn label_turn(c: Canvas, c2: Canvas, e: Edge, end: (usize, usize, usize, usize), dir: InnerDir) -> bool {
    let t = label_text(e);
    if label_fits(c, dir, end.0, end.1, t) {
        let sp = label_spot(c, dir, end.0, end.1, t);
        &&& c2.wf()
        &&& c2.height() == c.height()
        &&& c2.width_of() == c.width_of()
        &&& shows_text(c2, sp.0, sp.1, t)
    } else {
        c2 == c
    }
}

/// Label `e`, if it was written at its turn, still shows its ink in `c`
/// (away from container frames when `frames` is set).
pub open spec fn label_kept(cl: Seq<Canvas>, ends: Seq<(usize, usize, usize, usize)>, g: Graph, c: Canvas, e: int, frames: bool) -> bool {
    let dir = inner_dir_of(g.dir);
    let t = label_text(g.edges@[e]);
    let sp = label_spot(cl[e], dir, ends[e].0, ends[e].1, t);
    label_fits(cl[e], dir, ends[e].0, ends[e].1, t) ==> {
        &&& 0 <= sp.1 < c.height()
        &&& 0 <= sp.0
        &&& sp.0 + t.len() <= c.width_of()
        &&& forall|k: int|
            0 <= k < t.len() && ink(t[k]) && !(frames && on_some_frame(g, sp.0 + k, sp.1)) ==> #[trigger] c.chars_g()[sp.1][sp.0 + k] == t[k]
    }
}

/// The edge labels of `g` were drawn turn by turn through the canvases
/// `cl`, from the endpoints `ends`, onto a canvas as large as the nodes'
/// extent; `c0` is the last of them with the containers drawn over it, and
/// every label written shows its ink in `c0` wherever no frame lies.
pub open spec fn labels_drawn(cl: Seq<Canvas>, ends: Seq<(usize, usize, usize, usize)>, c0: Canvas, g: Graph) -> bool {
    &&& cl.len() == g.edges.len() + 1
    &&& ends.len() == g.edges.len()
    &&& forall|e: int| 0 <= e < g.edges.len() ==> endpoints_ok(g, g.edges@[e], #[trigger] ends[e])
    &&& forall|e: int| 0 <= e < g.edges.len() ==> #[trigger] label_turn(cl[e], cl[e + 1], g.edges@[e], ends[e], inner_dir_of(g.dir))
    &&& forall|e: int| 0 <= e < g.edges.len() ==> #[trigger] label_kept(cl, ends, g, c0, e, true)
    &&& cl[g.edges.len() as int].wf()
    &&& cl[g.edges.len() as int].height() == extent_y(g.nodes@, g.nodes.len() as int) + 1
    &&& cl[g.edges.len() as int].width_of() == extent_x(g.nodes@, g.nodes.len() as int) + 1
    &&& c0.height() >= cl[g.edges.len() as int].height()
    &&& c0.width_of() >= cl[g.edges.len() as int].width_of()
    &&& forall|x: int, y: int|
        cl[g.edges.len() as int].inside(x, y) && !on_some_frame(g, x, y) ==> #[trigger] kept_at(cl[g.edges.len() as int], c0, x, y)
}

/// Label `e`, written at its turn with every character a glyph that
/// nothing later draws over and no container frame crossing it, shows in
/// the text `r`, its characters in a row.
pub open spec fn label_in_text(cl: Seq<Canvas>, ends: Seq<(usize, usize, usize, usize)>, g: Graph, r: Seq<char>, e: int) -> bool {
    let dir = inner_dir_of(g.dir);
    let t = label_text(g.edges@[e]);
    let sp = label_spot(cl[e], dir, ends[e].0, ends[e].1, t);
    label_fits(cl[e], dir, ends[e].0, ends[e].1, t) && (forall|k: int|
        0 <= k < t.len() ==> ink(#[trigger] t[k]) && t[k] != '\n' && !on_some_frame(g, sp.0 + k, sp.1)) ==> contains_text(r, t)
}

proof fn lemma_label_in_text(cl: Seq<Canvas>, ends: Seq<(usize, usize, usize, usize)>, g: Graph, c0: Canvas, t: Theme, e: int)
    requires
        c0.wf(),
        plain_theme(t),
        0 <= e < g.edges.len(),
        label_kept(cl, ends, g, c0, e, true),
    ensures
        label_in_text(cl, ends, g, emit_text(c0, t), e),
{
    let dir = inner_dir_of(g.dir);
    let tx = label_text(g.edges@[e]);
    let sp = label_spot(cl[e], dir, ends[e].0, ends[e].1, tx);
    if label_fits(cl[e], dir, ends[e].0, ends[e].1, tx) && (forall|k: int|
        0 <= k < tx.len() ==> ink(#[trigger] tx[k]) && tx[k] != '\n' && !on_some_frame(g, sp.0 + k, sp.1)) {
        assert(tx.len() > 0) by {
            match dir {
                InnerDir::TD => {},
                InnerDir::LR => {},
            }
        }
        let row = c0.chars_g()[sp.1];
        assert forall|k: int| 0 <= k < tx.len() implies #[trigger] row[sp.0 + k] == tx[k] by {
            assert(ink(tx[k]) && !on_some_frame(g, sp.0 + k, sp.1));
        }
        assert(ink(tx[tx.len() - 1]));
        assert(row[sp.0 + tx.len() - 1] == tx[tx.len() - 1]);
        assert forall|x: int| sp.0 <= x < sp.0 + tx.len() implies #[trigger] c0.chars_g()[sp.1][x] != '\n' by {
            assert(row[sp.0 + (x - sp.0)] == tx[x - sp.0]);
        }
        law_plain_text_shows_runs(c0, t, sp.1, sp.0, sp.0 + tx.len());
        assert(row.subrange(sp.0, sp.0 + tx.len()) =~= tx);
    }
}

/// `put_text` changes only the cells it writes.
proof fn lemma_put_text_cell<T>(g: Seq<Seq<T>>, x0: int, y: int, t: Seq<T>, x: int, yy: int)
    requires
        0 <= y < g.len(),
        0 <= x0,
        x0 + t.len() <= g[y].len(),
        0 <= yy < g.len(),
        0 <= x < g[yy].len(),
    ensures
        put_text(g, x0, y, t)[yy][x] == (if yy == y && x0 <= x < x0 + t.len() { t[x - x0] } else { g[yy][x] }),
        put_text(g, x0, y, t)[yy].len() == g[yy].len(),
{
    if yy == y {
        let r = g[y].take(x0) + t + g[y].skip(x0 + t.len());
        assert(put_text(g, x0, y, t)[yy] == r);
        if x < x0 {
            assert(r[x] == g[y][x]);
        } else if x < x0 + t.len() {
            assert(r[x] == t[x - x0]);
        } else {
            assert(r[x] == g[y][x]);
        }
    }
}

/// The cells an LR label is written on lie inside the flat run and the row.
proof fn lemma_lr_spot(c: Canvas, sx: usize, sy: usize, t: Seq<char>)
    requires
        c.wf(),
        lr_label_fits(c, sx, sy, t),
    ensures
        ({
            let row = c.chars_g()[sy as int];
            let st = lr_label_start(row, sx, t.len());
            &&& sx as int + 2 <= st
            &&& st + t.len() <= flat_run_end(row, sx as int)
            &&& st + t.len() <= c.width_of()
            &&& forall|k: int| st <= k < st + t.len() ==> flat(#[trigger] row[k])
        }),
{
    let row = c.chars_g()[sy as int];
    lemma_flat_run(row, sx as int);
    assert(row.len() == c.width_of());
}

/// One label turn keeps every earlier written label's ink and writes its
/// own label when it fits.
proof fn lemma_label_turn_keeps(cl: Seq<Canvas>, ends: Seq<(usize, usize, usize, usize)>, g: Graph, cb: Canvas, c2: Canvas, e: int)
    requires
        0 <= e < g.edges.len(),
        ends.len() == g.edges.len(),
        cl.len() == e + 1,
        cl[e] == cb,
        cb.wf(),
        forall|e2: int| 0 <= e2 < e ==> #[trigger] label_kept(cl, ends, g, cb, e2, false),
        ({
            let dir = inner_dir_of(g.dir);
            let t = label_text(g.edges@[e]);
            let sp = label_spot(cb, dir, ends[e].0, ends[e].1, t);
            if label_fits(cb, dir, ends[e].0, ends[e].1, t) {
                &&& c2.wf()
                &&& c2.height() == cb.height()
                &&& c2.width_of() == cb.width_of()
                &&& c2.chars_g() == put_text(cb.chars_g(), sp.0, sp.1, t)
            } else {
                c2 == cb
            }
        }),
    ensures
        label_turn(cb, c2, g.edges@[e], ends[e], inner_dir_of(g.dir)),
        forall|e2: int| 0 <= e2 <= e ==> #[trigger] label_kept(cl.push(c2), ends, g, c2, e2, false),
{
    let dir = inner_dir_of(g.dir);
    let t = label_text(g.edges@[e]);
    let (sx, sy) = (ends[e].0, ends[e].1);
    let sp = label_spot(cb, dir, sx, sy, t);
    let cl2 = cl.push(c2);
    if label_fits(cb, dir, sx, sy, t) {
        match dir {
            InnerDir::TD => {},
            InnerDir::LR => {
                lemma_lr_spot(cb, sx, sy, t);
            },
        }
        assert(0 <= sp.1 < cb.height() && 0 <= sp.0 && sp.0 + t.len() <= cb.width_of());
        assert(cb.chars_g()[sp.1].len() == cb.width_of());
        assert forall|k: int| 0 <= k < t.len() implies #[trigger] c2.chars_g()[sp.1][sp.0 + k] == t[k] by {
            lemma_put_text_cell(cb.chars_g(), sp.0, sp.1, t, sp.0 + k, sp.1);
        }
        assert(shows_text(c2, sp.0, sp.1, t));
        assert forall|e2: int| 0 <= e2 <= e implies #[trigger] label_kept(cl2, ends, g, c2, e2, false) by {
            assert(cl2[e2] == cl[e2]);
            if e2 < e {
                assert(label_kept(cl, ends, g, cb, e2, false));
                let t2 = label_text(g.edges@[e2]);
                let sp2 = label_spot(cl[e2], dir, ends[e2].0, ends[e2].1, t2);
                if label_fits(cl[e2], dir, ends[e2].0, ends[e2].1, t2) {
                    assert forall|k: int| 0 <= k < t2.len() && ink(t2[k]) && !(false && on_some_frame(g, sp2.0 + k, sp2.1))
                        implies #[trigger] c2.chars_g()[sp2.1][sp2.0 + k] == t2[k] by {
                        assert(cb.chars_g()[sp2.1][sp2.0 + k] == t2[k]);
                        assert(cb.chars_g()[sp2.1].len() == cb.width_of());
                        lemma_put_text_cell(cb.chars_g(), sp.0, sp.1, t, sp2.0 + k, sp2.1);
                        if sp2.1 == sp.1 && sp.0 <= sp2.0 + k < sp.0 + t.len() {
                            match dir {
                                InnerDir::TD => {
                                    let j = sp2.0 + k - sp.0;
                                    assert(cb.chars_g()[sy + 1][sp.0 + j] == ' ' || cb.chars_g()[sy + 1][sp.0 + j] == '│');
                                },
                                InnerDir::LR => {
                                    assert(flat(cb.chars_g()[sy as int][sp2.0 + k]));
                                },
                            }
                        }
                    }
                }
            }
        }
    } else {
        assert forall|e2: int| 0 <= e2 <= e implies #[trigger] label_kept(cl2, ends, g, c2, e2, false) by {
            assert(cl2[e2] == cl[e2]);
            if e2 < e {
                assert(label_kept(cl, ends, g, cb, e2, false));
            }
        }
    }
}

/// Containers keep every written label's ink away from their frames.
proof fn lemma_labels_past_containers(cl: Seq<Canvas>, ends: Seq<(usize, usize, usize, usize)>, g: Graph, cb: Canvas, c0: Canvas)
    requires
        cl.len() == g.edges.len() + 1,
        ends.len() == g.edges.len(),
        forall|e: int| 0 <= e < g.edges.len() ==> #[trigger] label_kept(cl, ends, g, cb, e, false),
        c0.height() >= cb.height(),
        c0.width_of() >= cb.width_of(),
        forall|x: int, y: int| cb.inside(x, y) && !on_some_frame(g, x, y) ==> #[trigger] kept_at(cb, c0, x, y),
    ensures
        forall|e: int| 0 <= e < g.edges.len() ==> #[trigger] label_kept(cl, ends, g, c0, e, true),
{
    assert forall|e: int| 0 <= e < g.edges.len() implies #[trigger] label_kept(cl, ends, g, c0, e, true) by {
        assert(label_kept(cl, ends, g, cb, e, false));
        let dir = inner_dir_of(g.dir);
        let t = label_text(g.edges@[e]);
        let sp = label_spot(cl[e], dir, ends[e].0, ends[e].1, t);
        if label_fits(cl[e], dir, ends[e].0, ends[e].1, t) {
            assert forall|k: int| 0 <= k < t.len() && ink(t[k]) && !(true && on_some_frame(g, sp.0 + k, sp.1))
                implies #[trigger] c0.chars_g()[sp.1][sp.0 + k] == t[k] by {
                assert(cb.inside(sp.0 + k, sp.1));
                assert(kept_at(cb, c0, sp.0 + k, sp.1));
            }
        }
    }
}

/// Every subgraph that has members shows its container outline.
pub open spec fn containers_shown(c: Canvas, g: Graph) -> bool {
    forall|sid: int|
        0 <= sid < g.subgraphs.len() && #[trigger] has_members(g, sid as usize) ==> outlined(
            c,
            frame_of(g, sid as usize).0,
            frame_of(g, sid as usize).1,
            frame_of(g, sid as usize).2,
            frame_of(g, sid as usize).3,
        )
}

/// `c` is the drawing `c0` turned for the chart's direction: mirrored top
/// to bottom for bottom-up charts, left to right for right-to-left ones,
/// and left as it is otherwise.
pub open spec fn oriented(c0: Canvas, c: Canvas, dir: Direction) -> bool {
    match dir {
        Direction::BT => {
            &&& c.wf()
            &&& c.height() == c0.height()
            &&& c.width_of() == c0.width_of()
            &&& c.chars_g() == mirror_rows_v(rev(c0.chars_g()))
            &&& c.kinds_g() == rev(c0.kinds_g())
            &&& c.sides_g() == rev(c0.sides_g())
            &&& c.styles_g() == rev(c0.styles_g())
            &&& c.over_g() == rev(c0.over_g())
        },
        Direction::RL => {
            &&& c.wf()
            &&& c.height() == c0.height()
            &&& c.width_of() == c0.width_of()
            &&& c.chars_g() == mirror_rows_h(c0.chars_g(), c0.kinds_g())
            &&& c.kinds_g() == rev_rows(c0.kinds_g())
            &&& c.sides_g() == rev_rows(c0.sides_g())
            &&& c.styles_g() == rev_rows(c0.styles_g())
            &&& c.over_g() == rev_rows(c0.over_g())
        },
        _ => c == c0,
    }
}

/// Draws the laid-out graph and emits it as text styled by `theme`: node
/// boxes, dummy pass-throughs, edges (merged into a shared bar where
/// several visible edges enter one real node), edge labels and subgraph
/// containers, mirrored for bottom-up and right-to-left charts.
#[verifier::loop_isolation(false)]
pub fn render(g: &Graph, theme: &Theme) -> (r: String)
    requires
        g.shape_ok(),
        drawable(*g),
    ensures
        exists|c: Canvas|
            c.wf() && c.height() >= extent_y(g.nodes@, g.nodes.len() as int) + 1 && c.width_of()
                >= extent_x(g.nodes@, g.nodes.len() as int) + 1 && #[trigger] emit_text(c, *theme) == r@,
        plain_theme(*theme) ==> text_ok(r@, drawn_p(*g)),
        exists|c0: Canvas, c: Canvas|
            #![trigger oriented(c0, c, g.dir)]
            c0.wf() && containers_shown(c0, *g) && oriented(c0, c, g.dir) && emit_text(c, *theme) == r@,
        exists|c0: Canvas, c: Canvas, cl: Seq<Canvas>, ends: Seq<(usize, usize, usize, usize)>|
            #![trigger oriented(c0, c, g.dir), labels_drawn(cl, ends, c0, *g)]
            c0.wf() && oriented(c0, c, g.dir) && labels_drawn(cl, ends, c0, *g) && emit_text(c, *theme) == r@ && (plain_theme(
                *theme,
            ) && g.dir != Direction::BT && g.dir != Direction::RL ==> forall|e: int|
                0 <= e < g.edges.len() ==> #[trigger] label_in_text(cl, ends, *g, r@, e)),
{
    let nn = g.nodes.len();
    let mut ex: usize = 0;
    let mut ey: usize = 0;
    let mut i: usize = 0;
    while i < nn
        invariant
            nn == g.nodes.len(),
            i <= nn,
            drawable(*g),
            ex == extent_x(g.nodes@, i as int),
            ey == extent_y(g.nodes@, i as int),
            ex < usize::MAX,
            ey < usize::MAX,
        decreases nn - i,
    {
        let n = &g.nodes[i];
        assert(n.x + n.width < usize::MAX && n.y + n.height < usize::MAX);
        if n.x + n.width > ex {
            ex = n.x + n.width;
        }
        if n.y + n.height > ey {
            ey = n.y + n.height;
        }
        i += 1;
    }
    let width = ex + 1;
    let height = ey + 1;
    let mut canvas = Canvas::new(width, height);
    let ghost q = pre_p(*g);
    proof {
        assert(chars_all(canvas, q)) by {
            assert forall|x: int, y: int| canvas.inside(x, y) implies q(#[trigger] canvas.chars_g()[y][x]) by {
                assert(canvas.chars_g()[y][x] == ' ');
            }
        }
    }
    // Boxes first. Bottom-up charts are mirrored at the end, so their label
    // lines go in bottom line first.
    let reverse_label_rows = g.dir == Direction::BT;
    let mut i: usize = 0;
    while i < nn
        invariant
            nn == g.nodes.len(),
            i <= nn,
            canvas.wf(),
            canvas.height() == height,
            canvas.width_of() == width,
            chars_all(canvas, q),
        decreases nn - i,
    {
        let n = &g.nodes[i];
        if !n.is_dummy {
            let lines = label_rows(&n.label_lines, reverse_label_rows);
            proof {
                assert(box_fits(n.x, n.y, n.width, n.height, crate::graph::lines_view(n.label_lines@)));
                if reverse_label_rows {
                    lemma_box_fits_rev(n.x, n.y, n.width, n.height, crate::graph::lines_view(n.label_lines@));
                }
            }
            let ghost cb = canvas;
            draw_box(&mut canvas, n.x, n.y, n.width, n.height, &lines, n.shape);
            proof {
                let lv = crate::graph::lines_view(n.label_lines@);
                assert forall|li: int, ci: int| 0 <= li < grid(lines@).len() && 0 <= ci < grid(lines@)[li].len() implies q(
                    #[trigger] grid(lines@)[li][ci],
                ) by {
                    let j = if reverse_label_rows {
                        lv.len() - 1 - li
                    } else {
                        li
                    };
                    assert(grid(lines@)[li] == lv[j]);
                    assert(lv[j] == g.nodes@[i as int].label_lines@[j]@);
                    assert(g.nodes@[i as int].label_lines@[j]@.contains(grid(lines@)[li][ci]));
                    assert(label_char(*g, grid(lines@)[li][ci]));
                }
                lemma_chars_box(cb, canvas, n.x as int, n.y as int, n.width as int, n.height as int, n.shape, grid(lines@), q);
            }
            // The node's own style covers its whole box.
            if !n.style.is_empty() {
                let ghost cb = canvas;
                override_box(&mut canvas, n.x, n.y, n.width, n.height, n.style);
                assert(canvas.chars_g() == cb.chars_g());
            }
        }
        i += 1;
    }
    let axes = Axes { dir: inner_dir(g.dir) };
    // Dummies: pass-throughs in the style of their incoming edge.
    let mut i: usize = 0;
    while i < nn
        invariant
            nn == g.nodes.len(),
            i <= nn,
            canvas.wf(),
            canvas.height() == height,
            canvas.width_of() == width,
            chars_all(canvas, q),
        decreases nn - i,
    {
        let n = &g.nodes[i];
        if n.is_dummy {
            let style = incoming_style(g, i);
            if style != EdgeStyle::Invisible {
                assert(n.x + n.width < usize::MAX && n.y + n.height < usize::MAX);
                let (major_start, major_end, minor) = match axes.dir {
                    InnerDir::TD => (n.y, n.y + n.height, n.x),
                    InnerDir::LR => (n.x, n.x + n.width, n.y),
                };
                let ghost cb = canvas;
                run_major(&mut canvas, axes, major_start, major_end, minor, axes.major_sides(), style);
                proof {
                    lemma_chars_step(cb, canvas, base_p(), q);
                }
            }
        }
        i += 1;
    }
    let endpoints = compute_endpoints(g);
    // Edges grouped by target, targets in id order; several visible edges
    // into one real node are drawn as a merge.
    let ne = g.edges.len();
    let mut tid: usize = 0;
    while tid < nn
        invariant
            nn == g.nodes.len(),
            ne == g.edges.len(),
            endpoints.len() == ne,
            tid <= nn,
            canvas.wf(),
            canvas.height() == height,
            canvas.width_of() == width,
            chars_all(canvas, q),
        decreases nn - tid,
    {
        let mut visible: Vec<usize> = Vec::new();
        let mut j: usize = 0;
        while j < ne
            invariant
                j <= ne,
                ne == g.edges.len(),
                forall|q: int| 0 <= q < visible.len() ==> #[trigger] visible@[q] < ne,
            decreases ne - j,
        {
            if g.edges[j].to == tid && g.edges[j].style != EdgeStyle::Invisible {
                visible.push(j);
            }
            j += 1;
        }
        let target_dummy = g.nodes[tid].is_dummy;
        if visible.len() == 1 || (visible.len() > 0 && target_dummy) {
            let mut k: usize = 0;
            while k < visible.len()
                invariant
                    k <= visible.len(),
                    forall|j: int| 0 <= j < visible.len() ==> #[trigger] visible@[j] < ne,
                    ne == g.edges.len(),
                    endpoints.len() == ne,
                    canvas.wf(),
                    canvas.height() == height,
                    canvas.width_of() == width,
                    chars_all(canvas, q),
                decreases visible.len() - k,
            {
                let e = visible[k];
                let (sx, sy, dx, dy) = endpoints[e];
                let (sm, smn, dm, dmn) = match axes.dir {
                    InnerDir::TD => (sy, sx, dy, dx),
                    InnerDir::LR => (sx, sy, dx, dy),
                };
                // Dummy targets never get a visible tip.
                let tip = if target_dummy {
                    ArrowTip::NoTip
                } else {
                    g.edges[e].tip_fwd
                };
                let ghost cb = canvas;
                draw_edge(&mut canvas, axes, sm, smn, dm, dmn, tip, g.edges[e].tip_back, g.edges[e].style);
                proof {
                    lemma_chars_step(cb, canvas, base_p(), q);
                }
                k += 1;
            }
        } else if visible.len() > 1 {
            let ghost cb = canvas;
            draw_merge(&mut canvas, axes, g, tid, &visible);
            proof {
                lemma_chars_step(cb, canvas, base_p(), q);
            }
        }
        tid += 1;
    }
    // Edge labels.
    let ghost mut cl: Seq<Canvas> = seq![canvas];
    let mut e: usize = 0;
    while e < ne
        invariant
            ne == g.edges.len(),
            endpoints.len() == ne,
            e <= ne,
            canvas.wf(),
            canvas.height() == height,
            canvas.width_of() == width,
            chars_all(canvas, q),
            axes.dir == inner_dir_of(g.dir),
            cl.len() == e + 1,
            cl[e as int] == canvas,
            forall|e2: int| 0 <= e2 < e ==> #[trigger] label_turn(cl[e2], cl[e2 + 1], g.edges@[e2], endpoints@[e2], inner_dir_of(g.dir)),
            forall|e2: int| 0 <= e2 < e ==> #[trigger] label_kept(cl, endpoints@, *g, canvas, e2, false),
        decreases ne - e,
    {
        let ghost cb0 = canvas;
        match &g.edges[e].label {
            Some(text) => {
                let t = chars_of_string(text);
                if t.len() > 0 {
                    let (sx, sy, _dx, _dy) = endpoints[e];
                        let ghost cb = canvas;
                    proof {
                        assert forall|k: int| 0 <= k < t@.len() implies q(#[trigger] t@[k]) by {
                            assert(text@.contains(t@[k]));
                            assert(label_char(*g, t@[k]));
                        }
                    }
                    match axes.dir {
                        InnerDir::TD => {
                            place_edge_label_td(&mut canvas, sx, sy, &t);
                            proof {
                                if td_label_fits(cb, sx, sy, t@) {
                                    lemma_chars_text(cb, canvas, ssub(sx, (t.len() / 2) as usize) as int, sy + 1, t@, q);
                                }
                            }
                        },
                        InnerDir::LR => {
                            place_edge_label_lr(&mut canvas, sx, sy, &t);
                            proof {
                                if lr_label_fits(cb, sx, sy, t@) {
                                    let row = cb.chars_g()[sy as int];
                                    lemma_flat_run(row, sx as int);
                                    assert(row.len() == cb.width_of());
                                    lemma_chars_text(cb, canvas, lr_label_start(row, sx, t.len() as nat), sy as int, t@, q);
                                }
                            }
                        },
                    }
                }
            },
            None => {},
        }
        proof {
            let ghost cl0 = cl;
            assert forall|e2: int| 0 <= e2 < e implies #[trigger] label_kept(cl0, endpoints@, *g, cb0, e2, false) by {}
            lemma_label_turn_keeps(cl0, endpoints@, *g, cb0, canvas, e as int);
            cl = cl0.push(canvas);
            assert forall|e2: int| 0 <= e2 < e + 1 implies #[trigger] label_turn(cl[e2], cl[e2 + 1], g.edges@[e2], endpoints@[e2], inner_dir_of(g.dir)) by {
                if e2 < e {
                    assert(cl[e2] == cl0[e2] && cl[e2 + 1] == cl0[e2 + 1]);
                }
            }
        }
        e += 1;
    }
    // Containers go over boxes and edges, inner ones last.
    proof {
        assert forall|i: int| 0 <= i < g.nodes.len() implies 1 <= (#[trigger] g.nodes@[i]).width && 1 <= g.nodes@[i].height
            && g.nodes@[i].x + g.nodes@[i].width <= usize::MAX && g.nodes@[i].y + g.nodes@[i].height <= usize::MAX by {}
    }
    let ghost cb = canvas;
    draw_subgraph_containers(&mut canvas, g);
    proof {
        lemma_chars_step(cb, canvas, title_p(*g), q);
        lemma_labels_past_containers(cl, endpoints@, *g, cb, canvas);
    }
    let ghost cb = canvas;
    match g.dir {
        Direction::BT => {
            canvas.flip_v();
            proof {
                assert forall|c: char| #[trigger] q(mirror_v(c)) implies drawn_p(*g)(c) by {
                    lemma_base_mirror(c);
                }
                lemma_chars_flip_v(cb, canvas, q, drawn_p(*g));
            }
        },
        Direction::RL => {
            canvas.flip_h();
            proof {
                assert forall|c: char| #[trigger] q(mirror_h(c)) implies drawn_p(*g)(c) by {
                    lemma_base_mirror(c);
                }
                lemma_chars_flip_h(cb, canvas, q, drawn_p(*g));
            }
        },
        _ => {
            proof {
                lemma_chars_step(cb, canvas, q, drawn_p(*g));
            }
        },
    }
    let out = emit(&canvas, theme);
    proof {
        assert(containers_shown(cb, *g));
        assert(oriented(cb, canvas, g.dir));
        assert(labels_drawn(cl, endpoints@, cb, *g));
        if plain_theme(*theme) && g.dir != Direction::BT && g.dir != Direction::RL {
            assert(canvas == cb);
            assert forall|e: int| 0 <= e < g.edges.len() implies #[trigger] label_in_text(cl, endpoints@, *g, out@, e) by {
                lemma_label_in_text(cl, endpoints@, *g, cb, *theme, e);
            }
        }
        assert(emit_text(canvas, *theme) == out@);
        if plain_theme(*theme) {
            law_plain_emit(canvas, *theme, drawn_p(*g));
        }
    }
    out
}

/// Whether the label lines fit the box at `(x, y)` of size `w` x `h`.
fn box_fits_exec(x: usize, y: usize, w: usize, h: usize, lines: &Vec<String>) -> (r: bool)
    ensures
        r == box_fits(x, y, w, h, crate::graph::lines_view(lines@)),
{
    let ghost lv = crate::graph::lines_view(lines@);
    if w < 1 || h < 1 || x > usize::MAX - w || y > usize::MAX - h || lines.len() > usize::MAX - y {
        return false;
    }
    if lines.len() > 0 && w < 2 {
        return false;
    }
    let mut i: usize = 0;
    while i < lines.len()
        invariant
            i <= lines.len(),
            lv == crate::graph::lines_view(lines@),
            lines.len() > 0 ==> w >= 2,
            forall|li: int| 0 <= li < i ==> x + box_pad(w as int, #[trigger] lv[li].len() as int) + lv[li].len() <= usize::MAX,
        decreases lines.len() - i,
    {
        let len = char_count(&lines[i]);
        assert(lv[i as int] == lines@[i as int]@);
        let pad = if w - 2 > len {
            (w - 2 - len) / 2
        } else {
            0
        };
        if len > usize::MAX - x || pad > usize::MAX - x - len {
            return false;
        }
        i += 1;
    }
    true
}

/// Whether `render` takes the graph: `drawable`.
pub fn drawable_exec(g: &Graph) -> (r: bool)
    ensures
        r == drawable(*g),
{
    let mut i: usize = 0;
    while i < g.nodes.len()
        invariant
            i <= g.nodes.len(),
            forall|k: int|
                0 <= k < i ==> 1 <= (#[trigger] g.nodes@[k]).width && 1 <= g.nodes@[k].height
                    && g.nodes@[k].x + g.nodes@[k].width < usize::MAX && g.nodes@[k].y + g.nodes@[k].height < usize::MAX,
            forall|k: int|
                0 <= k < i && !(#[trigger] g.nodes@[k]).is_dummy ==> box_fits(
                    g.nodes@[k].x,
                    g.nodes@[k].y,
                    g.nodes@[k].width,
                    g.nodes@[k].height,
                    crate::graph::lines_view(g.nodes@[k].label_lines@),
                ),
        decreases g.nodes.len() - i,
    {
        let n = &g.nodes[i];
        if n.width < 1 || n.height < 1 || n.x >= usize::MAX - n.width || n.y >= usize::MAX - n.height {
            return false;
        }
        if !n.is_dummy && !box_fits_exec(n.x, n.y, n.width, n.height, &n.label_lines) {
            return false;
        }
        i += 1;
    }
    true
}

proof fn lemma_label_width_ge(lines: Seq<String>, n: int, j: int)
    requires
        0 <= j < n <= lines.len(),
    ensures
        lines[j]@.len() <= label_width(lines, n),
    decreases n,
{
    if j < n - 1 {
        lemma_label_width_ge(lines, n - 1, j);
    }
}

/// What `layout` leaves can be drawn whenever the boxes' far sides fit in
/// `usize`: every node is at least one cell each way, and every box is wide
/// and tall enough for its label lines.
pub proof fn law_layout_drawable(g: Graph, r: Graph, padding: usize)
    requires
        r.nodes.len() >= g.nodes.len(),
        same_except_dims(g.nodes@, r.nodes@.take(g.nodes.len() as int)),
        forall|i: int|
            0 <= i < r.nodes.len() ==> if (#[trigger] r.nodes@[i]).is_dummy {
                r.nodes@[i].width == 1 && r.nodes@[i].height == 1
            } else {
                r.nodes@[i].width == box_width(g.nodes@[i], padding) && r.nodes@[i].height == box_height(
                    g.nodes@[i],
                )
            },
        forall|i: int| g.nodes.len() <= i < r.nodes.len() ==> fresh_dummy(#[trigger] r.nodes@[i], i),
        forall|i: int|
            0 <= i < r.nodes.len() ==> (#[trigger] r.nodes@[i]).x + r.nodes@[i].width < usize::MAX
                && r.nodes@[i].y + r.nodes@[i].height < usize::MAX,
    ensures
        drawable(r),
{
    assert forall|i: int|
        0 <= i < r.nodes.len() && !(#[trigger] r.nodes@[i]).is_dummy implies box_fits(
            r.nodes@[i].x,
            r.nodes@[i].y,
            r.nodes@[i].width,
            r.nodes@[i].height,
            crate::graph::lines_view(r.nodes@[i].label_lines@),
        ) by {
        if i >= g.nodes.len() {
            assert(fresh_dummy(r.nodes@[i], i));
        }
        let n = r.nodes@[i];
        assert(r.nodes@.take(g.nodes.len() as int)[i] == n);
        assert(n.label_lines == g.nodes@[i].label_lines);
        let lv = crate::graph::lines_view(n.label_lines@);
        assert forall|li: int| 0 <= li < lv.len() implies n.x + box_pad(n.width as int, #[trigger] lv[li].len() as int)
            + lv[li].len() <= usize::MAX by {
            lemma_label_width_ge(n.label_lines@, n.label_lines.len() as int, li);
        }
    }
}

impl Default for CellKind {
    fn default() -> (k: Self)
        ensures
            k == CellKind::Empty,
    {
        CellKind::Empty
    }
}

impl Default for Theme {
    fn default() -> (t: Self)
        ensures
            plain_theme(t),
    {
        Theme::plain()
    }
}

} // verus!
