//! Colors and text styles, and the ANSI SGR sequences that select them.
use vstd::prelude::*;
use vstd::string::*;
use crate::text::{dec, push_dec, chars_of};

verus! {

#[derive(Debug, Clone, Copy, PartialEq, Eq, Structural)]
pub enum Color {
    Default,
    Rgb(u8, u8, u8),
    /// Raw SGR foreground code, e.g. 90 for bright black.
    Sgr(u8),
}

/// The foreground sequence that selects `c`.
pub open spec fn fg_code(c: Color) -> Seq<char> {
    match c {
        Color::Default => "\x1b[39m"@,
        Color::Rgb(r, g, b) => "\x1b[38;2;"@ + dec(r as nat) + ";"@ + dec(g as nat) + ";"@ + dec(
            b as nat,
        ) + "m"@,
        Color::Sgr(n) => "\x1b["@ + dec(n as nat) + "m"@,
    }
}

/// The background SGR number for a foreground SGR number: 30..=37 and
/// 90..=97 move up by ten, anything else stays.
pub open spec fn bg_sgr(n: u8) -> nat {
    if (30 <= n <= 37) || (90 <= n <= 97) {
        (n + 10) as nat
    } else {
        n as nat
    }
}

/// The background sequence that selects `c`.
pub open spec fn bg_code(c: Color) -> Seq<char> {
    match c {
        Color::Default => "\x1b[49m"@,
        Color::Rgb(r, g, b) => "\x1b[48;2;"@ + dec(r as nat) + ";"@ + dec(g as nat) + ";"@ + dec(
            b as nat,
        ) + "m"@,
        Color::Sgr(n) => "\x1b["@ + dec(bg_sgr(n)) + "m"@,
    }
}

// ---------------------------------------------------------------------------
// `#rgb` / `#rrggbb` parsing.
/// Value of a hexadecimal digit.
pub open spec fn hex_digit(c: char) -> Option<u8> {
    if '0' <= c <= '9' {
        Some((c as u32 - '0' as u32) as u8)
    } else if 'a' <= c <= 'f' {
        Some((c as u32 - 'a' as u32 + 10) as u8)
    } else if 'A' <= c <= 'F' {
        Some((c as u32 - 'A' as u32 + 10) as u8)
    } else {
        None
    }
}

/// Every character of `t` is a hexadecimal digit.
pub open spec fn all_hex(t: Seq<char>) -> bool {
    forall|i: int| 0 <= i < t.len() ==> #[trigger] hex_digit(t[i]) is Some
}

/// Value of the two hexadecimal digits `c d`.
pub open spec fn hex_pair(c: char, d: char) -> u8 {
    (hex_digit(c)->0 * 16 + hex_digit(d)->0) as u8
}

/// The color that `#rgb` or `#rrggbb` text denotes: `#` followed by exactly
/// three or six hexadecimal digits; anything else denotes none.
pub open spec fn hex_color(s: Seq<char>) -> Option<Color> {
    if s.len() == 0 || s[0] != '#' || !all_hex(s.drop_first()) {
        None
    } else {
        let t = s.drop_first();
        if t.len() == 3 {
            Some(
                Color::Rgb(
                    (hex_digit(t[0])->0 * 17) as u8,
                    (hex_digit(t[1])->0 * 17) as u8,
                    (hex_digit(t[2])->0 * 17) as u8,
                ),
            )
        } else if t.len() == 6 {
            Some(Color::Rgb(hex_pair(t[0], t[1]), hex_pair(t[2], t[3]), hex_pair(t[4], t[5])))
        } else {
            None
        }
    }
}

fn hex_digit_exec(c: char) -> (r: Option<u8>)
    ensures
        r == hex_digit(c),
        r matches Some(x) ==> x < 16,
{
    let u = c as u32;
    if '0' as u32 <= u && u <= '9' as u32 {
        Some((u - '0' as u32) as u8)
    } else if 'a' as u32 <= u && u <= 'f' as u32 {
        Some((u - 'a' as u32 + 10) as u8)
    } else if 'A' as u32 <= u && u <= 'F' as u32 {
        Some((u - 'A' as u32 + 10) as u8)
    } else {
        None
    }
}

impl Color {
    pub fn rgb(r: u8, g: u8, b: u8) -> (c: Self)
        ensures
            c == Color::Rgb(r, g, b),
    {
        Color::Rgb(r, g, b)
    }

    pub fn grey() -> (c: Color)
        ensures
            c == Color::Sgr(90),
    {
        Color::Sgr(90)
    }

    pub fn bright_white() -> (c: Color)
        ensures
            c == Color::Sgr(97),
    {
        Color::Sgr(97)
    }

    pub fn violet() -> (c: Color)
        ensures
            c == Color::Rgb(188, 19, 254),
    {
        Color::Rgb(188, 19, 254)
    }

    pub fn white() -> (c: Color)
        ensures
            c == Color::Rgb(255, 255, 255),
    {
        Color::Rgb(255, 255, 255)
    }

    pub fn neon_green() -> (c: Color)
        ensures
            c == Color::Rgb(110, 190, 130),
    {
        Color::Rgb(110, 190, 130)
    }

    pub fn hot_pink() -> (c: Color)
        ensures
            c == Color::Rgb(255, 20, 147),
    {
        Color::Rgb(255, 20, 147)
    }

    pub fn bright_yellow() -> (c: Color)
        ensures
            c == Color::Sgr(93),
    {
        Color::Sgr(93)
    }

    /// Emit an ANSI foreground SGR into `out`.
    pub fn write_fg(&self, out: &mut String)
        ensures
            final(out)@ == old(out)@ + fg_code(*self),
    {
        match *self {
            Color::Default => out.append("\x1b[39m"),
            Color::Rgb(r, g, b) => {
                out.append("\x1b[38;2;");
                push_dec(out, r as usize);
                out.append(";");
                push_dec(out, g as usize);
                out.append(";");
                push_dec(out, b as usize);
                out.append("m");
            },
            Color::Sgr(n) => {
                out.append("\x1b[");
                push_dec(out, n as usize);
                out.append("m");
            },
        }
    }

    /// Emit an ANSI background SGR into `out`.
    pub fn write_bg(&self, out: &mut String)
        ensures
            final(out)@ == old(out)@ + bg_code(*self),
    {
        match *self {
            Color::Default => out.append("\x1b[49m"),
            Color::Rgb(r, g, b) => {
                out.append("\x1b[48;2;");
                push_dec(out, r as usize);
                out.append(";");
                push_dec(out, g as usize);
                out.append(";");
                push_dec(out, b as usize);
                out.append("m");
            },
            Color::Sgr(n) => {
                // Foreground 30..37 -> bg 40..47; 90..97 -> 100..107.
                let bg: u8 = if (30 <= n && n <= 37) || (90 <= n && n <= 97) {
                    n + 10
                } else {
                    n
                };
                out.append("\x1b[");
                push_dec(out, bg as usize);
                out.append("m");
            },
        }
    }

    /// Parse `#rgb`, `#rrggbb`. Returns `None` on malformed input.
    pub fn parse_hex(s: &str) -> (r: Option<Self>)
        ensures
            r == hex_color(s@),
    {
        let v = chars_of(s);
        parse_hex_chars(&v)
    }
}

/// `Color::parse_hex` on the characters of the text.
pub(crate) fn parse_hex_chars(v: &Vec<char>) -> (r: Option<Color>)
    ensures
        r == hex_color(v@),
{
    if v.len() == 0 || v[0] != '#' {
        return None;
    }
    let n = v.len() - 1;
    if n != 3 && n != 6 {
        proof {
            assert(v@.drop_first().len() == n);
        }
        return None;
    }
    let mut d: Vec<u8> = Vec::new();
    let mut i: usize = 1;
    while i < v.len()
        invariant
            1 <= i <= v.len(),
            v.len() == n + 1,
            v@[0] == '#',
            d.len() == i - 1,
            forall|k: int| 0 <= k < d.len() ==> #[trigger] hex_digit(v@[k + 1]) == Some(d@[k]) && d@[k] < 16,
        decreases v.len() - i,
    {
        match hex_digit_exec(v[i]) {
            None => {
                proof {
                    assert(v@.drop_first()[i - 1] == v@[i as int]);
                }
                return None;
            },
            Some(x) => {
                d.push(x);
            },
        }
        i += 1;
    }
    proof {
        let t = v@.drop_first();
        assert forall|k: int| 0 <= k < t.len() implies #[trigger] hex_digit(t[k]) is Some by {
            assert(t[k] == v@[k + 1]);
            assert(hex_digit(v@[k + 1]) == Some(d@[k]));
        }
        assert forall|k: int| 0 <= k < t.len() implies #[trigger] t[k] == v@[k + 1] by {}
        assert(hex_digit(t[0]) == Some(d@[0]));
        assert(hex_digit(t[1]) == Some(d@[1]));
        assert(hex_digit(t[2]) == Some(d@[2]));
    }
    if n == 3 {
        // Expand: 0xF -> 0xFF (each digit repeats).
        Some(Color::Rgb(d[0] * 17, d[1] * 17, d[2] * 17))
    } else {
        proof {
            let t = v@.drop_first();
            assert(hex_digit(t[3]) == Some(d@[3]));
            assert(hex_digit(t[4]) == Some(d@[4]));
            assert(hex_digit(t[5]) == Some(d@[5]));
        }
        Some(Color::Rgb(d[0] * 16 + d[1], d[2] * 16 + d[3], d[4] * 16 + d[5]))
    }
}


#[derive(Debug, Clone, Copy, PartialEq, Eq, Structural)]
pub struct Style {
    pub fg: Option<Color>,
    pub bg: Option<Color>,
    pub bold: bool,
    pub italic: bool,
    pub dim: bool,
}

/// The style with nothing set.
pub open spec fn empty_style() -> Style {
    Style { fg: None, bg: None, bold: false, italic: false, dim: false }
}

/// The SGR sequences that select `s`, in the order bold, italic, dim,
/// foreground, background.
pub open spec fn style_code(s: Style) -> Seq<char> {
    (if s.bold {
        "\x1b[1m"@
    } else {
        Seq::empty()
    }) + (if s.italic {
        "\x1b[3m"@
    } else {
        Seq::empty()
    }) + (if s.dim {
        "\x1b[2m"@
    } else {
        Seq::empty()
    }) + (match s.fg {
        Some(c) => fg_code(c),
        None => Seq::empty(),
    }) + (match s.bg {
        Some(c) => bg_code(c),
        None => Seq::empty(),
    })
}

impl Style {
    pub fn new() -> (s: Self)
        ensures
            s == empty_style(),
    {
        Style { fg: None, bg: None, bold: false, italic: false, dim: false }
    }

    pub fn fg(fg: Color) -> (s: Self)
        ensures
            s == (Style { fg: Some(fg), ..empty_style() }),
    {
        Style { fg: Some(fg), bg: None, bold: false, italic: false, dim: false }
    }

    pub fn dim() -> (s: Self)
        ensures
            s == (Style { dim: true, ..empty_style() }),
    {
        Style { fg: None, bg: None, bold: false, italic: false, dim: true }
    }

    pub fn is_empty(&self) -> (r: bool)
        ensures
            r == (*self == empty_style()),
    {
        self.fg.is_none() && self.bg.is_none() && !self.bold && !self.italic && !self.dim
    }

    pub fn write(&self, out: &mut String)
        ensures
            final(out)@ == old(out)@ + style_code(*self),
    {
        let ghost start = out@;
        if self.bold {
            out.append("\x1b[1m");
        }
        let ghost a = out@;
        if self.italic {
            out.append("\x1b[3m");
        }
        let ghost b = out@;
        if self.dim {
            out.append("\x1b[2m");
        }
        let ghost c = out@;
        if let Some(fg) = self.fg {
            fg.write_fg(out);
        }
        let ghost d = out@;
        if let Some(bg) = self.bg {
            bg.write_bg(out);
        }
        proof {
            let p1 = if self.bold {
                "\x1b[1m"@
            } else {
                Seq::<char>::empty()
            };
            let p2 = if self.italic {
                "\x1b[3m"@
            } else {
                Seq::<char>::empty()
            };
            let p3 = if self.dim {
                "\x1b[2m"@
            } else {
                Seq::<char>::empty()
            };
            let p4 = match self.fg {
                Some(c) => fg_code(c),
                None => Seq::<char>::empty(),
            };
            let p5 = match self.bg {
                Some(c) => bg_code(c),
                None => Seq::<char>::empty(),
            };
            assert(a == start + p1);
            assert(b == start + p1 + p2);
            assert(c == start + p1 + p2 + p3);
            assert(d == start + p1 + p2 + p3 + p4);
            assert(out@ == start + p1 + p2 + p3 + p4 + p5);
            assert(style_code(*self) == p1 + p2 + p3 + p4 + p5);
            assert(start + p1 + p2 + p3 + p4 + p5 == start + (p1 + p2 + p3 + p4 + p5));
        }
    }
}

/// The short form `#rgb` denotes the same color as `#rrggbb` with each
/// digit repeated.
pub proof fn law_short_hex(r: char, g: char, b: char)
    requires
        hex_digit(r) is Some,
        hex_digit(g) is Some,
        hex_digit(b) is Some,
    ensures
        hex_color(seq!['#', r, g, b]) == hex_color(seq!['#', r, r, g, g, b, b]),
        hex_color(seq!['#', r, g, b]) is Some,
{
    let t3 = seq!['#', r, g, b].drop_first();
    let t6 = seq!['#', r, r, g, g, b, b].drop_first();
    assert(t3 =~= seq![r, g, b]);
    assert(t6 =~= seq![r, r, g, g, b, b]);
    assert(all_hex(t3));
    assert(all_hex(t6));
}

impl Default for Color {
    fn default() -> (c: Self)
        ensures
            c == Color::Default,
    {
        Color::Default
    }
}

impl Default for Style {
    fn default() -> (s: Self)
        ensures
            s == empty_style(),
    {
        Style::new()
    }
}

} // verus!
