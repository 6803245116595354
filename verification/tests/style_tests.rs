use mermaid_ascii::graph::EdgeStyle;
use mermaid_ascii::style::{Color, Style};

#[test]
fn parse_hex_short_and_long() {
    assert_eq!(Color::parse_hex("#fff"), Some(Color::Rgb(255, 255, 255)));
    assert_eq!(Color::parse_hex("#1a2b3c"), Some(Color::Rgb(26, 43, 60)));
    assert_eq!(Color::parse_hex("#A0F"), Some(Color::Rgb(170, 0, 255)));
}

#[test]
fn parse_hex_rejects() {
    assert_eq!(Color::parse_hex("fff"), None);
    assert_eq!(Color::parse_hex("#ff"), None);
    assert_eq!(Color::parse_hex("#ggg"), None);
    assert_eq!(Color::parse_hex(""), None);
}

#[test]
fn parse_hex_rejects_sign_and_non_ascii() {
    assert_eq!(Color::parse_hex("#+f+f+f"), None);
    assert_eq!(Color::parse_hex("#+12345"), None);
    assert_eq!(Color::parse_hex("#é1"), None);
    assert_eq!(Color::parse_hex("#abcd"), None);
}

#[test]
fn write_fg_codes() {
    let mut s = String::new();
    Color::Sgr(90).write_fg(&mut s);
    assert_eq!(s, "\x1b[90m");
    let mut s = String::new();
    Color::Rgb(1, 2, 3).write_fg(&mut s);
    assert_eq!(s, "\x1b[38;2;1;2;3m");
    let mut s = String::new();
    Color::Default.write_fg(&mut s);
    assert_eq!(s, "\x1b[39m");
}

#[test]
fn write_bg_codes() {
    let mut s = String::new();
    Color::Sgr(90).write_bg(&mut s);
    assert_eq!(s, "\x1b[100m");
    let mut s = String::new();
    Color::Sgr(31).write_bg(&mut s);
    assert_eq!(s, "\x1b[41m");
    let mut s = String::new();
    Color::Sgr(1).write_bg(&mut s);
    assert_eq!(s, "\x1b[1m");
    let mut s = String::new();
    Color::Rgb(255, 0, 10).write_bg(&mut s);
    assert_eq!(s, "\x1b[48;2;255;0;10m");
    let mut s = String::new();
    Color::Default.write_bg(&mut s);
    assert_eq!(s, "\x1b[49m");
}

#[test]
fn style_write_order() {
    let mut st = Style::fg(Color::Sgr(90));
    st.bold = true;
    st.dim = true;
    st.bg = Some(Color::Sgr(34));
    let mut s = String::from("x");
    st.write(&mut s);
    assert_eq!(s, "x\x1b[1m\x1b[2m\x1b[90m\x1b[44m");
}

#[test]
fn style_empty() {
    assert!(Style::new().is_empty());
    assert!(!Style::dim().is_empty());
    assert!(!Style::fg(Color::rgb(1, 2, 3)).is_empty());
    let mut s = String::new();
    Style::new().write(&mut s);
    assert_eq!(s, "");
}

#[test]
fn max_over_ranks() {
    assert_eq!(EdgeStyle::Thick.max_over(EdgeStyle::Normal), EdgeStyle::Thick);
    assert_eq!(EdgeStyle::Normal.max_over(EdgeStyle::Thick), EdgeStyle::Thick);
    assert_eq!(EdgeStyle::Normal.max_over(EdgeStyle::Dotted), EdgeStyle::Dotted);
    assert_eq!(EdgeStyle::Dotted.max_over(EdgeStyle::Thick), EdgeStyle::Thick);
    assert_eq!(EdgeStyle::Invisible.max_over(EdgeStyle::Normal), EdgeStyle::Normal);
    assert_eq!(EdgeStyle::Dotted.max_over(EdgeStyle::Dotted), EdgeStyle::Dotted);
}

#[test]
fn short_hex_repeats_digits() {
    assert_eq!(Color::parse_hex("#abc"), Color::parse_hex("#aabbcc"));
    assert_eq!(Color::parse_hex("#09F"), Color::parse_hex("#0099FF"));
}

#[test]
fn defaults() {
    assert_eq!(Color::default(), Color::Default);
    assert!(Style::default().is_empty());
    assert_eq!(EdgeStyle::default(), EdgeStyle::Normal);
}
