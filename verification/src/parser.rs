//! Parser for the Mermaid `flowchart` subset.
//!
//! Every line is trimmed and classified; all positions are character
//! indices into the trimmed line (every operator character is ASCII, so
//! they agree with byte positions on the same text).
use vstd::prelude::*;
use vstd::string::*;
use crate::graph::{
    EdgeStyle, ArrowTip, Shape, Direction, Edge, Graph, Node, Subgraph, NodeId, SubgraphId, lines_view,
    opt_view, find_named, all_empty,
};
use crate::style::{Color, Style, empty_style, hex_color, parse_hex_chars};
use crate::text::{
    occurs_at, occurs_at_exec, find_from, find_from_exec, trimmed, trim, slice, contains_seq,
    contains_exec, is_ws, is_whitespace, has_prefix, starts_with, find_char, find_char_exec,
    rfind_char, rfind_char_exec, string_of, chars_of, push_chars, find_ws, find_ws_exec, rfind_ws,
    rfind_ws_exec, dec, push_dec, ltrim, rtrim,
};

verus! {

/// An edge operator found in a line: `[start, end)` is its span.
pub struct EdgeHit {
    pub start: usize,
    pub end: usize,
    pub style: EdgeStyle,
    pub label: Option<Vec<char>>,
    /// Tip at the target side ("forward" direction).
    pub tip_fwd: ArrowTip,
    /// Also an arrow back at the source (for `<-->`).
    pub tip_back: bool,
    /// Edge rank (1 = base length, 2 = `--->`, 3 = `---->`, ...)
    pub length: usize,
}

/// Mathematical content of an `EdgeHit`.
pub struct HitModel {
    pub start: int,
    pub end: int,
    pub style: EdgeStyle,
    pub label: Option<Seq<char>>,
    pub tip_fwd: ArrowTip,
    pub tip_back: bool,
    pub length: int,
}

pub open spec fn opt_chars(l: Option<Vec<char>>) -> Option<Seq<char>> {
    match l {
        Some(v) => Some(v@),
        None => None,
    }
}

impl EdgeHit {
    pub open spec fn model(&self) -> HitModel {
        HitModel {
            start: self.start as int,
            end: self.end as int,
            style: self.style,
            label: opt_chars(self.label),
            tip_fwd: self.tip_fwd,
            tip_back: self.tip_back,
            length: self.length as int,
        }
    }
}

pub open spec fn opt_model(h: Option<EdgeHit>) -> Option<HitModel> {
    match h {
        Some(x) => Some(x.model()),
        None => None,
    }
}

pub open spec fn hit(
    start: int,
    end: int,
    style: EdgeStyle,
    tip_fwd: ArrowTip,
    tip_back: bool,
    length: int,
) -> HitModel {
    HitModel { start, end, style, label: None, tip_fwd, tip_back, length }
}

/// First index at or after `i` that does not hold `c`.
pub open spec fn run_end(s: Seq<char>, i: int, c: char) -> int
    decreases s.len() - i,
{
    if 0 <= i < s.len() && s[i] == c {
        run_end(s, i + 1, c)
    } else {
        i
    }
}

/// Tip selected by the character after a dash run.
pub open spec fn dash_tip(c: char) -> Option<ArrowTip> {
    if c == '>' {
        Some(ArrowTip::Arrow)
    } else if c == 'x' {
        Some(ArrowTip::Cross)
    } else if c == 'o' {
        Some(ArrowTip::Circle)
    } else {
        None
    }
}

pub open spec fn dotted_arrow() -> Seq<char> {
    seq!['-', '.', '-', '>']
}

pub open spec fn tildes() -> Seq<char> {
    seq!['~', '~', '~']
}

/// The simple (unlabeled) edge operator that starts exactly at `pos`:
/// `-.->`, `<-->` and longer, `-->`/`--x`/`--o` and longer, `---` and
/// longer, `==>` and longer, `===` and longer, `~~~`.
pub open spec fn simple_at(s: Seq<char>, pos: int) -> Option<HitModel> {
    if pos < 0 || pos >= s.len() {
        None
    } else if occurs_at(s, dotted_arrow(), pos) {
        Some(hit(pos, pos + 4, EdgeStyle::Dotted, ArrowTip::Arrow, false, 1))
    } else if s[pos] == '<' {
        let e = run_end(s, pos + 1, '-');
        let dashes = e - pos - 1;
        if dashes >= 2 && e < s.len() && s[e] == '>' {
            Some(hit(pos, e + 1, EdgeStyle::Normal, ArrowTip::Arrow, true, dashes - 1))
        } else {
            None
        }
    } else if s[pos] == '-' {
        let e = run_end(s, pos, '-');
        let n = e - pos;
        if n >= 2 && e < s.len() && dash_tip(s[e]) is Some {
            Some(hit(pos, e + 1, EdgeStyle::Normal, dash_tip(s[e])->0, false, n - 1))
        } else if n >= 3 {
            Some(hit(pos, e, EdgeStyle::Normal, ArrowTip::NoTip, false, n - 2))
        } else {
            None
        }
    } else if s[pos] == '=' {
        let e = run_end(s, pos, '=');
        let n = e - pos;
        if n >= 2 && e < s.len() && s[e] == '>' {
            Some(hit(pos, e + 1, EdgeStyle::Thick, ArrowTip::Arrow, false, n - 1))
        } else if n >= 3 {
            Some(hit(pos, e, EdgeStyle::Thick, ArrowTip::NoTip, false, n - 2))
        } else {
            None
        }
    } else if occurs_at(s, tildes(), pos) {
        Some(hit(pos, pos + 3, EdgeStyle::Invisible, ArrowTip::NoTip, false, 1))
    } else {
        None
    }
}

proof fn lemma_run_end(s: Seq<char>, i: int, c: char)
    requires
        0 <= i <= s.len(),
    ensures
        i <= run_end(s, i, c) <= s.len(),
        forall|k: int| i <= k < run_end(s, i, c) ==> s[k] == c,
        run_end(s, i, c) < s.len() ==> s[run_end(s, i, c)] != c,
    decreases s.len() - i,
{
    if i < s.len() && s[i] == c {
        lemma_run_end(s, i + 1, c);
    }
}

fn run_end_exec(s: &Vec<char>, i: usize, c: char) -> (e: usize)
    requires
        i <= s.len(),
    ensures
        e == run_end(s@, i as int, c),
        i <= e <= s.len(),
{
    proof {
        lemma_run_end(s@, i as int, c);
    }
    let mut e = i;
    while e < s.len() && s[e] == c
        invariant
            i <= e <= s.len(),
            run_end(s@, i as int, c) == run_end(s@, e as int, c),
        decreases s.len() - e,
    {
        e += 1;
    }
    e
}

/// Every simple operator lies within the line, after its start.
pub proof fn lemma_simple_at_span(s: Seq<char>, pos: int)
    ensures
        simple_at(s, pos) matches Some(h) ==> h.start == pos && pos < h.end <= s.len()
            && h.label is None && h.length >= 1,
{
    if 0 <= pos < s.len() {
        lemma_run_end(s, pos + 1, '-');
        lemma_run_end(s, pos, '-');
        lemma_run_end(s, pos, '=');
    }
}

/// Scan a single simple edge token starting at `pos` and return its span
/// plus the style and tip.
fn try_simple_at(s: &Vec<char>, pos: usize) -> (r: Option<EdgeHit>)
    ensures
        opt_model(r) == simple_at(s@, pos as int),
{
    proof {
        lemma_simple_at_span(s@, pos as int);
    }
    if pos >= s.len() {
        return None;
    }
    let dotted = vec!['-', '.', '-', '>'];
    assert(dotted@ == dotted_arrow());
    // Dotted: -.-> (exactly four chars, handle before dash run)
    if occurs_at_exec(s, &dotted, pos) {
        return Some(
            EdgeHit {
                start: pos,
                end: pos + 4,
                style: EdgeStyle::Dotted,
                label: None,
                tip_fwd: ArrowTip::Arrow,
                tip_back: false,
                length: 1,
            },
        );
    }
    // Bidirectional: `<-->` (or longer). Leading `<`, then a dash run, then `>`.

    if s[pos] == '<' {
        let end = run_end_exec(s, pos + 1, '-');
        let dashes = end - pos - 1;
        if dashes >= 2 && end < s.len() && s[end] == '>' {
            return Some(
                EdgeHit {
                    start: pos,
                    end: end + 1,
                    style: EdgeStyle::Normal,
                    label: None,
                    tip_fwd: ArrowTip::Arrow,
                    tip_back: true,
                    length: dashes - 1,
                },
            );
        }
        return None;
    }
    // Dash run: `---`, `-->`, `--->`, `--x`, `--o`, ...

    if s[pos] == '-' {
        let end = run_end_exec(s, pos, '-');
        let dash_count = end - pos;
        if dash_count >= 2 && end < s.len() {
            let c = s[end];
            let tip = if c == '>' {
                Some(ArrowTip::Arrow)
            } else if c == 'x' {
                Some(ArrowTip::Cross)
            } else if c == 'o' {
                Some(ArrowTip::Circle)
            } else {
                None
            };
            if let Some(tip_fwd) = tip {
                return Some(
                    EdgeHit {
                        start: pos,
                        end: end + 1,
                        style: EdgeStyle::Normal,
                        label: None,
                        tip_fwd,
                        tip_back: false,
                        // 2 dashes = base length 1, 3 dashes = 2, ...
                        length: dash_count - 1,
                    },
                );
            }
        }
        if dash_count >= 3 {
            return Some(
                EdgeHit {
                    start: pos,
                    end,
                    style: EdgeStyle::Normal,
                    label: None,
                    tip_fwd: ArrowTip::NoTip,
                    tip_back: false,
                    // 3 dashes = base open, 4 = longer, ...
                    length: dash_count - 2,
                },
            );
        }
        return None;
    }
    // Equals run: `==>`, `===`

    if s[pos] == '=' {
        let end = run_end_exec(s, pos, '=');
        let eq_count = end - pos;
        if eq_count >= 2 && end < s.len() && s[end] == '>' {
            return Some(
                EdgeHit {
                    start: pos,
                    end: end + 1,
                    style: EdgeStyle::Thick,
                    label: None,
                    tip_fwd: ArrowTip::Arrow,
                    tip_back: false,
                    length: eq_count - 1,
                },
            );
        }
        if eq_count >= 3 {
            return Some(
                EdgeHit {
                    start: pos,
                    end,
                    style: EdgeStyle::Thick,
                    label: None,
                    tip_fwd: ArrowTip::NoTip,
                    tip_back: false,
                    length: eq_count - 2,
                },
            );
        }
        return None;
    }
    // Invisible: ~~~

    let tilde = vec!['~', '~', '~'];
    assert(tilde@ == tildes());
    if occurs_at_exec(s, &tilde, pos) {
        return Some(
            EdgeHit {
                start: pos,
                end: pos + 3,
                style: EdgeStyle::Invisible,
                label: None,
                length: 1,
                tip_fwd: ArrowTip::NoTip,
                tip_back: false,
            },
        );
    }
    None
}

// ---------------------------------------------------------------------------
// Labeled operators: `-- text -->`, `== text ==>`, `-. text .->`.
pub open spec fn op_open(k: int) -> Seq<char> {
    if k == 0 {
        seq!['-', '-', ' ']
    } else if k == 1 {
        seq!['=', '=', ' ']
    } else {
        seq!['-', '.', ' ']
    }
}

pub open spec fn op_close(k: int) -> Seq<char> {
    if k == 0 {
        seq![' ', '-', '-', '>']
    } else if k == 1 {
        seq![' ', '=', '=', '>']
    } else {
        seq![' ', '.', '-', '>']
    }
}

pub open spec fn op_style(k: int) -> EdgeStyle {
    if k == 0 {
        EdgeStyle::Normal
    } else if k == 1 {
        EdgeStyle::Thick
    } else {
        EdgeStyle::Dotted
    }
}

pub open spec fn arrow_normal() -> Seq<char> {
    seq!['-', '-', '>']
}

pub open spec fn arrow_thick() -> Seq<char> {
    seq!['=', '=', '>']
}

pub open spec fn arrow_dotted_tail() -> Seq<char> {
    seq!['.', '-', '>']
}

/// Labeled operator `k` searched from `from`: the first opener, then the
/// first closer after it; the trimmed text between must be non-empty and
/// hold no `-->`, `==>` or `.->`.
pub open spec fn labeled_at(s: Seq<char>, from: int, k: int) -> Option<HitModel> {
    match find_from(s, op_open(k), from) {
        None => None,
        Some(o) => match find_from(s, op_close(k), o + 3) {
            None => None,
            Some(c) => {
                let text = trimmed(s.subrange(o + 3, c));
                if text.len() > 0 && !contains_seq(text, arrow_normal()) && !contains_seq(
                    text,
                    arrow_thick(),
                ) && !contains_seq(text, arrow_dotted_tail()) {
                    Some(
                        HitModel {
                            start: o,
                            end: c + 4,
                            style: op_style(k),
                            label: Some(text),
                            tip_fwd: ArrowTip::Arrow,
                            tip_back: false,
                            length: 1,
                        },
                    )
                } else {
                    None
                }
            },
        },
    }
}

/// `cand` replaces `best` when it starts strictly earlier.
pub open spec fn earlier(cand: Option<HitModel>, best: Option<HitModel>) -> Option<HitModel> {
    match cand {
        None => best,
        Some(c) => match best {
            None => cand,
            Some(b) => if c.start < b.start {
                cand
            } else {
                best
            },
        },
    }
}

/// The first simple operator at or after `p`.
pub open spec fn first_simple(s: Seq<char>, p: int) -> Option<HitModel>
    decreases s.len() - p,
{
    if p < 0 || p >= s.len() {
        None
    } else if simple_at(s, p) is Some {
        simple_at(s, p)
    } else {
        first_simple(s, p + 1)
    }
}

/// The edge operator that starts earliest at or after `from`; on a tie the
/// labeled forms win, in the order `--`, `==`, `-.`.
pub open spec fn edge_op(s: Seq<char>, from: int) -> Option<HitModel> {
    let l = earlier(
        labeled_at(s, from, 2),
        earlier(labeled_at(s, from, 1), earlier(labeled_at(s, from, 0), None)),
    );
    earlier(first_simple(s, from), l)
}

pub proof fn lemma_find_from(s: Seq<char>, p: Seq<char>, i: int)
    requires
        i >= 0,
    ensures
        find_from(s, p, i) matches Some(j) ==> i <= j && j + p.len() <= s.len() && occurs_at(
            s,
            p,
            j,
        ),
    decreases s.len() + 1 - i,
{
    if i + p.len() <= s.len() && !occurs_at(s, p, i) {
        lemma_find_from(s, p, i + 1);
    }
}

proof fn lemma_labeled_span(s: Seq<char>, from: int, k: int)
    requires
        0 <= from,
    ensures
        labeled_at(s, from, k) matches Some(h) ==> from <= h.start < h.end <= s.len() && h.label
            is Some && h.length == 1,
{
    lemma_find_from(s, op_open(k), from);
    if let Some(o) = find_from(s, op_open(k), from) {
        lemma_find_from(s, op_close(k), o + 3);
    }
}

proof fn lemma_first_simple_span(s: Seq<char>, p: int)
    requires
        0 <= p,
    ensures
        first_simple(s, p) matches Some(h) ==> p <= h.start < h.end <= s.len() && h.length >= 1,
    decreases s.len() - p,
{
    if p < s.len() {
        lemma_simple_at_span(s, p);
        if simple_at(s, p) is None {
            lemma_first_simple_span(s, p + 1);
        }
    }
}

/// The operator found from `from` lies within the line after `from`.
pub proof fn lemma_edge_op_span(s: Seq<char>, from: int)
    requires
        0 <= from,
    ensures
        edge_op(s, from) matches Some(h) ==> from <= h.start < h.end <= s.len() && h.length >= 1,
{
    lemma_labeled_span(s, from, 0);
    lemma_labeled_span(s, from, 1);
    lemma_labeled_span(s, from, 2);
    lemma_first_simple_span(s, from);
}

fn op_patterns(k: usize) -> (r: (Vec<char>, Vec<char>, EdgeStyle))
    requires
        k < 3,
    ensures
        r.0@ == op_open(k as int),
        r.1@ == op_close(k as int),
        r.2 == op_style(k as int),
{
    if k == 0 {
        (vec!['-', '-', ' '], vec![' ', '-', '-', '>'], EdgeStyle::Normal)
    } else if k == 1 {
        (vec!['=', '=', ' '], vec![' ', '=', '=', '>'], EdgeStyle::Thick)
    } else {
        (vec!['-', '.', ' '], vec![' ', '.', '-', '>'], EdgeStyle::Dotted)
    }
}

fn labeled_exec(s: &Vec<char>, from: usize, k: usize) -> (r: Option<EdgeHit>)
    requires
        k < 3,
    ensures
        opt_model(r) == labeled_at(s@, from as int, k as int),
{
    let (open, close, style) = op_patterns(k);
    assert(open@.len() == 3 && close@.len() == 4);
    proof {
        lemma_find_from(s@, open@, from as int);
    }
    match find_from_exec(s, &open, from) {
        None => None,
        Some(open_start) => {
            assert(find_from(s@, open@, from as int) == Some(open_start as int));
            assert(open_start + open@.len() <= s.len());
            let open_end = open_start + 3;
            proof {
                lemma_find_from(s@, close@, open_end as int);
            }
            match find_from_exec(s, &close, open_end) {
                None => None,
                Some(close_start) => {
                    let inner = slice(s, open_end, close_start);
                    let text = trim(&inner);
                    let a1 = vec!['-', '-', '>'];
                    let a2 = vec!['=', '=', '>'];
                    let a3 = vec!['.', '-', '>'];
                    if text.len() > 0 && !contains_exec(&text, &a1) && !contains_exec(&text, &a2)
                        && !contains_exec(&text, &a3) {
                        Some(
                            EdgeHit {
                                start: open_start,
                                end: close_start + 4,
                                style,
                                label: Some(text),
                                tip_fwd: ArrowTip::Arrow,
                                tip_back: false,
                                length: 1,
                            },
                        )
                    } else {
                        None
                    }
                },
            }
        },
    }
}

fn earlier_exec(cand: Option<EdgeHit>, best: Option<EdgeHit>) -> (r: Option<EdgeHit>)
    ensures
        opt_model(r) == earlier(opt_model(cand), opt_model(best)),
{
    match cand {
        None => best,
        Some(c) => match best {
            None => Some(c),
            Some(b) => if c.start < b.start {
                Some(c)
            } else {
                Some(b)
            },
        },
    }
}

/// The earliest edge operator in `s` at or after `from`.
fn find_edge_op(s: &Vec<char>, from: usize) -> (r: Option<EdgeHit>)
    ensures
        opt_model(r) == edge_op(s@, from as int),
        r matches Some(h) ==> from <= h.start < h.end <= s.len() && h.length >= 1,
{
    proof {
        lemma_edge_op_span(s@, from as int);
    }
    // Labeled forms first.
    let mut best: Option<EdgeHit> = None;
    best = earlier_exec(labeled_exec(s, from, 0), best);
    best = earlier_exec(labeled_exec(s, from, 1), best);
    best = earlier_exec(labeled_exec(s, from, 2), best);
    // Simple forms: scan positions for the earliest match.
    let mut p = from;
    while p < s.len()
        invariant
            from <= p,
            opt_model(best) == earlier(
                labeled_at(s@, from as int, 2),
                earlier(labeled_at(s@, from as int, 1), earlier(labeled_at(s@, from as int, 0), None)),
            ),
            edge_op(s@, from as int) matches Some(h) ==> from <= h.start < h.end <= s.len() && h.length >= 1,
            first_simple(s@, from as int) == first_simple(s@, p as int),
        decreases s.len() - p,
    {
        let h = try_simple_at(s, p);
        if h.is_some() {
            return earlier_exec(h, best);
        }
        p += 1;
    }
    best
}


// ---------------------------------------------------------------------------
// Labels.
pub open spec fn fa_prefix() -> Seq<char> {
    seq!['f', 'a', ':']
}

/// Appends a finished word to the cleaned label: empty words and Font
/// Awesome tokens (`fa:...`) are dropped, the rest joined by one space.
pub open spec fn flush_word(out: Seq<char>, w: Seq<char>) -> Seq<char> {
    if w.len() == 0 || has_prefix(w, fa_prefix()) {
        out
    } else if out.len() == 0 {
        w
    } else {
        out.push(' ') + w
    }
}

/// Cleaning of `s[i..]`, given the output so far and the word in progress.
pub open spec fn clean_from(s: Seq<char>, i: int, out: Seq<char>, w: Seq<char>) -> Seq<char>
    decreases s.len() - i,
{
    if i < 0 || i >= s.len() {
        flush_word(out, w)
    } else if is_ws(s[i]) {
        clean_from(s, i + 1, flush_word(out, w), Seq::empty())
    } else {
        clean_from(s, i + 1, out, w.push(s[i]))
    }
}

/// The white-space separated words of `s` that do not start with `fa:`,
/// joined by single spaces.
pub open spec fn cleaned(s: Seq<char>) -> Seq<char> {
    clean_from(s, 0, Seq::empty(), Seq::empty())
}

fn flush_word_exec(out: &mut Vec<char>, w: &Vec<char>)
    ensures
        final(out)@ == flush_word(old(out)@, w@),
{
    let fa = vec!['f', 'a', ':'];
    if w.len() == 0 || starts_with(w, &fa) {
        return ;
    }
    if out.len() > 0 {
        out.push(' ');
    }
    let mut i: usize = 0;
    let ghost base = out@;
    while i < w.len()
        invariant
            i <= w.len(),
            out@ == base + w@.take(i as int),
        decreases w.len() - i,
    {
        out.push(w[i]);
        assert(w@.take(i + 1) == w@.take(i as int).push(w@[i as int]));
        i += 1;
    }
    assert(w@.take(w.len() as int) == w@);
    assert(Seq::<char>::empty() + w@ == w@);
}

/// Strip Font Awesome prefix tokens and normalize the label.
fn clean_label(s: &Vec<char>) -> (r: Vec<char>)
    ensures
        r@ == cleaned(s@),
{
    let mut out: Vec<char> = Vec::new();
    let mut w: Vec<char> = Vec::new();
    let mut i: usize = 0;
    while i < s.len()
        invariant
            i <= s.len(),
            cleaned(s@) == clean_from(s@, i as int, out@, w@),
        decreases s.len() - i,
    {
        if is_whitespace(s[i]) {
            flush_word_exec(&mut out, &w);
            w = Vec::new();
        } else {
            w.push(s[i]);
        }
        i += 1;
    }
    flush_word_exec(&mut out, &w);
    out
}

// ---------------------------------------------------------------------------
// `id`, `id[Label]`, `id(Label)`, `id{Label}`.
pub open spec fn open_shape(c: char) -> Option<(char, Shape)> {
    if c == '[' {
        Some((']', Shape::Square))
    } else if c == '(' {
        Some((')', Shape::Round))
    } else if c == '{' {
        Some(('}', Shape::Round))
    } else {
        None
    }
}

/// First index at or after `i` holding an opening bracket.
pub open spec fn first_open(s: Seq<char>, i: int) -> Option<int>
    decreases s.len() - i,
{
    if i < 0 || i >= s.len() {
        None
    } else if open_shape(s[i]) is Some {
        Some(i)
    } else {
        first_open(s, i + 1)
    }
}

/// A quoted label loses its surrounding quotes.
pub open spec fn unquote(l: Seq<char>) -> Seq<char> {
    if l.len() >= 2 && l[0] == '"' && l.last() == '"' {
        l.subrange(1, l.len() - 1)
    } else {
        l
    }
}

/// Name, label and shape of a node reference, or the error message.
pub open spec fn ident_label(s0: Seq<char>) -> Result<(Seq<char>, Seq<char>, Shape), Seq<char>> {
    let s = trimmed(s0);
    if s.len() == 0 {
        Err("empty identifier"@)
    } else {
        match first_open(s, 0) {
            None => Ok((s, cleaned(s), Shape::Round)),
            Some(i) => {
                let close = (open_shape(s[i])->0).0;
                let shape = (open_shape(s[i])->0).1;
                let name = trimmed(s.take(i));
                if name.len() == 0 {
                    Err("empty node name in '"@ + s + "'"@)
                } else {
                    let rest = s.skip(i + 1);
                    match rfind_char(rest, close, rest.len() as int) {
                        None => Err("missing closing '"@ + seq![close] + "'"@),
                        Some(e) => Ok((name, cleaned(unquote(trimmed(rest.take(e)))), shape)),
                    }
                }
            },
        }
    }
}

fn shape_for(c: char) -> (r: Option<(char, Shape)>)
    ensures
        r == open_shape(c),
{
    if c == '[' {
        Some((']', Shape::Square))
    } else if c == '(' {
        Some((')', Shape::Round))
    } else if c == '{' {
        Some(('}', Shape::Round))
    } else {
        None
    }
}

proof fn lemma_first_open(s: Seq<char>, i: int)
    requires
        0 <= i,
    ensures
        first_open(s, i) matches Some(k) ==> i <= k < s.len() && open_shape(s[k]) is Some,
    decreases s.len() - i,
{
    if i < s.len() && open_shape(s[i]) is None {
        lemma_first_open(s, i + 1);
    }
}

proof fn lemma_rfind_char(s: Seq<char>, c: char, hi: int)
    requires
        hi <= s.len(),
    ensures
        rfind_char(s, c, hi) matches Some(k) ==> 0 <= k < hi && s[k] == c,
    decreases hi,
{
    if hi > 0 && s[hi - 1] != c {
        lemma_rfind_char(s, c, hi - 1);
    }
}

/// Parse a node reference into (name, label, shape).
fn parse_ident_label(s0: &Vec<char>) -> (r: Result<(Vec<char>, Vec<char>, Shape), String>)
    ensures
        match ident_label(s0@) {
            Ok((n, l, sh)) => r matches Ok((a, b, c)) && a@ == n && b@ == l && c == sh,
            Err(m) => r matches Err(e) && e@ == m,
        },
{
    let s = trim(s0);
    if s.len() == 0 {
        return Err(String::from_str("empty identifier"));
    }
    let mut i: usize = 0;
    while i < s.len() && shape_for(s[i]).is_none()
        invariant
            i <= s.len(),
            first_open(s@, 0) == first_open(s@, i as int),
        decreases s.len() - i,
    {
        i += 1;
    }
    if i == s.len() {
        let l = clean_label(&s);
        return Ok((s, l, Shape::Round));
    }
    let (close, shape) = shape_for(s[i]).unwrap();
    let head = slice(&s, 0, i);
    let name = trim(&head);
    if name.len() == 0 {
        let mut m = String::from_str("empty node name in '");
        push_chars(&mut m, &s);
        m.append("'");
        return Err(m);
    }
    let rest = slice(&s, i + 1, s.len());
    proof {
        lemma_rfind_char(rest@, close, rest@.len() as int);
    }
    match rfind_char_exec(&rest, close, rest.len()) {
        None => {
            let mut m = String::from_str("missing closing '");
            let mut cv: Vec<char> = Vec::new();
            cv.push(close);
            push_chars(&mut m, &cv);
            m.append("'");
            Err(m)
        },
        Some(end) => {
            let inner = slice(&rest, 0, end);
            let l0 = trim(&inner);
            let label = if l0.len() >= 2 && l0[0] == '"' && l0[l0.len() - 1] == '"' {
                slice(&l0, 1, l0.len() - 1)
            } else {
                l0
            };
            let cl = clean_label(&label);
            Ok((name, cl, shape))
        },
    }
}

// ---------------------------------------------------------------------------
// `<br>` splitting.
/// A case-insensitive `<br` starts at `i`.
pub open spec fn br_at(s: Seq<char>, i: int) -> bool {
    0 <= i && i + 3 <= s.len() && s[i] == '<' && (s[i + 1] == 'b' || s[i + 1] == 'B') && (s[i
        + 2] == 'r' || s[i + 2] == 'R')
}

pub open spec fn find_br(s: Seq<char>, i: int) -> Option<int>
    decreases s.len() - i,
{
    if i < 0 || i >= s.len() {
        None
    } else if br_at(s, i) {
        Some(i)
    } else {
        find_br(s, i + 1)
    }
}

/// The rendered lines of a label: split at each `<br ...>` tag (up to its
/// closing `>`), each piece trimmed; an unclosed tag keeps the rest verbatim.
pub open spec fn br_lines(s: Seq<char>) -> Seq<Seq<char>>
    decreases s.len(),
{
    match find_br(s, 0) {
        None => seq![trimmed(s)],
        Some(i) => if 0 <= i < s.len() {
            match find_char(s, '>', i) {
                None => seq![trimmed(s.take(i)), trimmed(s.skip(i))],
                Some(c) => if i <= c < s.len() {
                    seq![trimmed(s.take(i))] + br_lines(s.skip(c + 1))
                } else {
                    seq![]
                },
            }
        } else {
            seq![]
        },
    }
}

proof fn lemma_find_br(s: Seq<char>, i: int)
    requires
        0 <= i,
    ensures
        find_br(s, i) matches Some(k) ==> i <= k < s.len() && br_at(s, k),
    decreases s.len() - i,
{
    if i < s.len() && !br_at(s, i) {
        lemma_find_br(s, i + 1);
    }
}

pub proof fn lemma_find_char(s: Seq<char>, c: char, i: int)
    requires
        0 <= i,
    ensures
        find_char(s, c, i) matches Some(k) ==> i <= k < s.len() && s[k] == c,
        find_char(s, c, i) is None ==> forall|k: int| i <= k < s.len() ==> s[k] != c,
    decreases s.len() - i,
{
    if i < s.len() && s[i] != c {
        lemma_find_char(s, c, i + 1);
    }
}

/// No `<br` in `s` is closed by a later `>`.
pub open spec fn no_closed_br(s: Seq<char>) -> bool {
    forall|i: int| br_at(s, i) ==> find_char(s, '>', i) is None
}

proof fn lemma_ltrim_suffix(s: Seq<char>) -> (a: int)
    ensures
        0 <= a <= s.len(),
        ltrim(s) == s.skip(a),
    decreases s.len(),
{
    if s.len() > 0 && is_ws(s[0]) {
        let a1 = lemma_ltrim_suffix(s.drop_first());
        assert(s.drop_first().skip(a1) == s.skip(a1 + 1));
        a1 + 1
    } else {
        assert(s.skip(0) == s);
        0
    }
}

proof fn lemma_rtrim_prefix(s: Seq<char>) -> (b: int)
    ensures
        0 <= b <= s.len(),
        rtrim(s) == s.take(b),
    decreases s.len(),
{
    if s.len() > 0 && is_ws(s.last()) {
        let b1 = lemma_rtrim_prefix(s.drop_last());
        assert(s.drop_last().take(b1) == s.take(b1));
        b1
    } else {
        assert(s.take(s.len() as int) == s);
        s.len() as int
    }
}

/// A trimmed piece is a run of the original.
proof fn lemma_trimmed_run(s: Seq<char>) -> (ab: (int, int))
    ensures
        0 <= ab.0 <= ab.1 <= s.len(),
        trimmed(s) == s.subrange(ab.0, ab.1),
{
    let a = lemma_ltrim_suffix(s);
    let b = lemma_rtrim_prefix(ltrim(s));
    assert(s.skip(a).take(b) == s.subrange(a, a + b));
    (a, a + b)
}

/// A run of text with no `<br`, or with no `>`, has no closed `<br>`.
proof fn lemma_run_no_closed_br(s: Seq<char>, a: int, b: int)
    requires
        0 <= a <= b <= s.len(),
        (forall|i: int| !br_at(s, i)) || (forall|k: int| 0 <= k < s.len() ==> s[k] != '>'),
    ensures
        no_closed_br(s.subrange(a, b)),
{
    let r = s.subrange(a, b);
    assert forall|i: int| br_at(r, i) implies find_char(r, '>', i) is None by {
        lemma_find_char(r, '>', i);
        if forall|i2: int| !br_at(s, i2) {
            assert(br_at(s, a + i));
        } else {
            if let Some(k) = find_char(r, '>', i) {
                assert(r[k] == s[a + k]);
            }
        }
    }
}

proof fn lemma_find_br_first(s: Seq<char>, i: int)
    requires
        0 <= i,
    ensures
        find_br(s, i) matches Some(k) ==> forall|j: int| i <= j < k ==> !br_at(s, j),
        find_br(s, i) is None ==> forall|j: int| i <= j ==> !br_at(s, j),
    decreases s.len() - i,
{
    if i < s.len() && !br_at(s, i) {
        lemma_find_br_first(s, i + 1);
    }
}

/// Every `<br ...>` tag that is closed splits the label: no line that
/// `split_br` gives still holds a closed tag.
#[verifier::spinoff_prover]
pub proof fn law_br_lines_split_all(s: Seq<char>)
    ensures
        forall|j: int| 0 <= j < br_lines(s).len() ==> no_closed_br(#[trigger] br_lines(s)[j]),
    decreases s.len(),
{
    lemma_find_br_first(s, 0);
    lemma_find_br(s, 0);
    match find_br(s, 0) {
        None => {
            let ab = lemma_trimmed_run(s);
            lemma_run_no_closed_br(s, ab.0, ab.1);
        },
        Some(i) => {
            if 0 <= i < s.len() {
                let head = s.take(i);
                assert forall|k: int| !br_at(head, k) by {
                    if br_at(head, k) {
                        assert(br_at(s, k));
                    }
                }
                let ab = lemma_trimmed_run(head);
                lemma_run_no_closed_br(head, ab.0, ab.1);
                lemma_find_char(s, '>', i);
                match find_char(s, '>', i) {
                    None => {
                        let tail = s.skip(i);
                        assert forall|k: int| 0 <= k < tail.len() implies tail[k] != '>' by {
                            assert(tail[k] == s[i + k]);
                        }
                        let cd = lemma_trimmed_run(tail);
                        lemma_run_no_closed_br(tail, cd.0, cd.1);
                        assert(br_lines(s) == seq![trimmed(head), trimmed(tail)]);
                    },
                    Some(c) => {
                        if i <= c < s.len() {
                            law_br_lines_split_all(s.skip(c + 1));
                            let rest = br_lines(s.skip(c + 1));
                            assert(br_lines(s) == seq![trimmed(head)] + rest);
                            assert forall|j: int| 0 <= j < br_lines(s).len() implies no_closed_br(#[trigger] br_lines(s)[j]) by {
                                if j > 0 {
                                    assert(br_lines(s)[j] == rest[j - 1]);
                                }
                            }
                        }
                    },
                }
            }
        },
    }
}

pub open spec fn chars_view(v: Seq<Vec<char>>) -> Seq<Seq<char>> {
    v.map_values(|x: Vec<char>| x@)
}

fn split_br_chars(label: &Vec<char>) -> (r: Vec<Vec<char>>)
    ensures
        chars_view(r@) == br_lines(label@),
{
    let mut out: Vec<Vec<char>> = Vec::new();
    let mut rest = slice(label, 0, label.len());
    assert(rest@ == label@);
    assert(chars_view(out@) == Seq::<Seq<char>>::empty());
    assert(Seq::<Seq<char>>::empty() + br_lines(rest@) == br_lines(rest@));
    loop
        invariant
            chars_view(out@) + br_lines(rest@) == br_lines(label@),
        decreases rest.len(),
    {
        let ghost r0 = rest@;
        let mut i: usize = 0;
        while i < rest.len() && !is_br_exec(&rest, i)
            invariant
                i <= rest.len(),
                find_br(rest@, 0) == find_br(rest@, i as int),
            decreases rest.len() - i,
        {
            i += 1;
        }
        if i == rest.len() {
            let t = trim(&rest);
            let ghost ov = chars_view(out@);
            out.push(t);
            assert(chars_view(out@) == ov.push(t@));
            assert(br_lines(rest@) == seq![t@]);
            assert(ov + seq![t@] == ov.push(t@));
            return out;
        }
        proof {
            lemma_find_char(rest@, '>', i as int);
        }
        let head = slice(&rest, 0, i);
        let t = trim(&head);
        let ghost ov = chars_view(out@);
        out.push(t);
        assert(chars_view(out@) == ov.push(t@));
        match find_char_exec(&rest, '>', i) {
            None => {
                let after = slice(&rest, i, rest.len());
                let t2 = trim(&after);
                out.push(t2);
                assert(chars_view(out@) == ov.push(t@).push(t2@));
                assert(ov + seq![t@, t2@] == ov.push(t@).push(t2@));
                return out;
            },
            Some(close) => {
                let next = slice(&rest, close + 1, rest.len());
                assert(next@ == r0.skip(close + 1));
                assert(br_lines(r0) == seq![t@] + br_lines(next@));
                assert(ov + (seq![t@] + br_lines(next@)) == ov.push(t@) + br_lines(next@));
                rest = next;
            },
        }
    }
}

fn is_br_exec(s: &Vec<char>, i: usize) -> (r: bool)
    requires
        i < s.len(),
    ensures
        r == br_at(s@, i as int),
{
    3 <= s.len() - i && s[i] == '<' && (s[i + 1] == 'b' || s[i + 1] == 'B') && (s[i + 2] == 'r'
        || s[i + 2] == 'R')
}

/// Split a label string on `<br>` / `<br/>` / `<br />` into rendered lines.
pub fn split_br(label: &str) -> (r: Vec<String>)
    ensures
        crate::graph::lines_view(r@) == br_lines(label@),
{
    let v = chars_of(label);
    let parts = split_br_chars(&v);
    to_strings(&parts)
}

/// The strings holding each character sequence.
pub fn to_strings(v: &Vec<Vec<char>>) -> (r: Vec<String>)
    ensures
        crate::graph::lines_view(r@) == chars_view(v@),
{
    let mut r: Vec<String> = Vec::new();
    let mut i: usize = 0;
    while i < v.len()
        invariant
            i <= v.len(),
            crate::graph::lines_view(r@) == chars_view(v@).take(i as int),
        decreases v.len() - i,
    {
        let s = string_of(&v[i]);
        let ghost rv = crate::graph::lines_view(r@);
        r.push(s);
        assert(crate::graph::lines_view(r@) == rv.push(s@));
        assert(chars_view(v@).take(i + 1) == chars_view(v@).take(i as int).push(v@[i as int]@));
        i += 1;
    }
    assert(chars_view(v@).take(v.len() as int) == chars_view(v@));
    r
}

// ---------------------------------------------------------------------------
// Splitting on a separator character (std's `str::split` with a char).
/// Pieces of `s[i..]` given the piece in progress and those finished.
pub open spec fn split_from(s: Seq<char>, c: char, i: int, cur: Seq<char>, acc: Seq<Seq<char>>) -> Seq<
    Seq<char>,
>
    decreases s.len() - i,
{
    if i < 0 || i >= s.len() {
        acc.push(cur)
    } else if s[i] == c {
        split_from(s, c, i + 1, Seq::empty(), acc.push(cur))
    } else {
        split_from(s, c, i + 1, cur.push(s[i]), acc)
    }
}

/// The pieces of `s` between occurrences of `c` (one piece when `c` does
/// not occur, empty pieces kept).
pub open spec fn split_char(s: Seq<char>, c: char) -> Seq<Seq<char>> {
    split_from(s, c, 0, Seq::empty(), Seq::empty())
}

pub fn split_char_exec(s: &Vec<char>, c: char) -> (r: Vec<Vec<char>>)
    ensures
        chars_view(r@) == split_char(s@, c),
{
    let mut acc: Vec<Vec<char>> = Vec::new();
    let mut cur: Vec<char> = Vec::new();
    let mut i: usize = 0;
    assert(chars_view(acc@) == Seq::<Seq<char>>::empty());
    assert(cur@ == Seq::<char>::empty());
    while i < s.len()
        invariant
            i <= s.len(),
            split_char(s@, c) == split_from(s@, c, i as int, cur@, chars_view(acc@)),
        decreases s.len() - i,
    {
        if s[i] == c {
            let ghost av = chars_view(acc@);
            let ghost cv = cur@;
            acc.push(cur);
            assert(chars_view(acc@) == av.push(cv));
            cur = Vec::new();
        } else {
            cur.push(s[i]);
        }
        i += 1;
    }
    let ghost av = chars_view(acc@);
    let ghost cv = cur@;
    acc.push(cur);
    assert(chars_view(acc@) == av.push(cv));
    acc
}

// ---------------------------------------------------------------------------
// CSS-like properties: `fill:#fdd,stroke:#c00,color:#fff`.
pub open spec fn key_stroke() -> Seq<char> {
    seq!['s', 't', 'r', 'o', 'k', 'e']
}

pub open spec fn key_color() -> Seq<char> {
    seq!['c', 'o', 'l', 'o', 'r']
}

pub open spec fn key_fill() -> Seq<char> {
    seq!['f', 'i', 'l', 'l']
}

/// The trimmed value after the first `:` of a property, if any.
pub open spec fn prop_value(part: Seq<char>) -> Option<Seq<char>> {
    match find_char(part, ':', 0) {
        None => None,
        Some(k) => Some(trimmed(part.skip(k + 1))),
    }
}

/// One property applied to (stroke-or-color, fill).
pub open spec fn css_step(st: (Option<Color>, Option<Color>), part: Seq<char>) -> (
    Option<Color>,
    Option<Color>,
) {
    match find_char(part, ':', 0) {
        None => st,
        Some(k) => {
            let key = trimmed(part.take(k));
            match hex_color(trimmed(part.skip(k + 1))) {
                None => st,
                Some(col) => if key == key_stroke() || key == key_color() {
                    (Some(col), st.1)
                } else if key == key_fill() {
                    (st.0, Some(col))
                } else {
                    st
                },
            }
        },
    }
}

pub open spec fn css_fold(parts: Seq<Seq<char>>, n: int) -> (Option<Color>, Option<Color>)
    decreases n,
{
    if n <= 0 {
        (None, None)
    } else {
        css_step(css_fold(parts, n - 1), parts[n - 1])
    }
}

/// The style given by a property list: `stroke`/`color` set the
/// foreground, `fill` is the fallback; malformed parts are skipped.
pub open spec fn css_style(s: Seq<char>) -> Style {
    let parts = split_char(s, ',');
    let st = css_fold(parts, parts.len() as int);
    Style { fg: if st.0 is Some { st.0 } else { st.1 }, ..empty_style() }
}

/// The color a property sets as a stroke or text color: a `stroke` or
/// `color` key before the first `:` and a well-formed hex color after it.
pub open spec fn stroke_color_of(part: Seq<char>) -> Option<Color> {
    match find_char(part, ':', 0) {
        None => None,
        Some(k) => {
            let key = trimmed(part.take(k));
            if key == key_stroke() || key == key_color() {
                hex_color(trimmed(part.skip(k + 1)))
            } else {
                None
            }
        },
    }
}

/// The color a property sets as a fill: a `fill` key and a well-formed hex
/// color.
pub open spec fn fill_color_of(part: Seq<char>) -> Option<Color> {
    match find_char(part, ':', 0) {
        None => None,
        Some(k) => if trimmed(part.take(k)) == key_fill() {
            hex_color(trimmed(part.skip(k + 1)))
        } else {
            None
        },
    }
}

proof fn lemma_css_step(st: (Option<Color>, Option<Color>), part: Seq<char>)
    ensures
        css_step(st, part).0 == (if stroke_color_of(part) is Some { stroke_color_of(part) } else { st.0 }),
        css_step(st, part).1 == (if fill_color_of(part) is Some { fill_color_of(part) } else { st.1 }),
{
    match find_char(part, ':', 0) {
        None => {},
        Some(k) => {
            assert(key_stroke() != key_fill()) by {
                assert(key_stroke().len() != key_fill().len());
            }
            assert(key_color() != key_fill()) by {
                assert(key_color()[0] != key_fill()[0]);
            }
        },
    }
}

#[verifier::spinoff_prover]
#[verifier::rlimit(40)]
proof fn lemma_css_fold_last(parts: Seq<Seq<char>>, n: int)
    requires
        0 <= n <= parts.len(),
    ensures
        (forall|j: int| 0 <= j < n ==> stroke_color_of(#[trigger] parts[j]) is None) ==> css_fold(parts, n).0 is None,
        (forall|j: int| 0 <= j < n ==> fill_color_of(#[trigger] parts[j]) is None) ==> css_fold(parts, n).1 is None,
        forall|j: int|
            0 <= j < n && stroke_color_of(#[trigger] parts[j]) is Some && (forall|k: int| j < k < n ==> stroke_color_of(#[trigger] parts[k]) is None)
                ==> css_fold(parts, n).0 == stroke_color_of(parts[j]),
        forall|j: int|
            0 <= j < n && fill_color_of(#[trigger] parts[j]) is Some && (forall|k: int| j < k < n ==> fill_color_of(#[trigger] parts[k]) is None)
                ==> css_fold(parts, n).1 == fill_color_of(parts[j]),
    decreases n,
{
    if n > 0 {
        lemma_css_fold_last(parts, n - 1);
        let st = css_fold(parts, n - 1);
        let last = parts[n - 1];
        assert(css_fold(parts, n) == css_step(st, last));
        lemma_css_step(st, last);
        assert forall|j: int|
            0 <= j < n && stroke_color_of(#[trigger] parts[j]) is Some && (forall|k: int| j < k < n ==> stroke_color_of(#[trigger] parts[k]) is None)
                implies css_fold(parts, n).0 == stroke_color_of(parts[j]) by {
            if j < n - 1 {
                assert(stroke_color_of(parts[n - 1]) is None);
            }
        }
        assert forall|j: int|
            0 <= j < n && fill_color_of(#[trigger] parts[j]) is Some && (forall|k: int| j < k < n ==> fill_color_of(#[trigger] parts[k]) is None)
                implies css_fold(parts, n).1 == fill_color_of(parts[j]) by {
            if j < n - 1 {
                assert(fill_color_of(parts[n - 1]) is None);
            }
        }
        if forall|j: int| 0 <= j < n ==> stroke_color_of(#[trigger] parts[j]) is None {
            assert(stroke_color_of(parts[n - 1]) is None);
        }
        if forall|j: int| 0 <= j < n ==> fill_color_of(#[trigger] parts[j]) is None {
            assert(fill_color_of(parts[n - 1]) is None);
        }
    }
}

/// A `stroke` or `color` property wins over any `fill`, wherever it stands:
/// the foreground is the color of the last well-formed stroke/color
/// property; only when there is none does the last well-formed fill give
/// it, and with neither there is no foreground.
pub proof fn law_css_stroke_over_fill(s: Seq<char>)
    ensures
        ({
            let parts = split_char(s, ',');
            &&& forall|j: int|
                0 <= j < parts.len() && stroke_color_of(#[trigger] parts[j]) is Some && (forall|k: int|
                    j < k < parts.len() ==> stroke_color_of(#[trigger] parts[k]) is None) ==> css_style(s).fg == stroke_color_of(parts[j])
            &&& forall|j: int|
                0 <= j < parts.len() && fill_color_of(#[trigger] parts[j]) is Some && (forall|k: int|
                    j < k < parts.len() ==> fill_color_of(#[trigger] parts[k]) is None) && (forall|k: int|
                    0 <= k < parts.len() ==> stroke_color_of(#[trigger] parts[k]) is None) ==> css_style(s).fg == fill_color_of(parts[j])
            &&& (forall|k: int| 0 <= k < parts.len() ==> stroke_color_of(#[trigger] parts[k]) is None && fill_color_of(parts[k]) is None)
                ==> css_style(s).fg is None
        }),
{
    let parts = split_char(s, ',');
    lemma_css_fold_last(parts, parts.len() as int);
}

fn eq_chars(a: &Vec<char>, b: &Vec<char>) -> (r: bool)
    ensures
        r == (a@ == b@),
{
    if a.len() != b.len() {
        return false;
    }
    let mut i: usize = 0;
    while i < a.len()
        invariant
            a.len() == b.len(),
            i <= a.len(),
            forall|k: int| 0 <= k < i ==> a@[k] == b@[k],
        decreases a.len() - i,
    {
        if a[i] != b[i] {
            return false;
        }
        i += 1;
    }
    assert(a@ == b@);
    true
}

/// Parse Mermaid CSS-style properties like `fill:#fdd,stroke:#c00,color:#fff`.
/// Only `fill`, `stroke`, `color` are recognised; all three map to `fg`:
/// `stroke`/`color` win, `fill` is a fallback.
fn parse_css_props(s: &Vec<char>) -> (r: Style)
    ensures
        r == css_style(s@),
{
    let parts = split_char_exec(s, ',');
    let mut fg: Option<Color> = None;
    let mut fill: Option<Color> = None;
    let stroke_k = vec!['s', 't', 'r', 'o', 'k', 'e'];
    let color_k = vec!['c', 'o', 'l', 'o', 'r'];
    let fill_k = vec!['f', 'i', 'l', 'l'];
    let mut i: usize = 0;
    while i < parts.len()
        invariant
            i <= parts.len(),
            chars_view(parts@) == split_char(s@, ','),
            stroke_k@ == key_stroke(),
            color_k@ == key_color(),
            fill_k@ == key_fill(),
            (fg, fill) == css_fold(chars_view(parts@), i as int),
        decreases parts.len() - i,
    {
        let part = &parts[i];
        assert(chars_view(parts@)[i as int] == part@);
        proof {
            lemma_find_char(part@, ':', 0);
        }
        match find_char_exec(part, ':', 0) {
            None => {},
            Some(k) => {
                let key0 = slice(part, 0, k);
                let key = trim(&key0);
                let val0 = slice(part, k + 1, part.len());
                let val = trim(&val0);
                assert(prop_value(chars_view(parts@)[i as int]) == Some(val@));
                match parse_hex_chars(&val) {
                    None => {},
                    Some(color) => {
                        if eq_chars(&key, &stroke_k) || eq_chars(&key, &color_k) {
                            fg = Some(color);
                        } else if eq_chars(&key, &fill_k) {
                            fill = Some(color);
                        }
                    },
                }
            },
        }
        i += 1;
    }
    let mut style = Style::new();
    style.fg = if fg.is_some() {
        fg
    } else {
        fill
    };
    style
}

/// `over` laid on `base`: a set foreground replaces, flags accumulate.
pub open spec fn merged(base: Style, over: Style) -> Style {
    Style {
        fg: if over.fg is Some {
            over.fg
        } else {
            base.fg
        },
        bold: base.bold || over.bold,
        italic: base.italic || over.italic,
        dim: base.dim || over.dim,
        ..base
    }
}

fn merge_style(base: Style, over: Style) -> (r: Style)
    ensures
        r == merged(base, over),
{
    let mut base = base;
    if over.fg.is_some() {
        base.fg = over.fg;
    }
    base.bold = base.bold || over.bold;
    base.italic = base.italic || over.italic;
    base.dim = base.dim || over.dim;
    base
}


// ---------------------------------------------------------------------------
// Edge lines: `A --> B & C -- text --> D`.
/// The line cut at each edge operator from `cursor` on: the text between
/// operators (segments) and the operators themselves.
pub open spec fn edge_split(s: Seq<char>, cursor: int) -> (Seq<Seq<char>>, Seq<HitModel>)
    decreases s.len() - cursor,
{
    if cursor < 0 || cursor > s.len() {
        (seq![], seq![])
    } else {
        match edge_op(s, cursor) {
            Some(h) => if cursor <= h.start && h.start < h.end && h.end <= s.len() {
                let rest = edge_split(s, h.end);
                (seq![s.subrange(cursor, h.start)] + rest.0, seq![h] + rest.1)
            } else {
                (seq![], seq![])
            },
            None => (seq![s.skip(cursor)], seq![]),
        }
    }
}

/// Pipe label and endpoint text of segment `idx`: after the first
/// operator a segment may begin with `|label|`.
pub open spec fn seg_parts(idx: int, raw: Seq<char>) -> (Option<Seq<char>>, Seq<char>) {
    let p = trimmed(raw);
    if idx > 0 && p.len() > 0 && p[0] == '|' && find_char(p, '|', 1) is Some {
        let e = find_char(p, '|', 1)->0;
        let lbl = trimmed(p.subrange(1, e));
        (
            if lbl.len() > 0 {
                Some(lbl)
            } else {
                None
            },
            trimmed(p.skip(e + 1)),
        )
    } else {
        (None, p)
    }
}

pub open spec fn empty_endpoint_msg(line: Seq<char>) -> Seq<char> {
    "empty endpoint in edge: "@ + line
}

/// First error among the `&`-separated endpoints from `k` on.
pub open spec fn parts_error(parts: Seq<Seq<char>>, k: int, line: Seq<char>) -> Option<Seq<char>>
    decreases parts.len() - k,
{
    if k < 0 || k >= parts.len() {
        None
    } else if trimmed(parts[k]).len() == 0 {
        Some(empty_endpoint_msg(line))
    } else {
        match ident_label(trimmed(parts[k])) {
            Err(e) => Some(e),
            Ok(_) => parts_error(parts, k + 1, line),
        }
    }
}

pub open spec fn group_error(p: Seq<char>, line: Seq<char>) -> Option<Seq<char>> {
    if p.len() == 0 {
        Some(empty_endpoint_msg(line))
    } else {
        parts_error(split_char(p, '&'), 0, line)
    }
}

/// First error among the segments from `j` on.
pub open spec fn segs_error(segs: Seq<Seq<char>>, j: int, line: Seq<char>) -> Option<Seq<char>>
    decreases segs.len() - j,
{
    if j < 0 || j >= segs.len() {
        None
    } else {
        match group_error(seg_parts(j, segs[j]).1, line) {
            Some(e) => Some(e),
            None => segs_error(segs, j + 1, line),
        }
    }
}

/// The error an edge line is rejected with, if any.
pub open spec fn edge_line_error(line: Seq<char>) -> Option<Seq<char>> {
    let segs = edge_split(line, 0).0;
    if segs.len() < 2 {
        Some("bad edge: "@ + line)
    } else {
        segs_error(segs, 0, line)
    }
}

pub open spec fn hits_view(v: Seq<EdgeHit>) -> Seq<HitModel> {
    v.map_values(|h: EdgeHit| h.model())
}

proof fn lemma_edge_split_len(s: Seq<char>, cursor: int)
    ensures
        edge_split(s, cursor).0.len() == edge_split(s, cursor).1.len() + (if 0 <= cursor <= s.len()
            && (edge_op(s, cursor) matches Some(h) ==> cursor <= h.start && h.start < h.end
            && h.end <= s.len()) {
            1int
        } else {
            0int
        }),
    decreases s.len() - cursor,
{
    if 0 <= cursor <= s.len() {
        if let Some(h) = edge_op(s, cursor) {
            if cursor <= h.start && h.start < h.end && h.end <= s.len() {
                lemma_edge_split_len(s, h.end);
                lemma_edge_op_span(s, h.end);
            }
        }
    }
}

proof fn lemma_split_len(s: Seq<char>, c: char, i: int, cur: Seq<char>, acc: Seq<Seq<char>>)
    ensures
        split_from(s, c, i, cur, acc).len() >= acc.len() + 1,
    decreases s.len() - i,
{
    if 0 <= i < s.len() {
        if s[i] == c {
            lemma_split_len(s, c, i + 1, Seq::empty(), acc.push(cur));
        } else {
            lemma_split_len(s, c, i + 1, cur.push(s[i]), acc);
        }
    }
}

// ---------------------------------------------------------------------------
// What an edge line adds: node names, and edges between names.
/// The names of the nodes, in id order.
pub open spec fn node_names(nodes: Seq<Node>) -> Seq<Seq<char>> {
    nodes.map_values(|n: Node| n.name@)
}

/// `names` with `n` appended unless it is already there.
pub open spec fn add_name(names: Seq<Seq<char>>, n: Seq<char>) -> Seq<Seq<char>> {
    if names.contains(n) {
        names
    } else {
        names.push(n)
    }
}

/// `names` with each of `ns` added in turn.
pub open spec fn add_names(names: Seq<Seq<char>>, ns: Seq<Seq<char>>) -> Seq<Seq<char>>
    decreases ns.len(),
{
    if ns.len() == 0 {
        names
    } else {
        add_name(add_names(names, ns.drop_last()), ns.last())
    }
}

/// The identifier of a node reference.
pub open spec fn ident_name(s: Seq<char>) -> Seq<char> {
    match ident_label(s) {
        Ok(t) => t.0,
        Err(_) => Seq::empty(),
    }
}

/// The identifiers of the `&`-separated endpoints of segment `j`.
pub open spec fn seg_names(segs: Seq<Seq<char>>, j: int) -> Seq<Seq<char>> {
    split_char(seg_parts(j, segs[j]).1, '&').map_values(|p: Seq<char>| ident_name(trimmed(p)))
}

/// The endpoint identifiers of the first `j` segments, in order.
pub open spec fn segs_names(segs: Seq<Seq<char>>, j: int) -> Seq<Seq<char>>
    decreases j,
{
    if j <= 0 {
        Seq::empty()
    } else {
        segs_names(segs, j - 1) + seg_names(segs, j - 1)
    }
}

/// An edge with its ends given by node name.
pub struct EdgeModel {
    pub from: Seq<char>,
    pub to: Seq<char>,
    pub label: Option<Seq<char>>,
    pub style: EdgeStyle,
    pub tip_fwd: ArrowTip,
    pub tip_back: bool,
    pub length: int,
}

/// The edge from `from` to `to` that operator `h` draws, labelled `label`.
pub open spec fn hop_edge(from: Seq<char>, to: Seq<char>, label: Option<Seq<char>>, h: HitModel) -> EdgeModel {
    EdgeModel { from, to, label, style: h.style, tip_fwd: h.tip_fwd, tip_back: h.tip_back, length: h.length }
}

/// Edges from each of `left` to each of `right`: the first of `left` to
/// all of `right` in order, then the next, and so on.
pub open spec fn cross(left: Seq<Seq<char>>, right: Seq<Seq<char>>, label: Option<Seq<char>>, h: HitModel) -> Seq<EdgeModel>
    decreases left.len(),
{
    if left.len() == 0 {
        Seq::empty()
    } else {
        cross(left.drop_last(), right, label, h) + right.map_values(|t: Seq<char>| hop_edge(left.last(), t, label, h))
    }
}

/// The label of the hop into segment `i`: its `|pipe|` label, else the
/// operator's own text.
pub open spec fn hop_label(segs: Seq<Seq<char>>, hits: Seq<HitModel>, i: int) -> Option<Seq<char>> {
    match seg_parts(i, segs[i]).0 {
        Some(l) => Some(l),
        None => hits[i - 1].label,
    }
}

/// Edges of the hops into segments `1 .. i - 1`.
pub open spec fn hops_edges(segs: Seq<Seq<char>>, hits: Seq<HitModel>, i: int) -> Seq<EdgeModel>
    decreases i,
{
    if i <= 1 {
        Seq::empty()
    } else {
        hops_edges(segs, hits, i - 1) + cross(
            seg_names(segs, i - 2),
            seg_names(segs, i - 1),
            hop_label(segs, hits, i - 1),
            hits[i - 2],
        )
    }
}

/// Graph edge `e` is the edge `m`, ends taken by name.
pub open spec fn edge_is(nodes: Seq<Node>, e: Edge, m: EdgeModel) -> bool {
    &&& e.from < nodes.len()
    &&& e.to < nodes.len()
    &&& nodes[e.from as int].name@ == m.from
    &&& nodes[e.to as int].name@ == m.to
    &&& opt_view(e.label) == m.label
    &&& e.style == m.style
    &&& e.tip_fwd == m.tip_fwd
    &&& e.tip_back == m.tip_back
    &&& e.length == m.length
}

/// The edges from index `k0` on are the edges `ms`, in order.
pub open spec fn edges_are(nodes: Seq<Node>, edges: Seq<Edge>, k0: int, ms: Seq<EdgeModel>) -> bool {
    &&& edges.len() == k0 + ms.len()
    &&& forall|k: int| 0 <= k < ms.len() ==> #[trigger] edge_is(nodes, edges[k0 + k], ms[k])
}

/// Names among the first `n` nodes are kept in `b`.
pub open spec fn names_kept(a: Seq<Node>, b: Seq<Node>) -> bool {
    &&& a.len() <= b.len()
    &&& forall|i: int| 0 <= i < a.len() ==> (#[trigger] b[i]).name@ == a[i].name@
}

/// A node's name, label lines and shape.
pub struct NodeModel {
    pub name: Seq<char>,
    pub lines: Seq<Seq<char>>,
    pub shape: Shape,
}

pub open spec fn node_model(n: Node) -> NodeModel {
    NodeModel { name: n.name@, lines: lines_view(n.label_lines@), shape: n.shape }
}

/// No node has a style yet.
pub open spec fn unstyled(nodes: Seq<Node>) -> bool {
    forall|i: int| 0 <= i < nodes.len() ==> (#[trigger] nodes[i]).style == empty_style()
}

/// No node has a size or a position yet.
pub open spec fn unplaced(nodes: Seq<Node>) -> bool {
    forall|i: int|
        0 <= i < nodes.len() ==> (#[trigger] nodes[i]).x == 0 && nodes[i].y == 0 && nodes[i].width == 0
            && nodes[i].height == 0
}

/// The name, label lines and shape of each node, in id order.
pub open spec fn node_models(nodes: Seq<Node>) -> Seq<NodeModel> {
    nodes.map_values(|n: Node| node_model(n))
}

/// First index at or after `i` of the node named `name`.
pub open spec fn find_model(ms: Seq<NodeModel>, name: Seq<char>, i: int) -> Option<int>
    decreases ms.len() - i,
{
    if i < 0 || i >= ms.len() {
        None
    } else if ms[i].name == name {
        Some(i)
    } else {
        find_model(ms, name, i + 1)
    }
}

/// `ms` after a reference to node `m.name` with label lines `m.lines` and
/// shape `m.shape`: a new node is appended (labelled with its name when the
/// label is blank); a known node whose label is still just its name takes
/// the new label and shape when the new label has text.
pub open spec fn add_model(ms: Seq<NodeModel>, m: NodeModel) -> Seq<NodeModel> {
    match find_model(ms, m.name, 0) {
        Some(i) => {
            let n = ms[i];
            if !all_empty(m.lines) && n.lines.len() == 1 && n.lines[0] == n.name {
                ms.update(i, NodeModel { lines: m.lines, shape: m.shape, ..n })
            } else {
                ms
            }
        },
        None => ms.push(
            NodeModel {
                name: m.name,
                lines: if all_empty(m.lines) {
                    seq![m.name]
                } else {
                    m.lines
                },
                shape: m.shape,
            },
        ),
    }
}

/// `ms` after each of the references `ps` in turn.
pub open spec fn add_models(ms: Seq<NodeModel>, ps: Seq<NodeModel>) -> Seq<NodeModel>
    decreases ps.len(),
{
    if ps.len() == 0 {
        ms
    } else {
        add_model(add_models(ms, ps.drop_last()), ps.last())
    }
}

/// The node a reference text denotes: its identifier, its label split at
/// `<br>`, its shape.
pub open spec fn ref_model(s: Seq<char>) -> NodeModel {
    match ident_label(s) {
        Ok(t) => NodeModel { name: t.0, lines: br_lines(t.1), shape: t.2 },
        Err(_) => NodeModel { name: Seq::empty(), lines: Seq::empty(), shape: Shape::Round },
    }
}

/// The references of segment `j`, in order.
pub open spec fn seg_models(segs: Seq<Seq<char>>, j: int) -> Seq<NodeModel> {
    split_char(seg_parts(j, segs[j]).1, '&').map_values(|p: Seq<char>| ref_model(trimmed(p)))
}

/// The references of the first `j` segments, in order.
pub open spec fn segs_models(segs: Seq<Seq<char>>, j: int) -> Seq<NodeModel>
    decreases j,
{
    if j <= 0 {
        Seq::empty()
    } else {
        segs_models(segs, j - 1) + seg_models(segs, j - 1)
    }
}

/// The subgraph of each node, in id order.
pub open spec fn node_subgraphs(nodes: Seq<Node>) -> Seq<Option<usize>> {
    nodes.map_values(|n: Node| n.subgraph)
}

/// Subgraphs of the nodes after reference `m` (to the nodes `ms` before it)
/// inside subgraph `top`: a new node starts in none; then with `force` the
/// node moves into `top`, else it joins `top` only if it is in none.
pub open spec fn ref_subs(ms: Seq<NodeModel>, subs: Seq<Option<usize>>, m: NodeModel, top: Option<usize>, force: bool) -> Seq<Option<usize>> {
    let subs2 = if find_model(ms, m.name, 0) is None {
        subs.push(None)
    } else {
        subs
    };
    let i = match find_model(ms, m.name, 0) {
        Some(i) => i,
        None => ms.len() as int,
    };
    match top {
        Some(t) => if force || subs2[i] is None {
            subs2.update(i, Some(t))
        } else {
            subs2
        },
        None => subs2,
    }
}

/// Subgraphs after the references `ps` of an edge line inside `top`.
pub open spec fn refs_subs(ms: Seq<NodeModel>, subs: Seq<Option<usize>>, ps: Seq<NodeModel>, top: Option<usize>) -> Seq<Option<usize>>
    decreases ps.len(),
{
    if ps.len() == 0 {
        subs
    } else {
        ref_subs(add_models(ms, ps.drop_last()), refs_subs(ms, subs, ps.drop_last(), top), ps.last(), top, false)
    }
}

proof fn lemma_find_model(nodes: Seq<Node>, n: Seq<char>, i: int)
    requires
        0 <= i,
        forall|k: int| 0 <= k < nodes.len() ==> !(#[trigger] nodes[k]).is_dummy,
    ensures
        find_model(node_models(nodes), n, i) == find_named(nodes, n, i),
    decreases nodes.len() - i,
{
    if i < nodes.len() {
        lemma_find_model(nodes, n, i + 1);
    }
}

proof fn lemma_add_models_push(ms: Seq<NodeModel>, ps: Seq<NodeModel>, m: NodeModel)
    ensures
        add_models(ms, ps.push(m)) == add_model(add_models(ms, ps), m),
{
    assert(ps.push(m).drop_last() =~= ps);
}

proof fn lemma_add_models_concat(ms: Seq<NodeModel>, a: Seq<NodeModel>, b: Seq<NodeModel>)
    ensures
        add_models(ms, a + b) == add_models(add_models(ms, a), b),
    decreases b.len(),
{
    if b.len() == 0 {
        assert(a + b =~= a);
    } else {
        lemma_add_models_concat(ms, a, b.drop_last());
        assert((a + b).drop_last() =~= a + b.drop_last());
    }
}

proof fn lemma_names_find(nodes: Seq<Node>, n: Seq<char>)
    requires
        forall|i: int| 0 <= i < nodes.len() ==> !(#[trigger] nodes[i]).is_dummy,
    ensures
        (find_named(nodes, n, 0) is Some) == node_names(nodes).contains(n),
        find_named(nodes, n, 0) matches Some(i) ==> node_names(nodes)[i] == n,
{
    crate::graph::lemma_find_named_some(nodes, n, 0);
    if let Some(k) = find_named(nodes, n, 0) {
        assert(node_names(nodes)[k] == n);
    }
    if node_names(nodes).contains(n) {
        let i = choose|i: int| 0 <= i < node_names(nodes).len() && node_names(nodes)[i] == n;
        if find_named(nodes, n, 0) is None {
            crate::graph::lemma_find_named_none(nodes, n, 0, i);
        }
    }
}

proof fn lemma_add_names_prefix(names: Seq<Seq<char>>, ns: Seq<Seq<char>>)
    ensures
        add_names(names, ns).len() >= names.len(),
        add_names(names, ns).take(names.len() as int) == names,
    decreases ns.len(),
{
    if ns.len() > 0 {
        lemma_add_names_prefix(names, ns.drop_last());
        let prev = add_names(names, ns.drop_last());
        assert(add_name(prev, ns.last()).take(prev.len() as int) == prev);
        assert(add_names(names, ns).take(names.len() as int) =~= prev.take(names.len() as int));
    }
}

proof fn lemma_add_names_push(names: Seq<Seq<char>>, ns: Seq<Seq<char>>, n: Seq<char>)
    ensures
        add_names(names, ns.push(n)) == add_name(add_names(names, ns), n),
{
    assert(ns.push(n).drop_last() =~= ns);
}

proof fn lemma_add_names_concat(names: Seq<Seq<char>>, a: Seq<Seq<char>>, b: Seq<Seq<char>>)
    ensures
        add_names(names, a + b) == add_names(add_names(names, a), b),
    decreases b.len(),
{
    if b.len() == 0 {
        assert(a + b =~= a);
    } else {
        lemma_add_names_concat(names, a, b.drop_last());
        assert((a + b).drop_last() =~= a + b.drop_last());
    }
}

proof fn lemma_edges_are_names(n1: Seq<Node>, n2: Seq<Node>, es: Seq<Edge>, k0: int, ms: Seq<EdgeModel>)
    requires
        edges_are(n1, es, k0, ms),
        names_kept(n1, n2),
    ensures
        edges_are(n2, es, k0, ms),
{
    assert forall|k: int| 0 <= k < ms.len() implies #[trigger] edge_is(n2, es[k0 + k], ms[k]) by {
        assert(edge_is(n1, es[k0 + k], ms[k]));
        assert(n2[es[k0 + k].from as int].name@ == n1[es[k0 + k].from as int].name@);
        assert(n2[es[k0 + k].to as int].name@ == n1[es[k0 + k].to as int].name@);
    }
}

fn empty_endpoint_error(line: &Vec<char>) -> (e: String)
    ensures
        e@ == empty_endpoint_msg(line@),
{
    let mut m = String::from_str("empty endpoint in edge: ");
    push_chars(&mut m, line);
    m
}

fn opt_string(l: &Option<Vec<char>>) -> (r: Option<String>)
    ensures
        opt_view(r) == opt_chars(*l),
{
    match l {
        Some(v) => Some(string_of(v)),
        None => None,
    }
}

/// Every node is a real node (no dummies).
pub open spec fn all_real(g: Graph) -> bool {
    forall|i: int| 0 <= i < g.nodes.len() ==> !(#[trigger] g.nodes@[i]).is_dummy
}

/// Adds the node described by a node reference and returns its id.
fn add_ident(g: &mut Graph, name: &Vec<char>, label: &Vec<char>, shape: Shape) -> (id: NodeId)
    requires
        old(g).wf(),
        all_real(*old(g)),
    ensures
        final(g).wf(),
        all_real(*final(g)),
        id < final(g).nodes.len(),
        final(g).nodes.len() >= old(g).nodes.len(),
        final(g).nodes.len() > 0,
        final(g).dir == old(g).dir,
        final(g).subgraphs@ == old(g).subgraphs@,
        final(g).class_defs@ == old(g).class_defs@,
        final(g).edges@ == old(g).edges@,
        forall|i: int|
            0 <= i < old(g).nodes.len() ==> (#[trigger] final(g).nodes@[i]).subgraph == old(
                g,
            ).nodes@[i].subgraph,
        final(g).nodes.len() > old(g).nodes.len() ==> final(g).nodes@[id as int].subgraph is None,
        node_names(final(g).nodes@) == add_name(node_names(old(g).nodes@), name@),
        final(g).nodes@[id as int].name@ == name@,
        names_kept(old(g).nodes@, final(g).nodes@),
        node_models(final(g).nodes@) == add_model(
            node_models(old(g).nodes@),
            NodeModel { name: name@, lines: br_lines(label@), shape },
        ),
        id as int == (match find_named(old(g).nodes@, name@, 0) {
            Some(i) => i,
            None => old(g).nodes.len() as int,
        }),
        node_subgraphs(final(g).nodes@) == (if find_named(old(g).nodes@, name@, 0) is None {
            node_subgraphs(old(g).nodes@).push(None)
        } else {
            node_subgraphs(old(g).nodes@)
        }),
        unstyled(old(g).nodes@) ==> unstyled(final(g).nodes@),
        unplaced(old(g).nodes@) ==> unplaced(final(g).nodes@),
{
    let name_s = string_of(name);
    let parts = split_br_chars(label);
    let lines = to_strings(&parts);
    let id = g.add_node(name_s.as_str(), lines, shape);
    proof {
        crate::graph::lemma_find_named_some(g.nodes@, name_s@, 0);
        lemma_names_find(old(g).nodes@, name_s@);
        lemma_find_model(old(g).nodes@, name_s@, 0);
        assert(lines_view(lines@) == br_lines(label@));
        match find_named(old(g).nodes@, name_s@, 0) {
            Some(oid) => {
                assert forall|i: int| 0 <= i < g.nodes.len() implies !(#[trigger] g.nodes@[i]).is_dummy by {
                    if i != oid {
                        assert(g.nodes@[i] == old(g).nodes@[i]);
                    }
                }
                assert forall|i: int| 0 <= i < old(g).nodes.len() implies (#[trigger] g.nodes@[i]).name@ == old(g).nodes@[i].name@ by {
                    if i != oid {
                        assert(g.nodes@[i] == old(g).nodes@[i]);
                    }
                }
                assert(node_names(g.nodes@) =~= node_names(old(g).nodes@));
                assert(node_models(g.nodes@) =~= add_model(
                    node_models(old(g).nodes@),
                    NodeModel { name: name@, lines: br_lines(label@), shape },
                ));
                assert(node_subgraphs(g.nodes@) =~= node_subgraphs(old(g).nodes@));
                if unplaced(old(g).nodes@) {
                    assert forall|i: int| 0 <= i < g.nodes.len() implies (#[trigger] g.nodes@[i]).x == 0 && g.nodes@[i].y == 0
                        && g.nodes@[i].width == 0 && g.nodes@[i].height == 0 by {
                        assert(g.nodes@[i].x == old(g).nodes@[i].x && g.nodes@[i].y == old(g).nodes@[i].y);
                        assert(g.nodes@[i].width == old(g).nodes@[i].width && g.nodes@[i].height == old(g).nodes@[i].height);
                    }
                }
                if unstyled(old(g).nodes@) {
                    assert forall|i: int| 0 <= i < g.nodes.len() implies (#[trigger] g.nodes@[i]).style == empty_style() by {
                        if i != oid {
                            assert(g.nodes@[i] == old(g).nodes@[i]);
                        } else {
                            assert(g.nodes@[i].style == old(g).nodes@[i].style);
                        }
                    }
                }
                if unplaced(old(g).nodes@) {
                    assert forall|i: int| 0 <= i < g.nodes.len() implies (#[trigger] g.nodes@[i]).x == 0 && g.nodes@[i].y == 0
                        && g.nodes@[i].width == 0 && g.nodes@[i].height == 0 by {
                        if i != oid {
                            assert(g.nodes@[i] == old(g).nodes@[i]);
                        } else {
                            assert(g.nodes@[i].x == old(g).nodes@[i].x && g.nodes@[i].y == old(g).nodes@[i].y);
                            assert(g.nodes@[i].width == old(g).nodes@[i].width && g.nodes@[i].height == old(g).nodes@[i].height);
                        }
                    }
                }
            },
            None => {
                assert forall|i: int| 0 <= i < g.nodes.len() implies !(#[trigger] g.nodes@[i]).is_dummy by {
                    if i < old(g).nodes.len() {
                        assert(g.nodes@[i] == g.nodes@.drop_last()[i]);
                        assert(g.nodes@[i] == old(g).nodes@[i]);
                    }
                }
                assert forall|i: int| 0 <= i < old(g).nodes.len() implies (#[trigger] g.nodes@[i]).name@ == old(g).nodes@[i].name@ by {
                    assert(g.nodes@[i] == g.nodes@.drop_last()[i]);
                }
                assert(node_names(g.nodes@) =~= node_names(old(g).nodes@).push(name_s@));
                assert(node_models(g.nodes@) =~= add_model(
                    node_models(old(g).nodes@),
                    NodeModel { name: name@, lines: br_lines(label@), shape },
                ));
                assert(node_subgraphs(g.nodes@) =~= node_subgraphs(old(g).nodes@).push(None));
                if unstyled(old(g).nodes@) {
                    assert forall|i: int| 0 <= i < g.nodes.len() implies (#[trigger] g.nodes@[i]).style == empty_style() by {
                        if i < old(g).nodes.len() {
                            assert(g.nodes@[i] == g.nodes@.drop_last()[i]);
                        }
                    }
                }
                if unplaced(old(g).nodes@) {
                    assert forall|i: int| 0 <= i < g.nodes.len() implies (#[trigger] g.nodes@[i]).x == 0 && g.nodes@[i].y == 0
                        && g.nodes@[i].width == 0 && g.nodes@[i].height == 0 by {
                        if i < old(g).nodes.len() {
                            assert(g.nodes@[i] == g.nodes@.drop_last()[i]);
                        }
                    }
                }
            },
        }
    }
    id
}

/// `group` holds, in order, nodes named `names`.
pub open spec fn group_named(nodes: Seq<Node>, group: Seq<usize>, names: Seq<Seq<char>>) -> bool {
    &&& group.len() == names.len()
    &&& forall|b: int|
        0 <= b < group.len() ==> #[trigger] group[b] < nodes.len() && nodes[group[b] as int].name@ == names[b]
}

proof fn lemma_group_named_kept(n1: Seq<Node>, n2: Seq<Node>, group: Seq<usize>, names: Seq<Seq<char>>)
    requires
        group_named(n1, group, names),
        names_kept(n1, n2),
    ensures
        group_named(n2, group, names),
{
    assert forall|b: int| 0 <= b < group.len() implies #[trigger] group[b] < n2.len() && n2[group[b] as int].name@ == names[b] by {
        assert(n2[group[b] as int].name@ == n1[group[b] as int].name@);
    }
}

proof fn lemma_edges_are_push(nodes: Seq<Node>, es: Seq<Edge>, e: Edge, k0: int, ms: Seq<EdgeModel>, m: EdgeModel)
    requires
        0 <= k0,
        edges_are(nodes, es, k0, ms),
        edge_is(nodes, e, m),
    ensures
        edges_are(nodes, es.push(e), k0, ms.push(m)),
{
    assert forall|k: int| 0 <= k < ms.push(m).len() implies #[trigger] edge_is(nodes, es.push(e)[k0 + k], ms.push(m)[k]) by {
        if k < ms.len() {
            assert(edge_is(nodes, es[k0 + k], ms[k]));
            assert(es.push(e)[k0 + k] == es[k0 + k]);
        }
    }
}

/// Parses one edge line, adding its nodes and edges to `g`: each segment's
/// endpoints are added as nodes in order, and each operator joins every
/// node of the group before it to every node of the group after it.
#[verifier::rlimit(40)]
fn parse_edge_line(g: &mut Graph, line: &Vec<char>, sg: Option<SubgraphId>) -> (r: Result<
    (),
    String,
>)
    requires
        old(g).wf(),
        all_real(*old(g)),
        sg matches Some(s) ==> s < old(g).subgraphs.len(),
    ensures
        match edge_line_error(line@) {
            Some(m) => r matches Err(e) && e@ == m,
            None => r is Ok,
        },
        r is Err ==> final(g).edges@ == old(g).edges@,
        r is Err && edge_split(line@, 0).1.len() == 0 ==> *final(g) == *old(g),
        r is Ok ==> {
            let sp = edge_split(line@, 0);
            &&& final(g).wf()
            &&& all_real(*final(g))
            &&& final(g).nodes.len() > 0
            &&& final(g).nodes.len() >= old(g).nodes.len()
            &&& final(g).dir == old(g).dir
            &&& final(g).subgraphs@ == old(g).subgraphs@
            &&& final(g).class_defs@ == old(g).class_defs@
            &&& node_names(final(g).nodes@) == add_names(node_names(old(g).nodes@), segs_names(sp.0, sp.0.len() as int))
            &&& node_models(final(g).nodes@) == add_models(node_models(old(g).nodes@), segs_models(sp.0, sp.0.len() as int))
            &&& node_subgraphs(final(g).nodes@) == refs_subs(
                node_models(old(g).nodes@),
                node_subgraphs(old(g).nodes@),
                segs_models(sp.0, sp.0.len() as int),
                sg,
            )
            &&& (unstyled(old(g).nodes@) ==> unstyled(final(g).nodes@))
            &&& (unplaced(old(g).nodes@) ==> unplaced(final(g).nodes@))
            &&& names_kept(old(g).nodes@, final(g).nodes@)
            &&& final(g).edges@.take(old(g).edges.len() as int) == old(g).edges@
            &&& edges_are(final(g).nodes@, final(g).edges@, old(g).edges.len() as int, hops_edges(sp.0, sp.1, sp.0.len() as int))
        },
{
    // Split into segments by edge operator.
    let mut segments: Vec<Vec<char>> = Vec::new();
    let mut hits: Vec<EdgeHit> = Vec::new();
    let mut cursor: usize = 0;
    assert(chars_view(segments@) + edge_split(line@, 0).0 == edge_split(line@, 0).0);
    assert(hits_view(hits@) + edge_split(line@, 0).1 == edge_split(line@, 0).1);
    loop
        invariant_except_break
            cursor <= line.len(),
            chars_view(segments@) + edge_split(line@, cursor as int).0 == edge_split(line@, 0).0,
            hits_view(hits@) + edge_split(line@, cursor as int).1 == edge_split(line@, 0).1,
            segments.len() == hits.len(),
        invariant
            forall|k: int| 0 <= k < hits.len() ==> (#[trigger] hits@[k]).length >= 1,
        ensures
            chars_view(segments@) == edge_split(line@, 0).0,
            hits_view(hits@) == edge_split(line@, 0).1,
            segments.len() == hits.len() + 1,
        decreases line.len() - cursor,
    {
        match find_edge_op(line, cursor) {
            Some(hit) => {
                let seg = slice(line, cursor, hit.start);
                let ghost sv = chars_view(segments@);
                let ghost hv = hits_view(hits@);
                let ghost hm = hit.model();
                let ghost rest = edge_split(line@, hit.end as int);
                segments.push(seg);
                cursor = hit.end;
                hits.push(hit);
                proof {
                    assert(chars_view(segments@) == sv.push(seg@));
                    assert(hits_view(hits@) == hv.push(hm));
                    assert(sv + (seq![seg@] + rest.0) == sv.push(seg@) + rest.0);
                    assert(hv + (seq![hm] + rest.1) == hv.push(hm) + rest.1);
                }
            },
            None => {
                let seg = slice(line, cursor, line.len());
                let ghost sv = chars_view(segments@);
                segments.push(seg);
                proof {
                    assert(chars_view(segments@) == sv.push(seg@));
                    assert(sv + seq![seg@] == sv.push(seg@));
                    assert(edge_split(line@, cursor as int).1 == Seq::<HitModel>::empty());
                    assert(hits_view(hits@) + Seq::<HitModel>::empty() == hits_view(hits@));
                }
                break ;
            },
        }
    }
    if segments.len() < 2 {
        let mut m = String::from_str("bad edge: ");
        push_chars(&mut m, line);
        return Err(m);
    }
    // Each segment is an `&`-separated group of nodes. Parse each group into
    // a Vec<NodeId>, then emit edges as the cross product between each
    // consecutive pair of groups.
    let ghost sv = chars_view(segments@);
    let ghost hv = hits_view(hits@);
    let ghost n0 = node_names(old(g).nodes@);
    let ghost m0 = node_models(old(g).nodes@);
    let ghost s0 = node_subgraphs(old(g).nodes@);
    let mut groups: Vec<Vec<NodeId>> = Vec::new();
    let mut pipe_labels: Vec<Option<Vec<char>>> = Vec::new();
    let mut idx: usize = 0;
    while idx < segments.len()
        invariant
            idx <= segments.len(),
            segments.len() >= 2,
            groups.len() == idx,
            pipe_labels.len() == idx,
            segments.len() == hits.len() + 1,
            sv == chars_view(segments@),
            chars_view(segments@) == edge_split(line@, 0).0,
            segs_error(chars_view(segments@), 0, line@) == segs_error(
                chars_view(segments@),
                idx as int,
                line@,
            ),
            g.wf(),
            all_real(*g),
            idx > 0 ==> g.nodes.len() > 0,
            g.nodes.len() >= old(g).nodes.len(),
            g.dir == old(g).dir,
            g.subgraphs@ == old(g).subgraphs@,
            g.class_defs@ == old(g).class_defs@,
            g.edges@ == old(g).edges@,
            sg matches Some(s) ==> s < g.subgraphs.len(),
            n0 == node_names(old(g).nodes@),
            node_names(g.nodes@) == add_names(n0, segs_names(sv, idx as int)),
            m0 == node_models(old(g).nodes@),
            node_models(g.nodes@) == add_models(m0, segs_models(sv, idx as int)),
            s0 == node_subgraphs(old(g).nodes@),
            node_subgraphs(g.nodes@) == refs_subs(m0, s0, segs_models(sv, idx as int), sg),
            unstyled(old(g).nodes@) ==> unstyled(g.nodes@),
            unplaced(old(g).nodes@) ==> unplaced(g.nodes@),
            names_kept(old(g).nodes@, g.nodes@),
            forall|a: int| 0 <= a < groups.len() ==> group_named(g.nodes@, (#[trigger] groups@[a])@, seg_names(sv, a)),
            forall|a: int| 0 <= a < pipe_labels.len() ==> opt_chars(#[trigger] pipe_labels@[a]) == seg_parts(a, sv[a]).0,
        decreases segments.len() - idx,
    {
        let raw = &segments[idx];
        assert(sv[idx as int] == raw@);
        let mut p = trim(raw);
        let mut pipe_label: Option<Vec<char>> = None;
        if idx > 0 && p.len() > 0 && p[0] == '|' {
            proof {
                lemma_find_char(p@, '|', 1);
            }
            match find_char_exec(&p, '|', 1) {
                Some(end) => {
                    let l0 = slice(&p, 1, end);
                    let lbl = trim(&l0);
                    if lbl.len() > 0 {
                        pipe_label = Some(lbl);
                    }
                    let after = slice(&p, end + 1, p.len());
                    p = trim(&after);
                },
                None => {},
            }
        }
        assert(seg_parts(idx as int, sv[idx as int]) == (opt_chars(pipe_label), p@));
        if p.len() == 0 {
            proof {
                assert(group_error(p@, line@) == Some(empty_endpoint_msg(line@)));
                assert(segs_error(sv, idx as int, line@) == Some(empty_endpoint_msg(line@)));
                assert(edge_line_error(line@) == segs_error(sv, 0, line@));
            }
            return Err(empty_endpoint_error(line));
        }
        let parts = split_char_exec(&p, '&');
        proof {
            lemma_split_len(p@, '&', 0, Seq::empty(), Seq::empty());
        }
        let ghost names_i = seg_names(sv, idx as int);
        let ghost base = segs_names(sv, idx as int);
        let ghost models_i = seg_models(sv, idx as int);
        let ghost mbase = segs_models(sv, idx as int);
        assert(names_i.take(0) =~= Seq::<Seq<char>>::empty());
        assert(base + names_i.take(0) =~= base);
        assert(models_i.take(0) =~= Seq::<NodeModel>::empty());
        assert(mbase + models_i.take(0) =~= mbase);
        let mut group: Vec<NodeId> = Vec::new();
        let mut k: usize = 0;
        while k < parts.len()
            invariant
                k <= parts.len(),
                parts.len() >= 1,
                idx < segments.len(),
                segments.len() >= 2,
                sv == chars_view(segments@),
                chars_view(segments@) == edge_split(line@, 0).0,
                p.len() > 0,
                seg_parts(idx as int, chars_view(segments@)[idx as int]).1 == p@,
                segs_error(chars_view(segments@), 0, line@) == segs_error(
                    chars_view(segments@),
                    idx as int,
                    line@,
                ),
                chars_view(parts@) == split_char(p@, '&'),
                parts_error(chars_view(parts@), 0, line@) == parts_error(
                    chars_view(parts@),
                    k as int,
                    line@,
                ),
                g.wf(),
                all_real(*g),
                k > 0 ==> g.nodes.len() > 0,
                idx > 0 ==> g.nodes.len() > 0,
                g.nodes.len() >= old(g).nodes.len(),
                g.dir == old(g).dir,
                g.subgraphs@ == old(g).subgraphs@,
                g.class_defs@ == old(g).class_defs@,
                g.edges@ == old(g).edges@,
                sg matches Some(s) ==> s < g.subgraphs.len(),
                names_i == seg_names(sv, idx as int),
                base == segs_names(sv, idx as int),
                names_i.len() == parts.len(),
                node_names(g.nodes@) == add_names(n0, base + names_i.take(k as int)),
                models_i == seg_models(sv, idx as int),
                mbase == segs_models(sv, idx as int),
                models_i.len() == parts.len(),
                node_models(g.nodes@) == add_models(m0, mbase + models_i.take(k as int)),
                node_subgraphs(g.nodes@) == refs_subs(m0, s0, mbase + models_i.take(k as int), sg),
                m0 == node_models(old(g).nodes@),
                unstyled(old(g).nodes@) ==> unstyled(g.nodes@),
                unplaced(old(g).nodes@) ==> unplaced(g.nodes@),
                names_kept(old(g).nodes@, g.nodes@),
                group_named(g.nodes@, group@, names_i.take(k as int)),
                groups.len() == idx,
                forall|a: int| 0 <= a < groups.len() ==> group_named(g.nodes@, (#[trigger] groups@[a])@, seg_names(sv, a)),
            decreases parts.len() - k,
        {
            let part = trim(&parts[k]);
            assert(chars_view(parts@)[k as int] == parts@[k as int]@);
            proof {
                assert(part@ == trimmed(chars_view(parts@)[k as int]));
            }
            if part.len() == 0 {
                proof {
                    assert(parts_error(chars_view(parts@), k as int, line@) == Some(
                        empty_endpoint_msg(line@),
                    ));
                    assert(group_error(p@, line@) == Some(empty_endpoint_msg(line@)));
                    assert(segs_error(sv, idx as int, line@) == Some(empty_endpoint_msg(line@)));
                    assert(edge_line_error(line@) == segs_error(sv, 0, line@));
                }
                return Err(empty_endpoint_error(line));
            }
            let (name, label, shape) = match parse_ident_label(&part) {
                Ok(t) => t,
                Err(e) => {
                    proof {
                        assert(parts_error(chars_view(parts@), k as int, line@) == Some(e@));
                        assert(group_error(p@, line@) == Some(e@));
                        assert(segs_error(sv, idx as int, line@) == Some(e@));
                        assert(edge_line_error(line@) == segs_error(sv, 0, line@));
                    }
                    return Err(e);
                },
            };
            proof {
                assert(names_i[k as int] == ident_name(trimmed(chars_view(parts@)[k as int])));
                assert(names_i[k as int] == name@);
                assert(models_i[k as int] == ref_model(trimmed(chars_view(parts@)[k as int])));
                assert(models_i[k as int] == NodeModel { name: name@, lines: br_lines(label@), shape });
            }
            let ghost before = g.nodes@;
            proof {
                lemma_find_model(before, name@, 0);
            }
            let id = add_ident(g, &name, &label, shape);
            let ghost after_add = g.nodes@;
            if let Some(s) = sg {
                if g.nodes[id].subgraph.is_none() {
                    g.nodes[id].subgraph = Some(s);
                    proof {
                        assert forall|i: int| 0 <= i < g.nodes.len() implies (#[trigger] g.nodes@[i]).id
                            == i && (g.nodes@[i].subgraph matches Some(t) ==> t
                            < g.subgraphs.len()) by {}
                    }
                }
            }
            proof {
                assert forall|i: int| 0 <= i < after_add.len() implies (#[trigger] g.nodes@[i]).name@ == after_add[i].name@ by {}
                assert(node_names(g.nodes@) =~= node_names(after_add));
                assert(node_models(g.nodes@) =~= node_models(after_add));
                if unstyled(old(g).nodes@) {
                    assert forall|i: int| 0 <= i < g.nodes.len() implies (#[trigger] g.nodes@[i]).style == empty_style() by {
                        assert(g.nodes@[i].style == after_add[i].style);
                    }
                }
                if unplaced(old(g).nodes@) {
                    assert forall|i: int| 0 <= i < g.nodes.len() implies (#[trigger] g.nodes@[i]).x == 0 && g.nodes@[i].y == 0
                        && g.nodes@[i].width == 0 && g.nodes@[i].height == 0 by {
                        assert(g.nodes@[i].x == after_add[i].x && g.nodes@[i].y == after_add[i].y);
                        assert(g.nodes@[i].width == after_add[i].width && g.nodes@[i].height == after_add[i].height);
                    }
                }
                assert(names_kept(before, g.nodes@));
                assert(names_kept(old(g).nodes@, g.nodes@));
                lemma_add_names_push(n0, base + names_i.take(k as int), name@);
                assert((base + names_i.take(k as int)).push(name@) =~= base + names_i.take(k + 1));
                lemma_add_models_push(m0, mbase + models_i.take(k as int), models_i[k as int]);
                assert((mbase + models_i.take(k as int)).push(models_i[k as int]) =~= mbase + models_i.take(k + 1));
                let pk = mbase + models_i.take(k as int);
                assert(pk.push(models_i[k as int]).drop_last() =~= pk);
                assert(refs_subs(m0, s0, mbase + models_i.take(k + 1), sg) == ref_subs(
                    add_models(m0, pk),
                    refs_subs(m0, s0, pk, sg),
                    models_i[k as int],
                    sg,
                    false,
                ));
                assert(node_subgraphs(g.nodes@) =~= ref_subs(
                    add_models(m0, pk),
                    refs_subs(m0, s0, pk, sg),
                    models_i[k as int],
                    sg,
                    false,
                ));
                assert forall|a: int| 0 <= a < groups.len() implies group_named(g.nodes@, (#[trigger] groups@[a])@, seg_names(sv, a)) by {
                    lemma_group_named_kept(before, g.nodes@, groups@[a]@, seg_names(sv, a));
                }
                lemma_group_named_kept(before, g.nodes@, group@, names_i.take(k as int));
            }
            let ghost gb = group@;
            group.push(id);
            proof {
                assert forall|b: int| 0 <= b < group@.len() implies #[trigger] group@[b] < g.nodes.len()
                    && g.nodes@[group@[b] as int].name@ == names_i.take(k + 1)[b] by {
                    if b < k {
                        assert(group@[b] == gb[b]);
                    }
                }
            }
            k += 1;
        }
        assert(parts_error(chars_view(parts@), k as int, line@) is None);
        assert(group_error(p@, line@) is None);
        proof {
            assert(names_i.take(k as int) =~= names_i);
            assert(segs_names(sv, idx + 1) == base + names_i);
            assert(models_i.take(k as int) =~= models_i);
            assert(segs_models(sv, idx + 1) == mbase + models_i);
        }
        let ghost gs = groups@;
        let ghost pls = pipe_labels@;
        groups.push(group);
        pipe_labels.push(pipe_label);
        proof {
            assert forall|a: int| 0 <= a < groups.len() implies group_named(g.nodes@, (#[trigger] groups@[a])@, seg_names(sv, a)) by {
                if a < idx {
                    assert(groups@[a] == gs[a]);
                }
            }
            assert forall|a: int| 0 <= a < pipe_labels.len() implies opt_chars(#[trigger] pipe_labels@[a]) == seg_parts(a, sv[a]).0 by {
                if a < idx {
                    assert(pipe_labels@[a] == pls[a]);
                }
            }
        }
        idx += 1;
    }
    assert(segs_error(chars_view(segments@), idx as int, line@) is None);
    let ghost nodes_done = g.nodes@;
    let ghost e0 = old(g).edges.len() as int;
    proof {
        assert(hops_edges(sv, hv, 1) == Seq::<EdgeModel>::empty());
        assert(edges_are(g.nodes@, g.edges@, e0, Seq::<EdgeModel>::empty()));
        assert(g.edges@.take(e0) =~= old(g).edges@);
    }
    let mut i: usize = 1;
    while i < groups.len()
        invariant
            1 <= i <= groups.len(),
            groups.len() == segments.len(),
            pipe_labels.len() == segments.len(),
            segments.len() == hits.len() + 1,
            sv == chars_view(segments@),
            hv == hits_view(hits@),
            forall|k: int| 0 <= k < hits.len() ==> (#[trigger] hits@[k]).length >= 1,
            g.wf(),
            all_real(*g),
            g.nodes.len() > 0,
            g.nodes@ == nodes_done,
            g.dir == old(g).dir,
            g.subgraphs@ == old(g).subgraphs@,
            g.class_defs@ == old(g).class_defs@,
            e0 == old(g).edges.len(),
            g.edges@.take(e0) == old(g).edges@,
            edges_are(g.nodes@, g.edges@, e0, hops_edges(sv, hv, i as int)),
            forall|a: int| 0 <= a < groups.len() ==> group_named(g.nodes@, (#[trigger] groups@[a])@, seg_names(sv, a)),
            forall|a: int| 0 <= a < pipe_labels.len() ==> opt_chars(#[trigger] pipe_labels@[a]) == seg_parts(a, sv[a]).0,
        decreases groups.len() - i,
    {
        let hit = &hits[i - 1];
        assert(hv[i - 1] == hit.model());
        let edge_label = if pipe_labels[i].is_some() {
            opt_string(&pipe_labels[i])
        } else {
            opt_string(&hit.label)
        };
        let ghost lnames = seg_names(sv, i - 1);
        let ghost rnames = seg_names(sv, i as int);
        let ghost lbl = hop_label(sv, hv, i as int);
        let ghost h = hv[i - 1];
        let ghost done = hops_edges(sv, hv, i as int);
        assert(opt_view(edge_label) == lbl);
        assert(group_named(g.nodes@, groups@[i - 1]@, lnames));
        assert(group_named(g.nodes@, groups@[i as int]@, rnames));
        proof {
            assert(lnames.take(0) =~= Seq::<Seq<char>>::empty());
            assert(done + cross(lnames.take(0), rnames, lbl, h) =~= done);
        }
        let mut a: usize = 0;
        while a < groups[i - 1].len()
            invariant
                1 <= i < groups.len(),
                a <= groups@[i - 1].len(),
                g.wf(),
                all_real(*g),
                g.nodes.len() > 0,
                g.nodes@ == nodes_done,
                g.dir == old(g).dir,
                g.subgraphs@ == old(g).subgraphs@,
                g.class_defs@ == old(g).class_defs@,
                g.edges@.take(e0) == old(g).edges@,
                e0 == old(g).edges.len(),
                group_named(g.nodes@, groups@[i - 1]@, lnames),
                group_named(g.nodes@, groups@[i as int]@, rnames),
                edges_are(g.nodes@, g.edges@, e0, done + cross(lnames.take(a as int), rnames, lbl, h)),
                opt_view(edge_label) == lbl,
                hit.model() == h,
                hit.length >= 1,
            decreases groups@[i - 1].len() - a,
        {
            let from = groups[i - 1][a];
            let ghost row_done = done + cross(lnames.take(a as int), rnames, lbl, h);
            let ghost la = lnames[a as int];
            proof {
                assert(rnames.take(0).map_values(|t: Seq<char>| hop_edge(la, t, lbl, h)) =~= Seq::<EdgeModel>::empty());
                assert(row_done + rnames.take(0).map_values(|t: Seq<char>| hop_edge(la, t, lbl, h)) =~= row_done);
            }
            let mut b: usize = 0;
            while b < groups[i].len()
                invariant
                    1 <= i < groups.len(),
                    a < groups@[i - 1].len(),
                    b <= groups@[i as int].len(),
                    from == groups@[i - 1]@[a as int],
                    from < g.nodes.len(),
                    g.wf(),
                    all_real(*g),
                    g.nodes.len() > 0,
                    g.nodes@ == nodes_done,
                    g.dir == old(g).dir,
                    g.subgraphs@ == old(g).subgraphs@,
                    g.class_defs@ == old(g).class_defs@,
                    g.edges@.take(e0) == old(g).edges@,
                    e0 == old(g).edges.len(),
                    group_named(g.nodes@, groups@[i - 1]@, lnames),
                    group_named(g.nodes@, groups@[i as int]@, rnames),
                    la == lnames[a as int],
                    edges_are(g.nodes@, g.edges@, e0, row_done + rnames.take(b as int).map_values(|t: Seq<char>| hop_edge(la, t, lbl, h))),
                    opt_view(edge_label) == lbl,
                    hit.model() == h,
                    hit.length >= 1,
                decreases groups@[i as int].len() - b,
            {
                let to = groups[i][b];
                let lbl_s = match &edge_label {
                    Some(l) => Some(l.clone()),
                    None => None,
                };
                let ghost es = g.edges@;
                g.add_edge(from, to, lbl_s, hit.style, hit.tip_fwd, hit.tip_back, hit.length);
                proof {
                    let m = hop_edge(la, rnames[b as int], lbl, h);
                    assert(g.nodes@[from as int].name@ == la);
                    assert(g.nodes@[to as int].name@ == rnames[b as int]);
                    assert(edge_is(g.nodes@, g.edges@.last(), m));
                    assert(g.edges@ == es.push(g.edges@.last()));
                    lemma_edges_are_push(g.nodes@, es, g.edges@.last(), e0, row_done + rnames.take(b as int).map_values(|t: Seq<char>| hop_edge(la, t, lbl, h)), m);
                    assert((row_done + rnames.take(b as int).map_values(|t: Seq<char>| hop_edge(la, t, lbl, h))).push(m)
                        =~= row_done + rnames.take(b + 1).map_values(|t: Seq<char>| hop_edge(la, t, lbl, h)));
                    assert(g.edges@.take(e0) =~= es.take(e0));
                }
                b += 1;
            }
            proof {
                assert(rnames.take(b as int) =~= rnames);
                assert(lnames.take(a + 1).drop_last() =~= lnames.take(a as int));
                assert(lnames.take(a + 1).last() == la);
                assert(cross(lnames.take(a + 1), rnames, lbl, h) == cross(lnames.take(a as int), rnames, lbl, h) + rnames.map_values(|t: Seq<char>| hop_edge(la, t, lbl, h)));
                assert(done + cross(lnames.take(a + 1), rnames, lbl, h) =~= row_done + rnames.map_values(|t: Seq<char>| hop_edge(la, t, lbl, h)));
            }
            a += 1;
        }
        proof {
            assert(lnames.take(a as int) =~= lnames);
            assert(hops_edges(sv, hv, i + 1) == done + cross(lnames, rnames, lbl, h));
        }
        i += 1;
    }
    proof {
        assert(names_kept(old(g).nodes@, g.nodes@));
    }
    Ok(())
}


// ---------------------------------------------------------------------------
// Whole documents.
/// What a (trimmed) line of the document is.
pub enum LineKind {
    /// Empty or a `%%` comment.
    Blank,
    /// `flowchart ...` or `graph ...`.
    Header(Direction),
    /// `subgraph ...`, with the trimmed rest.
    SubgraphStart(Seq<char>),
    /// `end`.
    End,
    /// `classDef ...`, with the trimmed rest.
    ClassDef(Seq<char>),
    /// `class ...`, with the trimmed rest.
    ClassUse(Seq<char>),
    /// `style ...`, with the trimmed rest.
    StyleUse(Seq<char>),
    /// A node or edge line.
    Content,
}

pub open spec fn kw_comment() -> Seq<char> {
    seq!['%', '%']
}

pub open spec fn kw_flowchart() -> Seq<char> {
    seq!['f', 'l', 'o', 'w', 'c', 'h', 'a', 'r', 't']
}

pub open spec fn kw_graph() -> Seq<char> {
    seq!['g', 'r', 'a', 'p', 'h']
}

pub open spec fn kw_subgraph() -> Seq<char> {
    seq!['s', 'u', 'b', 'g', 'r', 'a', 'p', 'h']
}

pub open spec fn kw_end() -> Seq<char> {
    seq!['e', 'n', 'd']
}

pub open spec fn kw_classdef() -> Seq<char> {
    seq!['c', 'l', 'a', 's', 's', 'D', 'e', 'f']
}

pub open spec fn kw_class() -> Seq<char> {
    seq!['c', 'l', 'a', 's', 's', ' ']
}

pub open spec fn kw_style() -> Seq<char> {
    seq!['s', 't', 'y', 'l', 'e', ' ']
}

/// `r` is the two letters `a b`, ignoring ASCII case (`A`/`B` are the
/// upper-case forms).
pub open spec fn two_letters(r: Seq<char>, a: char, aa: char, b: char, bb: char) -> bool {
    r.len() == 2 && (r[0] == a || r[0] == aa) && (r[1] == b || r[1] == bb)
}

/// Direction named after `flowchart`/`graph`; anything unknown is TD.
pub open spec fn header_dir(r: Seq<char>) -> Direction {
    if two_letters(r, 'L', 'l', 'R', 'r') {
        Direction::LR
    } else if two_letters(r, 'R', 'r', 'L', 'l') {
        Direction::RL
    } else if two_letters(r, 'B', 'b', 'T', 't') {
        Direction::BT
    } else {
        Direction::TD
    }
}

pub open spec fn line_kind(t: Seq<char>) -> LineKind {
    if t.len() == 0 || has_prefix(t, kw_comment()) {
        LineKind::Blank
    } else if has_prefix(t, kw_flowchart()) {
        LineKind::Header(header_dir(trimmed(t.skip(9))))
    } else if has_prefix(t, kw_graph()) {
        LineKind::Header(header_dir(trimmed(t.skip(5))))
    } else if has_prefix(t, kw_subgraph()) {
        LineKind::SubgraphStart(trimmed(t.skip(8)))
    } else if t == kw_end() {
        LineKind::End
    } else if has_prefix(t, kw_classdef()) {
        LineKind::ClassDef(trimmed(t.skip(8)))
    } else if has_prefix(t, kw_class()) {
        LineKind::ClassUse(trimmed(t.skip(6)))
    } else if has_prefix(t, kw_style()) {
        LineKind::StyleUse(trimmed(t.skip(6)))
    } else {
        LineKind::Content
    }
}

/// Error of a node or edge line, before the line number is added.
pub open spec fn content_error(t: Seq<char>) -> Option<Seq<char>> {
    if edge_op(t, 0) is Some {
        edge_line_error(t)
    } else {
        match ident_label(t) {
            Err(e) => Some(e),
            Ok(_) => None,
        }
    }
}

/// The error that line number `n` (counting from 1) fails with, if any.
/// Subgraph headers report their error without the line number.
pub open spec fn line_error(t: Seq<char>, n: nat) -> Option<Seq<char>> {
    match line_kind(t) {
        LineKind::SubgraphStart(rest) => match ident_label(rest) {
            Err(e) => Some(e),
            Ok(_) => None,
        },
        LineKind::Content => match content_error(t) {
            Some(m) => Some("line "@ + dec(n) + ": "@ + m),
            None => None,
        },
        _ => None,
    }
}

/// Text before the first white space (all of it when there is none).
pub open spec fn head_word(r: Seq<char>) -> Seq<char> {
    match find_ws(r, 0) {
        Some(k) => r.take(k),
        None => r,
    }
}

/// Text after the first white space (empty when there is none).
pub open spec fn after_word(r: Seq<char>) -> Seq<char> {
    match find_ws(r, 0) {
        Some(k) => r.skip(k + 1),
        None => Seq::empty(),
    }
}

pub open spec fn line_bad(lines: Seq<Seq<char>>, j: int) -> bool {
    line_error(trimmed(lines[j]), (j + 1) as nat) is Some
}

/// First line at or after `k` that fails.
pub open spec fn first_bad(lines: Seq<Seq<char>>, k: int) -> Option<int>
    decreases lines.len() - k,
{
    if k < 0 || k >= lines.len() {
        None
    } else if line_bad(lines, k) {
        Some(k)
    } else {
        first_bad(lines, k + 1)
    }
}

/// The lines of a document.
pub open spec fn src_lines(s: Seq<char>) -> Seq<Seq<char>> {
    split_char(s, '\n')
}

/// Some line among the first `n` is a node or edge line.
pub open spec fn content_before(lines: Seq<Seq<char>>, n: int) -> bool {
    exists|j: int| 0 <= j < n && #[trigger] line_kind(trimmed(lines[j])) is Content
}

/// Direction set by the last header among the first `n` lines (TD if none).
pub open spec fn dir_after(lines: Seq<Seq<char>>, n: int) -> Direction
    decreases n,
{
    if n <= 0 {
        Direction::TD
    } else {
        match line_kind(trimmed(lines[n - 1])) {
            LineKind::Header(d) => d,
            _ => dir_after(lines, n - 1),
        }
    }
}

/// Number of subgraph headers among the first `n` lines.
pub open spec fn subgraphs_before(lines: Seq<Seq<char>>, n: int) -> nat
    decreases n,
{
    if n <= 0 {
        0
    } else {
        subgraphs_before(lines, n - 1) + match line_kind(trimmed(lines[n - 1])) {
            LineKind::SubgraphStart(_) => 1nat,
            _ => 0nat,
        }
    }
}

/// `classDef` definitions among the first `n` lines, in order.
pub open spec fn class_defs_before(lines: Seq<Seq<char>>, n: int) -> Seq<(Seq<char>, Style)>
    decreases n,
{
    if n <= 0 {
        Seq::empty()
    } else {
        let prev = class_defs_before(lines, n - 1);
        match line_kind(trimmed(lines[n - 1])) {
            LineKind::ClassDef(rest) => prev.push(
                (head_word(rest), css_style(after_word(rest))),
            ),
            _ => prev,
        }
    }
}

pub open spec fn defs_view(v: Seq<(String, Style)>) -> Seq<(Seq<char>, Style)> {
    v.map_values(|d: (String, Style)| (d.0@, d.1))
}

pub enum LineKindExec {
    Blank,
    Header(Direction),
    SubgraphStart(Vec<char>),
    End,
    ClassDef(Vec<char>),
    ClassUse(Vec<char>),
    StyleUse(Vec<char>),
    Content,
}

pub open spec fn kind_view(k: LineKindExec) -> LineKind {
    match k {
        LineKindExec::Blank => LineKind::Blank,
        LineKindExec::Header(d) => LineKind::Header(d),
        LineKindExec::SubgraphStart(r) => LineKind::SubgraphStart(r@),
        LineKindExec::End => LineKind::End,
        LineKindExec::ClassDef(r) => LineKind::ClassDef(r@),
        LineKindExec::ClassUse(r) => LineKind::ClassUse(r@),
        LineKindExec::StyleUse(r) => LineKind::StyleUse(r@),
        LineKindExec::Content => LineKind::Content,
    }
}

fn header_dir_exec(r: &Vec<char>) -> (d: Direction)
    ensures
        d == header_dir(r@),
{
    if r.len() == 2 {
        let a = r[0];
        let b = r[1];
        if (a == 'L' || a == 'l') && (b == 'R' || b == 'r') {
            return Direction::LR;
        }
        if (a == 'R' || a == 'r') && (b == 'L' || b == 'l') {
            return Direction::RL;
        }
        if (a == 'B' || a == 'b') && (b == 'T' || b == 't') {
            return Direction::BT;
        }
    }
    Direction::TD
}

fn rest_after(t: &Vec<char>, n: usize) -> (r: Vec<char>)
    requires
        n <= t.len(),
    ensures
        r@ == trimmed(t@.skip(n as int)),
{
    let tail = slice(t, n, t.len());
    trim(&tail)
}

fn classify(t: &Vec<char>) -> (k: LineKindExec)
    ensures
        kind_view(k) == line_kind(t@),
{
    let comment = vec!['%', '%'];
    let flowchart = vec!['f', 'l', 'o', 'w', 'c', 'h', 'a', 'r', 't'];
    let graph = vec!['g', 'r', 'a', 'p', 'h'];
    let subgraph = vec!['s', 'u', 'b', 'g', 'r', 'a', 'p', 'h'];
    let end = vec!['e', 'n', 'd'];
    let classdef = vec!['c', 'l', 'a', 's', 's', 'D', 'e', 'f'];
    let class = vec!['c', 'l', 'a', 's', 's', ' '];
    let style = vec!['s', 't', 'y', 'l', 'e', ' '];
    if t.len() == 0 || starts_with(t, &comment) {
        LineKindExec::Blank
    } else if starts_with(t, &flowchart) {
        let r = rest_after(t, 9);
        LineKindExec::Header(header_dir_exec(&r))
    } else if starts_with(t, &graph) {
        let r = rest_after(t, 5);
        LineKindExec::Header(header_dir_exec(&r))
    } else if starts_with(t, &subgraph) {
        LineKindExec::SubgraphStart(rest_after(t, 8))
    } else if eq_chars(t, &end) {
        LineKindExec::End
    } else if starts_with(t, &classdef) {
        LineKindExec::ClassDef(rest_after(t, 8))
    } else if starts_with(t, &class) {
        LineKindExec::ClassUse(rest_after(t, 6))
    } else if starts_with(t, &style) {
        LineKindExec::StyleUse(rest_after(t, 6))
    } else {
        LineKindExec::Content
    }
}

/// `(head_word(r), after_word(r))`.
fn split_word(r: &Vec<char>) -> (p: (Vec<char>, Vec<char>))
    ensures
        p.0@ == head_word(r@),
        p.1@ == after_word(r@),
{
    proof {
        crate::text::lemma_find_ws(r@, 0);
    }
    match find_ws_exec(r, 0) {
        Some(k) => {
            assert(find_ws(r@, 0) == Some(k as int));
            assert(k < r.len()) by {
                crate::text::lemma_find_ws(r@, 0);
            }
            (slice(r, 0, k), slice(r, k + 1, r.len()))
        },
        None => (slice(r, 0, r.len()), Vec::new()),
    }
}

/// The `i`-th line's error message with its line number.
fn numbered_error(n: usize, e: &String) -> (m: String)
    ensures
        m@ == "line "@ + dec(n as nat) + ": "@ + e@,
{
    let mut m = String::from_str("line ");
    push_dec(&mut m, n);
    m.append(": ");
    m.append(e.as_str());
    m
}

pub proof fn lemma_first_bad(lines: Seq<Seq<char>>, k: int)
    requires
        0 <= k,
    ensures
        first_bad(lines, k) matches Some(j) ==> k <= j < lines.len() && line_bad(lines, j),
        first_bad(lines, k) is None ==> forall|j: int| k <= j < lines.len() ==> !line_bad(lines, j),
    decreases lines.len() - k,
{
    if k < lines.len() && !line_bad(lines, k) {
        lemma_first_bad(lines, k + 1);
    }
}

/// Node names and edges (ends by name) after the first `n` lines: a node
/// line adds its node, an edge line its endpoints and its edges; other
/// lines add neither.
pub open spec fn doc_graph(lines: Seq<Seq<char>>, n: int) -> (Seq<Seq<char>>, Seq<EdgeModel>)
    decreases n,
{
    if n <= 0 {
        (Seq::empty(), Seq::empty())
    } else {
        let prev = doc_graph(lines, n - 1);
        let t = trimmed(lines[n - 1]);
        if line_kind(t) is Content {
            if edge_op(t, 0) is Some {
                let sp = edge_split(t, 0);
                (
                    add_names(prev.0, segs_names(sp.0, sp.0.len() as int)),
                    prev.1 + hops_edges(sp.0, sp.1, sp.0.len() as int),
                )
            } else {
                (add_name(prev.0, ident_name(t)), prev.1)
            }
        } else {
            prev
        }
    }
}

/// The nodes (name, label lines, shape) after the first `n` lines, in
/// order of first reference.
pub open spec fn doc_nodes(lines: Seq<Seq<char>>, n: int) -> Seq<NodeModel>
    decreases n,
{
    if n <= 0 {
        Seq::empty()
    } else {
        let prev = doc_nodes(lines, n - 1);
        let t = trimmed(lines[n - 1]);
        if line_kind(t) is Content {
            if edge_op(t, 0) is Some {
                let segs = edge_split(t, 0).0;
                add_models(prev, segs_models(segs, segs.len() as int))
            } else {
                add_model(prev, ref_model(t))
            }
        } else {
            prev
        }
    }
}

/// The subgraphs open after the first `n` lines, innermost last: each
/// `subgraph` line opens the next subgraph, each `end` closes the innermost.
pub open spec fn open_subgraphs(lines: Seq<Seq<char>>, n: int) -> Seq<usize>
    decreases n,
{
    if n <= 0 {
        Seq::empty()
    } else {
        let prev = open_subgraphs(lines, n - 1);
        match line_kind(trimmed(lines[n - 1])) {
            LineKind::SubgraphStart(_) => prev.push(subgraphs_before(lines, n - 1) as usize),
            LineKind::End => if prev.len() > 0 {
                prev.drop_last()
            } else {
                prev
            },
            _ => prev,
        }
    }
}

/// The innermost open subgraph, if any.
pub open spec fn innermost(open: Seq<usize>) -> Option<usize> {
    if open.len() > 0 {
        Some(open.last())
    } else {
        None
    }
}

/// The subgraph of each node after the first `n` lines: a node line puts
/// its node in the innermost open subgraph (if one is open); an edge line
/// puts there each endpoint that is in none.
pub open spec fn doc_subs(lines: Seq<Seq<char>>, n: int) -> Seq<Option<usize>>
    decreases n,
{
    if n <= 0 {
        Seq::empty()
    } else {
        let prev = doc_subs(lines, n - 1);
        let ms = doc_nodes(lines, n - 1);
        let top = innermost(open_subgraphs(lines, n - 1));
        let t = trimmed(lines[n - 1]);
        if line_kind(t) is Content {
            if edge_op(t, 0) is Some {
                let segs = edge_split(t, 0).0;
                refs_subs(ms, prev, segs_models(segs, segs.len() as int), top)
            } else {
                ref_subs(ms, prev, ref_model(t), top, true)
            }
        } else {
            prev
        }
    }
}

/// A subgraph's name, title label and enclosing subgraph.
pub open spec fn subgraph_view(sg: Subgraph) -> (Seq<char>, Seq<char>, Option<usize>) {
    (sg.name@, sg.label@, sg.parent)
}

/// The subgraphs declared among the first `n` lines: named by their
/// identifier (or their label when it has none), titled by their label, and
/// inside the subgraph that was innermost open at their header.
pub open spec fn doc_subgraphs(lines: Seq<Seq<char>>, n: int) -> Seq<(Seq<char>, Seq<char>, Option<usize>)>
    decreases n,
{
    if n <= 0 {
        Seq::empty()
    } else {
        let prev = doc_subgraphs(lines, n - 1);
        match line_kind(trimmed(lines[n - 1])) {
            LineKind::SubgraphStart(rest) => match ident_label(rest) {
                Ok(t) => prev.push(
                    (
                        if t.0.len() == 0 {
                            t.1
                        } else {
                            t.0
                        },
                        t.1,
                        innermost(open_subgraphs(lines, n - 1)),
                    ),
                ),
                Err(_) => prev,
            },
            _ => prev,
        }
    }
}

proof fn lemma_edges_are_concat(nodes: Seq<Node>, es: Seq<Edge>, k1: int, ms1: Seq<EdgeModel>, ms2: Seq<EdgeModel>)
    requires
        0 <= k1 <= es.len(),
        edges_are(nodes, es.take(k1), 0, ms1),
        edges_are(nodes, es, k1, ms2),
    ensures
        edges_are(nodes, es, 0, ms1 + ms2),
{
    assert forall|k: int| 0 <= k < (ms1 + ms2).len() implies #[trigger] edge_is(nodes, es[0 + k], (ms1 + ms2)[k]) by {
        if k < ms1.len() {
            assert(edge_is(nodes, es.take(k1)[0 + k], ms1[k]));
            assert(es.take(k1)[k] == es[k]);
        } else {
            assert(edge_is(nodes, es[k1 + (k - ms1.len())], ms2[k - ms1.len()]));
        }
    }
}

/// The `class` directives among the first `n` lines: the node names
/// (split at `,` and trimmed) and the class name after the last white space.
pub open spec fn class_uses_before(lines: Seq<Seq<char>>, n: int) -> Seq<(Seq<Seq<char>>, Seq<char>)>
    decreases n,
{
    if n <= 0 {
        Seq::empty()
    } else {
        let prev = class_uses_before(lines, n - 1);
        match line_kind(trimmed(lines[n - 1])) {
            LineKind::ClassUse(rest) => match rfind_ws(rest, rest.len() as int) {
                Some(k) => prev.push(
                    (split_char(rest.take(k), ',').map_values(|x: Seq<char>| trimmed(x)), rest.skip(k + 1)),
                ),
                None => prev,
            },
            _ => prev,
        }
    }
}

/// The `style` directives among the first `n` lines: node name and style.
pub open spec fn style_uses_before(lines: Seq<Seq<char>>, n: int) -> Seq<(Seq<char>, Style)>
    decreases n,
{
    if n <= 0 {
        Seq::empty()
    } else {
        let prev = style_uses_before(lines, n - 1);
        match line_kind(trimmed(lines[n - 1])) {
            LineKind::StyleUse(rest) => if find_ws(rest, 0) is Some {
                prev.push((head_word(rest), css_style(after_word(rest))))
            } else {
                prev
            },
            _ => prev,
        }
    }
}

/// The class `name` among the first `n` definitions; a later definition wins.
pub open spec fn class_of(defs: Seq<(Seq<char>, Style)>, name: Seq<char>, n: int) -> Option<Style>
    decreases n,
{
    if n <= 0 {
        None
    } else if defs[n - 1].0 == name {
        Some(defs[n - 1].1)
    } else {
        class_of(defs, name, n - 1)
    }
}

/// The style of node `nm`, starting from `st`, after the first `a` class
/// directives: each that names the node and a defined class merges it in.
pub open spec fn after_classes(st: Style, nm: Seq<char>, uses: Seq<(Seq<Seq<char>>, Seq<char>)>, defs: Seq<(Seq<char>, Style)>, a: int) -> Style
    decreases a,
{
    if a <= 0 {
        st
    } else {
        let prev = after_classes(st, nm, uses, defs, a - 1);
        match class_of(defs, uses[a - 1].1, defs.len() as int) {
            Some(cs) => if uses[a - 1].0.contains(nm) {
                merged(prev, cs)
            } else {
                prev
            },
            None => prev,
        }
    }
}

/// The style of node `nm`, starting from `st`, after the first `b` style
/// directives: each that names the node merges its style in.
pub open spec fn after_styles(st: Style, nm: Seq<char>, uses: Seq<(Seq<char>, Style)>, b: int) -> Style
    decreases b,
{
    if b <= 0 {
        st
    } else {
        let prev = after_styles(st, nm, uses, b - 1);
        if uses[b - 1].0 == nm {
            merged(prev, uses[b - 1].1)
        } else {
            prev
        }
    }
}

/// A node's style after every directive: class directives first, then
/// style directives, each in document order.
pub open spec fn directed_style(st: Style, nm: Seq<char>, cu: Seq<(Seq<Seq<char>>, Seq<char>)>, su: Seq<(Seq<char>, Style)>, defs: Seq<(Seq<char>, Style)>) -> Style {
    after_styles(after_classes(st, nm, cu, defs, cu.len() as int), nm, su, su.len() as int)
}

pub open spec fn class_uses_view(v: Seq<(Vec<Vec<char>>, Vec<char>)>) -> Seq<(Seq<Seq<char>>, Seq<char>)> {
    v.map_values(|u: (Vec<Vec<char>>, Vec<char>)| (chars_view(u.0@), u.1@))
}

pub open spec fn style_uses_view(v: Seq<(Vec<char>, Style)>) -> Seq<(Seq<char>, Style)> {
    v.map_values(|u: (Vec<char>, Style)| (u.0@, u.1))
}

proof fn lemma_merged_idem(b: Style, o: Style)
    ensures
        merged(merged(b, o), o) == merged(b, o),
{
}

proof fn lemma_class_of(defs: Seq<(String, Style)>, name: Seq<char>, n: int)
    requires
        n <= defs.len(),
    ensures
        class_style(defs, name, n) == class_of(defs_view(defs), name, n),
    decreases n,
{
    if n > 0 {
        lemma_class_of(defs, name, n - 1);
    }
}

/// The deferred `class` and `style` directives.
struct Directives {
    class_uses: Vec<(Vec<Vec<char>>, Vec<char>)>,
    style_uses: Vec<(Vec<char>, Style)>,
}

/// Parses a Mermaid flowchart.
///
/// The first line that fails stops the parse with its error; a document
/// with no node or edge line is rejected with `no nodes found`.
#[verifier::rlimit(40)]
pub fn parse(source: &str) -> (r: Result<Graph, String>)
    ensures
        ({
            let lines = src_lines(source@);
            match first_bad(lines, 0) {
                Some(k) => r matches Err(e) && Some(e@) == line_error(
                    trimmed(lines[k]),
                    (k + 1) as nat,
                ),
                None => if content_before(lines, lines.len() as int) {
                    r matches Ok(g) && {
                        &&& node_models(g.nodes@) == doc_nodes(lines, lines.len() as int)
                        &&& unplaced(g.nodes@)
                        &&& forall|k: int| 0 <= k < g.subgraphs.len() ==> (#[trigger] g.subgraphs@[k]).style == empty_style()
                        &&& forall|i: int|
                            0 <= i < g.nodes.len() ==> (#[trigger] g.nodes@[i]).style == directed_style(
                                empty_style(),
                                g.nodes@[i].name@,
                                class_uses_before(lines, lines.len() as int),
                                style_uses_before(lines, lines.len() as int),
                                class_defs_before(lines, lines.len() as int),
                            )
                        &&& node_subgraphs(g.nodes@) == doc_subs(lines, lines.len() as int)
                        &&& node_names(g.nodes@) == doc_graph(lines, lines.len() as int).0
                        &&& edges_are(g.nodes@, g.edges@, 0, doc_graph(lines, lines.len() as int).1)
                        &&& g.wf()
                        &&& all_real(g)
                        &&& g.nodes.len() > 0
                        &&& g.dir == dir_after(lines, lines.len() as int)
                        &&& g.subgraphs.len() == subgraphs_before(lines, lines.len() as int)
                        &&& g.subgraphs@.map_values(|sg: Subgraph| subgraph_view(sg)) == doc_subgraphs(lines, lines.len() as int)
                        &&& defs_view(g.class_defs@) == class_defs_before(
                            lines,
                            lines.len() as int,
                        )
                    }
                } else {
                    r matches Err(e) && e@ == "no nodes found"@
                },
            }
        }),
{
    let src = chars_of(source);
    let lines = split_char_exec(&src, '\n');
    let ghost L = src_lines(source@);
    assert(chars_view(lines@) == L);
    let mut g = Graph::new();
    let mut sg_stack: Vec<SubgraphId> = Vec::new();
    // Deferred directives that need to resolve node names (which might not
    // exist yet at the time of parsing), applied after a full first pass.
    let mut dirs = Directives { class_uses: Vec::new(), style_uses: Vec::new() };
    proof {
        lemma_first_bad(L, 0);
    }
    let mut i: usize = 0;
    while i < lines.len()
        invariant
            i <= lines.len(),
            chars_view(lines@) == L,
            L == src_lines(source@),
            first_bad(L, 0) == first_bad(L, i as int),
            g.wf(),
            all_real(g),
            forall|k: int| 0 <= k < sg_stack.len() ==> #[trigger] sg_stack@[k] < g.subgraphs.len(),
            (g.nodes.len() > 0) == content_before(L, i as int),
            g.dir == dir_after(L, i as int),
            g.subgraphs.len() == subgraphs_before(L, i as int),
            defs_view(g.class_defs@) == class_defs_before(L, i as int),
            node_names(g.nodes@) == doc_graph(L, i as int).0,
            node_models(g.nodes@) == doc_nodes(L, i as int),
            node_subgraphs(g.nodes@) == doc_subs(L, i as int),
            sg_stack@ == open_subgraphs(L, i as int),
            g.subgraphs@.map_values(|sg: Subgraph| subgraph_view(sg)) == doc_subgraphs(L, i as int),
            unstyled(g.nodes@),
            unplaced(g.nodes@),
            forall|k: int| 0 <= k < g.subgraphs.len() ==> (#[trigger] g.subgraphs@[k]).style == empty_style(),
            class_uses_view(dirs.class_uses@) == class_uses_before(L, i as int),
            style_uses_view(dirs.style_uses@) == style_uses_before(L, i as int),
            edges_are(g.nodes@, g.edges@, 0, doc_graph(L, i as int).1),
        decreases lines.len() - i,
    {
        let line = trim(&lines[i]);
        assert(line@ == trimmed(L[i as int]));
        proof {
            if first_bad(L, i as int) is None {
                lemma_first_bad(L, i as int);
            }
        }
        let kind = classify(&line);
        match kind {
            LineKindExec::Blank => {},
            LineKindExec::Header(d) => {
                g.dir = d;
            },
            LineKindExec::SubgraphStart(rest) => {
                // subgraph id [Label] / subgraph id / subgraph "Label"
                let (name, label, _) = match parse_ident_label(&rest) {
                    Ok(t) => t,
                    Err(e) => {
                        return Err(e);
                    },
                };
                let id = g.subgraphs.len();
                let parent = if sg_stack.len() > 0 {
                    Some(sg_stack[sg_stack.len() - 1])
                } else {
                    None
                };
                let label_s = string_of(&label);
                let name_s = if name.len() == 0 {
                    string_of(&label)
                } else {
                    string_of(&name)
                };
                let ghost sv0 = g.subgraphs@.map_values(|sg: Subgraph| subgraph_view(sg));
                g.subgraphs.push(Subgraph { name: name_s, label: label_s, parent, style: Style::new() });
                proof {
                    assert(g.subgraphs@.map_values(|sg: Subgraph| subgraph_view(sg)) =~= sv0.push(
                        subgraph_view(g.subgraphs@.last()),
                    ));
                    assert forall|k: int| 0 <= k < g.subgraphs.len() implies (#[trigger] g.subgraphs@[k]).style == empty_style() by {
                        if k < id {
                            assert(g.subgraphs@[k] == old_sub(g.subgraphs@, k));
                        }
                    }
                }
                sg_stack.push(id);
                proof {
                    assert forall|j: int| 0 <= j < g.subgraphs.len() implies ((#[trigger] g.subgraphs@[j]).parent matches Some(p) ==> p < j) by {
                        if j < id {
                            assert(g.subgraphs@[j] == old_sub(g.subgraphs@, j));
                        }
                    }
                }
            },
            LineKindExec::End => {
                sg_stack.pop();
            },
            LineKindExec::ClassDef(rest) => {
                // classDef <name> <props>
                let (name, props) = split_word(&rest);
                let style = parse_css_props(&props);
                let ghost dv = defs_view(g.class_defs@);
                let name_s = string_of(&name);
                g.class_defs.push((name_s, style));
                assert(defs_view(g.class_defs@) == dv.push((name@, style)));
            },
            LineKindExec::ClassUse(rest) => {
                // class a,b,c <name>
                proof {
                    crate::text::lemma_rfind_ws(rest@, rest@.len() as int);
                }
                match rfind_ws_exec(&rest, rest.len()) {
                    Some(k) => {
                        let node_list = slice(&rest, 0, k);
                        let class_name = slice(&rest, k + 1, rest.len());
                        let raw_nodes = split_char_exec(&node_list, ',');
                        let ghost raw = chars_view(raw_nodes@);
                        let mut nodes: Vec<Vec<char>> = Vec::new();
                        let mut j: usize = 0;
                        while j < raw_nodes.len()
                            invariant
                                j <= raw_nodes.len(),
                                raw == chars_view(raw_nodes@),
                                chars_view(nodes@) == raw.take(j as int).map_values(|x: Seq<char>| trimmed(x)),
                            decreases raw_nodes.len() - j,
                        {
                            let t = trim(&raw_nodes[j]);
                            let ghost nv = chars_view(nodes@);
                            nodes.push(t);
                            proof {
                                assert(raw[j as int] == raw_nodes@[j as int]@);
                                assert(t@ == trimmed(raw[j as int]));
                                assert(chars_view(nodes@) =~= nv.push(t@));
                                assert(nv.push(t@) =~= raw.take(j + 1).map_values(|x: Seq<char>| trimmed(x)));
                            }
                            j += 1;
                        }
                        proof {
                            assert(raw.take(j as int) =~= raw);
                            assert(rfind_ws(rest@, rest@.len() as int) == Some(k as int));
                        }
                        let ghost cv = class_uses_view(dirs.class_uses@);
                        let ghost item = (chars_view(nodes@), class_name@);
                        dirs.class_uses.push((nodes, class_name));
                        proof {
                            assert(class_uses_view(dirs.class_uses@) =~= cv.push(item));
                        }
                    },
                    None => {},
                }
            },
            LineKindExec::StyleUse(rest) => {
                // style <node> <props>
                proof {
                    crate::text::lemma_find_ws(rest@, 0);
                }
                if find_ws_exec(&rest, 0).is_some() {
                    let (node, props) = split_word(&rest);
                    let style = parse_css_props(&props);
                    let ghost sv = style_uses_view(dirs.style_uses@);
                    let ghost item = (node@, style);
                    dirs.style_uses.push((node, style));
                    proof {
                        assert(style_uses_view(dirs.style_uses@) =~= sv.push(item));
                    }
                }
            },
            LineKindExec::Content => {
                let sg = if sg_stack.len() > 0 {
                    Some(sg_stack[sg_stack.len() - 1])
                } else {
                    None
                };
                let is_edge = find_edge_op(&line, 0).is_some();
                let ghost g_before = g;
                let ghost prev = doc_graph(L, i as int);
                let result: Result<(), String> = if is_edge {
                    let r = parse_edge_line(&mut g, &line, sg);
                    proof {
                        if r is Ok {
                            let k1 = g_before.edges.len() as int;
                            lemma_edges_are_names(g_before.nodes@, g.nodes@, g_before.edges@, 0, prev.1);
                            assert(g.edges@.take(k1) == g_before.edges@);
                            let sp = edge_split(line@, 0);
                            lemma_edges_are_concat(g.nodes@, g.edges@, k1, prev.1, hops_edges(sp.0, sp.1, sp.0.len() as int));
                        }
                    }
                    r
                } else {
                    match parse_ident_label(&line) {
                        Ok((name, label, shape)) => {
                            proof {
                                lemma_find_model(g.nodes@, name@, 0);
                            }
                            let id = add_ident(&mut g, &name, &label, shape);
                            let ghost after_add = g.nodes@;
                            if let Some(s) = sg {
                                g.nodes[id].subgraph = Some(s);
                                proof {
                                    assert forall|k: int| 0 <= k < g.nodes.len() implies (#[trigger] g.nodes@[k]).id
                                        == k && (g.nodes@[k].subgraph matches Some(t) ==> t
                                        < g.subgraphs.len()) by {}
                                }
                            }
                            proof {
                                assert forall|k: int| 0 <= k < after_add.len() implies (#[trigger] g.nodes@[k]).name@ == after_add[k].name@ by {}
                                assert(node_names(g.nodes@) =~= node_names(after_add));
                                assert(node_models(g.nodes@) =~= node_models(after_add));
                                assert(ref_model(line@) == NodeModel { name: name@, lines: br_lines(label@), shape });
                                assert(node_subgraphs(g.nodes@) =~= ref_subs(
                                    node_models(g_before.nodes@),
                                    node_subgraphs(g_before.nodes@),
                                    ref_model(line@),
                                    sg,
                                    true,
                                ));
                                assert(names_kept(g_before.nodes@, g.nodes@));
                                lemma_edges_are_names(g_before.nodes@, g.nodes@, g.edges@, 0, prev.1);
                                assert(name@ == ident_name(line@));
                            }
                            Ok(())
                        },
                        Err(e) => Err(e),
                    }
                };
                match result {
                    Ok(()) => {},
                    Err(e) => {
                        return Err(numbered_error(i + 1, &e));
                    },
                }
            },
        }
        proof {
            assert(trimmed(L[i as int]) == line@);
            assert(L.take(i + 1).drop_last() == L.take(i as int));
            assert forall|k: int| 0 <= k < sg_stack.len() implies #[trigger] sg_stack@[k] < g.subgraphs.len() by {}
            if line_kind(line@) is Content {
                assert(content_before(L, i + 1)) by {
                    assert(line_kind(trimmed(L[i as int])) is Content);
                }
            } else {
                if content_before(L, i + 1) {
                    let j = choose|j: int| 0 <= j < i + 1 && #[trigger] line_kind(trimmed(L[j])) is Content;
                    assert(j < i);
                    assert(content_before(L, i as int));
                }
            }
        }
        i += 1;
    }
    let ghost g_pre = g;
    apply_directives(&mut g, &dirs);
    proof {
        assert forall|k: int| 0 <= k < g_pre.nodes.len() implies (#[trigger] g.nodes@[k]).name@ == g_pre.nodes@[k].name@ by {
            assert(node_names(g.nodes@)[k] == node_names(g_pre.nodes@)[k]);
        }
        lemma_edges_are_names(g_pre.nodes@, g.nodes@, g.edges@, 0, doc_graph(L, lines.len() as int).1);
        assert forall|k: int| 0 <= k < g.nodes.len() implies (#[trigger] g.nodes@[k]).style == directed_style(
            empty_style(),
            g.nodes@[k].name@,
            class_uses_before(L, lines.len() as int),
            style_uses_before(L, lines.len() as int),
            class_defs_before(L, lines.len() as int),
        ) by {
            assert(g_pre.nodes@[k].style == empty_style());
            assert(node_names(g.nodes@)[k] == node_names(g_pre.nodes@)[k]);
        }
    }
    if g.nodes.len() == 0 {
        return Err(String::from_str("no nodes found"));
    }
    Ok(g)
}

spec fn old_sub(v: Seq<Subgraph>, j: int) -> Subgraph {
    v[j]
}

/// Applies the deferred `class` and `style` directives to the named nodes.
fn apply_directives(g: &mut Graph, dirs: &Directives)
    requires
        old(g).wf(),
        all_real(*old(g)),
    ensures
        final(g).wf(),
        all_real(*final(g)),
        final(g).nodes.len() == old(g).nodes.len(),
        final(g).dir == old(g).dir,
        final(g).subgraphs@ == old(g).subgraphs@,
        final(g).class_defs@ == old(g).class_defs@,
        final(g).edges@ == old(g).edges@,
        node_names(final(g).nodes@) == node_names(old(g).nodes@),
        node_models(final(g).nodes@) == node_models(old(g).nodes@),
        node_subgraphs(final(g).nodes@) == node_subgraphs(old(g).nodes@),
        unplaced(old(g).nodes@) ==> unplaced(final(g).nodes@),
        forall|i: int|
            0 <= i < final(g).nodes.len() ==> (#[trigger] final(g).nodes@[i]).style == directed_style(
                old(g).nodes@[i].style,
                old(g).nodes@[i].name@,
                class_uses_view(dirs.class_uses@),
                style_uses_view(dirs.style_uses@),
                defs_view(old(g).class_defs@),
            ),
{
    let ghost cu = class_uses_view(dirs.class_uses@);
    let ghost su = style_uses_view(dirs.style_uses@);
    let ghost defs = defs_view(old(g).class_defs@);
    let ghost g0 = *g;
    let mut a: usize = 0;
    while a < dirs.class_uses.len()
        invariant
            a <= dirs.class_uses.len(),
            g.wf(),
            all_real(*g),
            g.nodes.len() == old(g).nodes.len(),
            g.dir == old(g).dir,
            g.subgraphs@ == old(g).subgraphs@,
            g.class_defs@ == old(g).class_defs@,
            g.edges@ == old(g).edges@,
            node_names(g.nodes@) == node_names(old(g).nodes@),
            node_models(g.nodes@) == node_models(old(g).nodes@),
            node_subgraphs(g.nodes@) == node_subgraphs(old(g).nodes@),
            unplaced(old(g).nodes@) ==> unplaced(g.nodes@),
            cu == class_uses_view(dirs.class_uses@),
            defs == defs_view(old(g).class_defs@),
            g0 == *old(g),
            forall|i: int|
                0 <= i < g.nodes.len() ==> (#[trigger] g.nodes@[i]).style == after_classes(
                    g0.nodes@[i].style,
                    g0.nodes@[i].name@,
                    cu,
                    defs,
                    a as int,
                ),
        decreases dirs.class_uses.len() - a,
    {
        let (nodes, class_name) = &dirs.class_uses[a];
        assert(cu[a as int] == (chars_view(nodes@), class_name@));
        let class_s = string_of(class_name);
        proof {
            lemma_class_of(g.class_defs@, class_s@, g.class_defs.len() as int);
        }
        match lookup_class(&g.class_defs, &class_s) {
            None => {},
            Some(style) => {
                let ghost names = chars_view(nodes@);
                assert(names.take(0) =~= Seq::<Seq<char>>::empty());
                let mut k: usize = 0;
                while k < nodes.len()
                    invariant
                        k <= nodes.len(),
                        g.wf(),
                        all_real(*g),
                        g.nodes.len() == old(g).nodes.len(),
                        g.dir == old(g).dir,
                        g.subgraphs@ == old(g).subgraphs@,
                        g.class_defs@ == old(g).class_defs@,
                        g.edges@ == old(g).edges@,
                        node_names(g.nodes@) == node_names(old(g).nodes@),
                        node_models(g.nodes@) == node_models(old(g).nodes@),
                        node_subgraphs(g.nodes@) == node_subgraphs(old(g).nodes@),
                        unplaced(old(g).nodes@) ==> unplaced(g.nodes@),
                        names == chars_view(nodes@),
                        g0 == *old(g),
                        forall|i: int|
                            0 <= i < g.nodes.len() ==> (#[trigger] g.nodes@[i]).style == (if names.take(k as int).contains(g0.nodes@[i].name@) {
                                merged(after_classes(g0.nodes@[i].style, g0.nodes@[i].name@, cu, defs, a as int), style)
                            } else {
                                after_classes(g0.nodes@[i].style, g0.nodes@[i].name@, cu, defs, a as int)
                            }),
                    decreases nodes.len() - k,
                {
                    let name = string_of(&nodes[k]);
                    assert(names[k as int] == name@);
                    let ghost before = g.nodes@;
                    let ghost gb = *g;
                    proof {
                        lemma_names_find(before, name@);
                        crate::graph::lemma_find_named_some(before, name@, 0);
                    }
                    restyle(g, &name, style);
                    proof {
                        assert(names.take(k + 1) =~= names.take(k as int).push(name@));
                        assert forall|i: int| 0 <= i < g.nodes.len() implies (#[trigger] g.nodes@[i]).style == (if names.take(k + 1).contains(g0.nodes@[i].name@) {
                            merged(after_classes(g0.nodes@[i].style, g0.nodes@[i].name@, cu, defs, a as int), style)
                        } else {
                            after_classes(g0.nodes@[i].style, g0.nodes@[i].name@, cu, defs, a as int)
                        }) by {
                            let nm = g0.nodes@[i].name@;
                            assert(node_names(before)[i] == nm);
                            assert(before[i].name@ == nm);
                            let base = after_classes(g0.nodes@[i].style, nm, cu, defs, a as int);
                            match find_named(before, name@, 0) {
                                Some(id) => {
                                    if i == id {
                                        lemma_merged_idem(base, style);
                                        assert(names.take(k + 1).contains(nm)) by {
                                            assert(names.take(k + 1)[k as int] == nm);
                                        }
                                    } else {
                                        assert(g.nodes@[i] == before[i]);
                                        assert(nm != name@) by {
                                            assert(gb.wf() && all_real(gb) && gb.nodes@ == before);
                                            assert(!before[i].is_dummy);
                                            if nm == name@ {
                                                assert(before[i].name@ == before[id].name@);
                                            }
                                        }
                                        if names.take(k + 1).contains(nm) {
                                            let q = choose|q: int| 0 <= q < names.take(k + 1).len() && #[trigger] names.take(k + 1)[q] == nm;
                                            assert(names.take(k as int)[q] == nm);
                                        }
                                    }
                                },
                                None => {
                                    assert(g.nodes@[i] == before[i]);
                                    assert(nm != name@) by {
                                        assert(node_names(before).contains(nm)) by {
                                            assert(node_names(before)[i] == nm);
                                        }
                                    }
                                    if names.take(k + 1).contains(nm) {
                                        let q = choose|q: int| 0 <= q < names.take(k + 1).len() && #[trigger] names.take(k + 1)[q] == nm;
                                        assert(names.take(k as int)[q] == nm);
                                    }
                                },
                            }
                        }
                    }
                    k += 1;
                }
                proof {
                    assert(names.take(k as int) =~= names);
                }
            },
        }
        a += 1;
    }
    let ghost g1 = *g;
    let mut b: usize = 0;
    while b < dirs.style_uses.len()
        invariant
            b <= dirs.style_uses.len(),
            g.wf(),
            all_real(*g),
            g.nodes.len() == old(g).nodes.len(),
            g.dir == old(g).dir,
            g.subgraphs@ == old(g).subgraphs@,
            g.class_defs@ == old(g).class_defs@,
            g.edges@ == old(g).edges@,
            node_names(g.nodes@) == node_names(old(g).nodes@),
            node_models(g.nodes@) == node_models(old(g).nodes@),
            node_subgraphs(g.nodes@) == node_subgraphs(old(g).nodes@),
            unplaced(old(g).nodes@) ==> unplaced(g.nodes@),
            su == style_uses_view(dirs.style_uses@),
            g0 == *old(g),
            forall|i: int|
                0 <= i < g.nodes.len() ==> (#[trigger] g.nodes@[i]).style == after_styles(
                    after_classes(g0.nodes@[i].style, g0.nodes@[i].name@, cu, defs, cu.len() as int),
                    g0.nodes@[i].name@,
                    su,
                    b as int,
                ),
        decreases dirs.style_uses.len() - b,
    {
        let (node, style) = &dirs.style_uses[b];
        assert(su[b as int] == (node@, *style));
        let name = string_of(node);
        let ghost before = g.nodes@;
        let ghost gb = *g;
        proof {
            lemma_names_find(before, name@);
            crate::graph::lemma_find_named_some(before, name@, 0);
        }
        restyle(g, &name, *style);
        proof {
            assert forall|i: int| 0 <= i < g.nodes.len() implies (#[trigger] g.nodes@[i]).style == after_styles(
                after_classes(g0.nodes@[i].style, g0.nodes@[i].name@, cu, defs, cu.len() as int),
                g0.nodes@[i].name@,
                su,
                b + 1,
            ) by {
                let nm = g0.nodes@[i].name@;
                assert(node_names(before)[i] == nm);
                match find_named(before, name@, 0) {
                    Some(id) => {
                        if i != id {
                            assert(g.nodes@[i] == before[i]);
                            assert(nm != name@) by {
                                assert(gb.wf() && all_real(gb) && gb.nodes@ == before);
                                assert(!before[i].is_dummy);
                                if nm == name@ {
                                    assert(before[i].name@ == before[id].name@);
                                }
                            }
                        }
                    },
                    None => {
                        assert(g.nodes@[i] == before[i]);
                        assert(nm != name@) by {
                            assert(node_names(before).contains(nm)) by {
                                assert(node_names(before)[i] == nm);
                            }
                        }
                    },
                }
            }
        }
        b += 1;
    }
}

/// The style most recently defined under `name`.
pub open spec fn class_style(defs: Seq<(String, Style)>, name: Seq<char>, n: int) -> Option<Style>
    decreases n,
{
    if n <= 0 {
        None
    } else if defs[n - 1].0@ == name {
        Some(defs[n - 1].1)
    } else {
        class_style(defs, name, n - 1)
    }
}

fn lookup_class(defs: &Vec<(String, Style)>, name: &String) -> (r: Option<Style>)
    ensures
        r == class_style(defs@, name@, defs.len() as int),
{
    let mut n = defs.len();
    while n > 0
        invariant
            n <= defs.len(),
            class_style(defs@, name@, defs.len() as int) == class_style(defs@, name@, n as int),
        decreases n,
    {
        if defs[n - 1].0 == *name {
            return Some(defs[n - 1].1);
        }
        n -= 1;
    }
    None
}

/// Merges `style` into the node named `name`, if there is one.
fn restyle(g: &mut Graph, name: &String, style: Style)
    requires
        old(g).wf(),
        all_real(*old(g)),
    ensures
        final(g).wf(),
        all_real(*final(g)),
        final(g).nodes.len() == old(g).nodes.len(),
        final(g).dir == old(g).dir,
        final(g).subgraphs@ == old(g).subgraphs@,
        final(g).class_defs@ == old(g).class_defs@,
        final(g).edges@ == old(g).edges@,
        match find_named(old(g).nodes@, name@, 0) {
            Some(id) => final(g).nodes@[id].style == merged(old(g).nodes@[id].style, style) && forall|
                k: int,
            |
                0 <= k < old(g).nodes.len() && k != id ==> final(g).nodes@[k] == old(g).nodes@[k],
            None => final(g).nodes@ == old(g).nodes@,
        },
        node_names(final(g).nodes@) == node_names(old(g).nodes@),
        node_models(final(g).nodes@) == node_models(old(g).nodes@),
        node_subgraphs(final(g).nodes@) == node_subgraphs(old(g).nodes@),
        unplaced(old(g).nodes@) ==> unplaced(final(g).nodes@),
{
    proof {
        crate::graph::lemma_find_named_some(g.nodes@, name@, 0);
    }
    match g.id_of(name) {
        Some(id) => {
            let st = merge_style(g.nodes[id].style, style);
            g.nodes[id].style = st;
            proof {
                assert(node_names(g.nodes@) =~= node_names(old(g).nodes@));
                assert(node_models(g.nodes@) =~= node_models(old(g).nodes@));
                assert(node_subgraphs(g.nodes@) =~= node_subgraphs(old(g).nodes@));
                assert forall|i: int, j: int|
                    0 <= i < g.nodes.len() && 0 <= j < g.nodes.len() && !g.nodes@[i].is_dummy
                        && !g.nodes@[j].is_dummy && #[trigger] g.nodes@[i].name@
                        == #[trigger] g.nodes@[j].name@ implies i == j by {
                    assert(g.nodes@[i].name@ == old(g).nodes@[i].name@);
                    assert(g.nodes@[j].name@ == old(g).nodes@[j].name@);
                }
                assert forall|k: int| 0 <= k < g.nodes.len() implies !(#[trigger] g.nodes@[k]).is_dummy by {
                    assert(g.nodes@[k].is_dummy == old(g).nodes@[k].is_dummy);
                }
            }
        },
        None => {},
    }
}

} // verus!
