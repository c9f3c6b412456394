//! Terminal colours, through the `colored` crate.
//!
//! Whether `colored` emits escape sequences is decided outside the arguments
//! (by `colored::control`: a manual override, else the environment), so every
//! painted string is either the text unchanged or the text between the
//! style's opening sequence and the reset sequence `ESC[0m` (see `painted`).
use vstd::prelude::*;
use colored::{Colorize, Styles};

verus! {

/// The reset sequence `ESC [ 0 m`.
pub open spec fn reset_code() -> Seq<char> {
    seq!['\x1b', '[', '0', 'm']
}

/// `s` holds the reset sequence somewhere.
pub open spec fn has_reset(s: Seq<char>) -> bool {
    exists|i: int| 0 <= i && i + 4 <= s.len() && #[trigger] s.subrange(i, i + 4) == reset_code()
}

/// `r` is `s` painted with the opening sequence `code`: either `s` unchanged
/// (colours off), or the painted text ending in the reset sequence.  Where
/// `s` holds no reset sequence of its own, the painted text is `code`, then
/// `s`, then the reset sequence; `colored` reads its colour setting more than
/// once while it shows a string, so where that setting changes meanwhile the
/// opening sequence may be missing.  A reset sequence inside `s` is followed
/// by the opening sequence again, which is left unsaid here.
pub open spec fn painted(code: Seq<char>, s: Seq<char>, r: Seq<char>) -> bool {
    ||| r == s
    ||| {
        &&& 4 <= r.len()
        &&& r.subrange(r.len() - 4, r.len() as int) == reset_code()
        &&& !has_reset(s) ==> (r == code + s + reset_code() || r == s + reset_code())
    }
}

/// The styles that the viewer paints with.
#[derive(Debug, Clone, Copy)]
pub enum Tint {
    Dimmed,
    Normal,
    Cyan,
    Yellow,
    RedBold,
    MagentaBold,
    Bold,
}

/// The opening escape sequence of a tint.
pub open spec fn tint_code(t: Tint) -> Seq<char> {
    match t {
        Tint::Dimmed => seq!['\x1b', '[', '2', 'm'],
        Tint::Normal => Seq::empty(),
        Tint::Cyan => seq!['\x1b', '[', '3', '6', 'm'],
        Tint::Yellow => seq!['\x1b', '[', '3', '3', 'm'],
        Tint::RedBold => seq!['\x1b', '[', '1', ';', '3', '1', 'm'],
        Tint::MagentaBold => seq!['\x1b', '[', '1', ';', '3', '5', 'm'],
        Tint::Bold => seq!['\x1b', '[', '1', 'm'],
    }
}

/// What `colored` records on a coloured string, whether or not colours are
/// on: the code of its foreground colour, if it has one, and whether it is
/// bold and whether dimmed.
#[derive(Debug)]
pub struct Look {
    pub fg: Option<String>,
    pub bold: bool,
    pub dimmed: bool,
}

/// A painted text, with the look that `colored` recorded for it.
#[derive(Debug)]
pub struct Painted {
    pub text: String,
    pub look: Look,
}

/// `look` is the look of tint `t`.
pub open spec fn has_look(look: Look, t: Tint) -> bool {
    let fg = match t {
        Tint::Cyan => Some(seq!['3', '6']),
        Tint::Yellow => Some(seq!['3', '3']),
        Tint::RedBold => Some(seq!['3', '1']),
        Tint::MagentaBold => Some(seq!['3', '5']),
        _ => None,
    };
    let bold = match t {
        Tint::RedBold | Tint::MagentaBold | Tint::Bold => true,
        _ => false,
    };
    &&& match look.fg {
        Some(code) => fg == Some(code@),
        None => fg is None,
    }
    &&& look.bold == bold
    &&& look.dimmed == (t == Tint::Dimmed)
}

/// `p` is `s` painted with tint `t`: `colored` recorded the tint's look,
/// and the text is `s` painted with it.
pub open spec fn painted_with(t: Tint, s: Seq<char>, p: Painted) -> bool {
    has_look(p.look, t) && tinted(t, s, p.text@)
}

/// `r` is `s` painted with tint `t`; `Normal` never changes the text.
pub open spec fn tinted(t: Tint, s: Seq<char>, r: Seq<char>) -> bool {
    match t {
        Tint::Normal => r == s,
        _ => painted(tint_code(t), s, r),
    }
}

/// `colored`'s `dimmed`: the text, or the text between `ESC[2m` and
/// `ESC[0m` when colours are on; no colour, dimmed.  The look is read off the
/// `ColoredString` (`fgcolor`, `style`); the text is its `to_string`.
#[verifier::external_body]
fn paint_dimmed(s: &str) -> (r: Painted)
    ensures
        painted_with(Tint::Dimmed, s@, r),
{
    let c = s.dimmed();
    let fg = match c.fgcolor {
        Some(k) => Some(k.to_fg_str().into_owned()),
        None => None,
    };
    let look = Look { fg, bold: c.style.contains(Styles::Bold), dimmed: c.style.contains(Styles::Dimmed) };
    Painted { text: c.to_string(), look }
}

/// `colored`'s `normal`: it clears every style, and a plain coloured string
/// shows as its text alone; no colour, neither bold nor dimmed.  The look is read off the
/// `ColoredString` (`fgcolor`, `style`); the text is its `to_string`.
#[verifier::external_body]
fn paint_normal(s: &str) -> (r: Painted)
    ensures
        r.text@ == s@,
        has_look(r.look, Tint::Normal),
{
    let c = s.normal();
    let fg = match c.fgcolor {
        Some(k) => Some(k.to_fg_str().into_owned()),
        None => None,
    };
    let look = Look { fg, bold: c.style.contains(Styles::Bold), dimmed: c.style.contains(Styles::Dimmed) };
    Painted { text: c.to_string(), look }
}

/// `colored`'s `cyan`: the text, or the text between `ESC[36m` and `ESC[0m`
/// when colours are on; colour code `36`.  The look is read off the
/// `ColoredString` (`fgcolor`, `style`); the text is its `to_string`.
#[verifier::external_body]
fn paint_cyan(s: &str) -> (r: Painted)
    ensures
        painted_with(Tint::Cyan, s@, r),
{
    let c = s.cyan();
    let fg = match c.fgcolor {
        Some(k) => Some(k.to_fg_str().into_owned()),
        None => None,
    };
    let look = Look { fg, bold: c.style.contains(Styles::Bold), dimmed: c.style.contains(Styles::Dimmed) };
    Painted { text: c.to_string(), look }
}

/// `colored`'s `yellow`: the text, or the text between `ESC[33m` and
/// `ESC[0m` when colours are on; colour code `33`.  The look is read off the
/// `ColoredString` (`fgcolor`, `style`); the text is its `to_string`.
#[verifier::external_body]
fn paint_yellow(s: &str) -> (r: Painted)
    ensures
        painted_with(Tint::Yellow, s@, r),
{
    let c = s.yellow();
    let fg = match c.fgcolor {
        Some(k) => Some(k.to_fg_str().into_owned()),
        None => None,
    };
    let look = Look { fg, bold: c.style.contains(Styles::Bold), dimmed: c.style.contains(Styles::Dimmed) };
    Painted { text: c.to_string(), look }
}

/// `colored`'s `red` then `bold`: the text, or the text between `ESC[1;31m`
/// and `ESC[0m` when colours are on; colour code `31`, bold.  The look is read off the
/// `ColoredString` (`fgcolor`, `style`); the text is its `to_string`.
#[verifier::external_body]
fn paint_red_bold(s: &str) -> (r: Painted)
    ensures
        painted_with(Tint::RedBold, s@, r),
{
    let c = s.red().bold();
    let fg = match c.fgcolor {
        Some(k) => Some(k.to_fg_str().into_owned()),
        None => None,
    };
    let look = Look { fg, bold: c.style.contains(Styles::Bold), dimmed: c.style.contains(Styles::Dimmed) };
    Painted { text: c.to_string(), look }
}

/// `colored`'s `magenta` then `bold`: the text, or the text between
/// `ESC[1;35m` and `ESC[0m` when colours are on; colour code `35`, bold.  The look is read off the
/// `ColoredString` (`fgcolor`, `style`); the text is its `to_string`.
#[verifier::external_body]
fn paint_magenta_bold(s: &str) -> (r: Painted)
    ensures
        painted_with(Tint::MagentaBold, s@, r),
{
    let c = s.magenta().bold();
    let fg = match c.fgcolor {
        Some(k) => Some(k.to_fg_str().into_owned()),
        None => None,
    };
    let look = Look { fg, bold: c.style.contains(Styles::Bold), dimmed: c.style.contains(Styles::Dimmed) };
    Painted { text: c.to_string(), look }
}

/// `colored`'s `bold`: the text, or the text between `ESC[1m` and `ESC[0m`
/// when colours are on; no colour, bold.  The look is read off the
/// `ColoredString` (`fgcolor`, `style`); the text is its `to_string`.
#[verifier::external_body]
fn paint_bold(s: &str) -> (r: Painted)
    ensures
        painted_with(Tint::Bold, s@, r),
{
    let c = s.bold();
    let fg = match c.fgcolor {
        Some(k) => Some(k.to_fg_str().into_owned()),
        None => None,
    };
    let look = Look { fg, bold: c.style.contains(Styles::Bold), dimmed: c.style.contains(Styles::Dimmed) };
    Painted { text: c.to_string(), look }
}

/// Paints `s` with tint `t`.
pub fn paint(s: &str, t: Tint) -> (r: Painted)
    ensures
        painted_with(t, s@, r),
{
    match t {
        Tint::Dimmed => paint_dimmed(s),
        Tint::Normal => paint_normal(s),
        Tint::Cyan => paint_cyan(s),
        Tint::Yellow => paint_yellow(s),
        Tint::RedBold => paint_red_bold(s),
        Tint::MagentaBold => paint_magenta_bold(s),
        Tint::Bold => paint_bold(s),
    }
}

} // verus!
