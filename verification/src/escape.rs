use vstd::prelude::*;
use crate::colour::RGB;
use crate::decimal::decimal_text;

verus! {

/// The true-colour escape sequence `ESC [ <lead>8;2;<r>;<g>;<b> m`, where `lead`
/// is `'3'` for the foreground and `'4'` for the background.
pub open spec fn truecolour_escape(lead: char, r: u8, g: u8, b: u8) -> Seq<char> {
    seq!['\u{1b}', '[', lead, '8', ';', '2', ';'] + decimal_text(r) + seq![';'] + decimal_text(g)
        + seq![';'] + decimal_text(b) + seq!['m']
}

/// The sequence that sets the foreground to `c`.
pub open spec fn fg_escape(c: RGB) -> Seq<char> {
    truecolour_escape('3', c.r, c.g, c.b)
}

/// The sequence that sets the background to `c`.
pub open spec fn bg_escape(c: RGB) -> Seq<char> {
    truecolour_escape('4', c.r, c.g, c.b)
}

/// Displays termion's `Fg(Rgb(r, g, b))`. termion 1.5.6 writes it as
/// `Rgb::fg_string`, the concatenation of `ESC [38;2;`, the three channels in
/// decimal (numtoa, no leading zeros) separated by `;`, and `m`; the contract
/// states that text.
#[verifier::external_body]
pub(crate) fn fg_sequence(r: u8, g: u8, b: u8) -> (s: String)
    ensures
        s@ == truecolour_escape('3', r, g, b),
{
    termion::color::Fg(termion::color::Rgb(r, g, b)).to_string()
}

/// Displays termion's `Bg(Rgb(r, g, b))`. termion 1.5.6 writes it as
/// `Rgb::bg_string`: `ESC [48;2;`, the three channels in decimal separated by
/// `;`, and `m`; the contract states that text.
#[verifier::external_body]
pub(crate) fn bg_sequence(r: u8, g: u8, b: u8) -> (s: String)
    ensures
        s@ == truecolour_escape('4', r, g, b),
{
    termion::color::Bg(termion::color::Rgb(r, g, b)).to_string()
}

} // verus!
