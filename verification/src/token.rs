//! The token alphabet of the markup language, its ghost-level view, and the
//! errors a scan can end in.

use vstd::prelude::*;

verus! {

/// An RGBA color with 8-bit channels.
#[derive(Debug, Clone, Copy, PartialEq, Eq, Structural)]
pub struct Rgba {
    pub r: u8,
    pub g: u8,
    pub b: u8,
    pub a: u8,
}

/// Opaque white, the color every render pass starts from.
pub open spec fn spec_white() -> Rgba {
    Rgba { r: 255, g: 255, b: 255, a: 255 }
}

/// Opaque black, the background of every frame.
pub open spec fn spec_black() -> Rgba {
    Rgba { r: 0, g: 0, b: 0, a: 255 }
}

/// One atomic unit of parsed markup. Order of tokens is significant: it is
/// both the text layout order and the animation playback order.
#[derive(Debug, Clone, PartialEq)]
pub enum BiOSToken {
    /// A single printable character, including the escape character itself
    /// when it does not introduce a recognized command.
    Char(char),
    /// A literal run of text drawn as a unit in a single animation step.
    Instant(String),
    /// Sets the active draw color for everything rendered afterwards.
    ColorStart(Rgba),
    /// Holds the current visual state for the given number of extra frames.
    Pause(usize),
    /// A line break.
    Newline,
}

/// The mathematical shape of a token: strings become character sequences.
pub enum TokView {
    Char(char),
    Instant(Seq<char>),
    ColorStart(Rgba),
    Pause(usize),
    Newline,
}

impl View for BiOSToken {
    type V = TokView;

    open spec fn view(&self) -> TokView {
        match self {
            BiOSToken::Char(c) => TokView::Char(*c),
            BiOSToken::Instant(s) => TokView::Instant(s@),
            BiOSToken::ColorStart(c) => TokView::ColorStart(*c),
            BiOSToken::Pause(n) => TokView::Pause(*n),
            BiOSToken::Newline => TokView::Newline,
        }
    }
}

/// The view of a whole token sequence.
pub open spec fn toks_view(ts: Seq<BiOSToken>) -> Seq<TokView> {
    ts.map_values(|t: BiOSToken| t@)
}

pub proof fn lemma_toks_view_push(ts: Seq<BiOSToken>, t: BiOSToken)
    ensures
        toks_view(ts.push(t)) == toks_view(ts).push(t@),
{
    assert(toks_view(ts.push(t)) =~= toks_view(ts).push(t@));
}

/// The fatal conditions a scan can run into. Each names the stage that
/// failed and what was expected there.
#[derive(Debug, Clone, Copy, PartialEq, Eq, Structural)]
pub enum ScanError {
    /// A color component was not a decimal number between 0 and 255.
    InvalidColorComponent,
    /// A comma-separated color body had neither 3 nor 4 components.
    WrongColorComponentCount,
    /// A color body without separator was none of the recognized names.
    InvalidColorName,
    /// A pause body was not a decimal non-negative integer that fits the
    /// machine's word size.
    InvalidPauseCount,
}

} // verus!
