//! Styles of text on a terminal. Whether a style shows depends on the
//! terminal and on the environment, so a painted text is either the text
//! itself or the text between the escape sequences of its style, with the
//! style switched on again wherever the text itself switches it off.

use colored::Colorize;
use vstd::prelude::*;

verus! {

/// How a piece of text is painted.
#[derive(Clone, Copy, PartialEq, Eq, Debug, Structural)]
pub enum Style {
    Plain,
    Dimmed,
    BoldDimmed,
    Red,
    Yellow,
    Green,
    BlackOnYellow,
    BlackOnGreen,
    WhiteOnRed,
    OnBrightGreen,
    OnBlack,
}

/// The character that starts an escape sequence.
pub open spec fn escape() -> char {
    '\x1B'
}

/// The escape sequence that switches the attributes `code` on.
pub open spec fn ansi_opening(code: Seq<char>) -> Seq<char> {
    seq![escape(), '['] + code + seq!['m']
}

/// The escape sequence that switches all attributes off.
pub open spec fn ansi_reset() -> Seq<char> {
    seq![escape(), '[', '0', 'm']
}

/// The text between the escape sequence that switches the attributes `code`
/// on and the one that switches all attributes off.
pub open spec fn ansi_wrapped(code: Seq<char>, text: Seq<char>) -> Seq<char> {
    ansi_opening(code) + text + ansi_reset()
}

/// Whether the sequence that switches all attributes off stands somewhere
/// in `text`.
pub open spec fn holds_reset(text: Seq<char>) -> bool {
    exists|i: int|
        0 <= i && i + 4 <= text.len() && #[trigger] text.subrange(i, i + 4) == ansi_reset()
}

/// `text` with the attributes `code` switched on again behind each sequence
/// in it that switches all attributes off.
pub open spec fn restyled(code: Seq<char>, text: Seq<char>) -> Seq<char>
    decreases text.len(),
{
    if text.len() < 4 {
        text
    } else if text.subrange(0, 4) == ansi_reset() {
        ansi_reset() + ansi_opening(code) + restyled(code, text.subrange(4, text.len() as int))
    } else {
        seq![text[0]] + restyled(code, text.subrange(1, text.len() as int))
    }
}

/// A text that nowhere switches the attributes off is left as it is.
pub proof fn lemma_restyled_plain(code: Seq<char>, text: Seq<char>)
    requires
        !holds_reset(text),
    ensures
        restyled(code, text) == text,
    decreases text.len(),
{
    if text.len() >= 4 {
        let rest = text.subrange(1, text.len() as int);
        assert(text.subrange(0int, 0int + 4) != ansi_reset());
        assert forall|i: int| 0 <= i && i + 4 <= rest.len() implies #[trigger] rest.subrange(
            i,
            i + 4,
        ) != ansi_reset() by {
            assert(rest.subrange(i, i + 4) =~= text.subrange(i + 1, i + 1 + 4));
        }
        lemma_restyled_plain(code, rest);
        assert(seq![text[0]] + rest =~= text);
    }
}

/// Whether `out` is `text` painted with the attributes `code`. Where
/// styles are off it is the text as it is. Where they are on it is the text
/// between the escape sequences, with the attributes switched on again
/// behind each sequence of the text that switches them off. Where styles
/// are switched on or off while the text is painted, the opening sequence,
/// the switching on again, or both may be left out; the closing sequence
/// then still stands at the end.
pub open spec fn is_painting(code: Seq<char>, text: Seq<char>, out: Seq<char>) -> bool {
    ||| out == text
    ||| out == ansi_wrapped(code, restyled(code, text))
    ||| out == ansi_wrapped(code, text)
    ||| out == restyled(code, text) + ansi_reset()
    ||| out == text + ansi_reset()
}

/// The painting of a text that nowhere switches the attributes off: the
/// text as it is, the text between the escape sequences, or the text
/// before the closing sequence.
pub proof fn lemma_painting_plain(code: Seq<char>, text: Seq<char>, out: Seq<char>)
    requires
        is_painting(code, text, out),
        !holds_reset(text),
    ensures
        out == text || out == ansi_wrapped(code, text) || out == text + ansi_reset(),
{
    lemma_restyled_plain(code, text);
}

/// The attributes of a style, as they stand in its escape sequence.
pub open spec fn style_code(style: Style) -> Seq<char> {
    match style {
        Style::Plain => Seq::<char>::empty(),
        Style::Dimmed => seq!['2'],
        Style::BoldDimmed => seq!['1', ';', '2'],
        Style::Red => seq!['3', '1'],
        Style::Yellow => seq!['3', '3'],
        Style::Green => seq!['3', '2'],
        Style::BlackOnYellow => seq!['4', '3', ';', '3', '0'],
        Style::BlackOnGreen => seq!['4', '2', ';', '3', '0'],
        Style::WhiteOnRed => seq!['4', '1', ';', '3', '7'],
        Style::OnBrightGreen => seq!['1', '0', '2'],
        Style::OnBlack => seq!['4', '0'],
    }
}

/// Whether `out` is `text` painted in `style`. Plain text is left as it is.
pub open spec fn is_styled(style: Style, text: Seq<char>, out: Seq<char>) -> bool {
    if style == Style::Plain {
        out == text
    } else {
        is_painting(style_code(style), text, out)
    }
}

/// Trusted: `colored`'s `dimmed`, shown as a string. `colored` asks its
/// switch whether colors are on when it starts to write, when it looks for
/// `ESC[0m` in the text, and each time it makes the opening sequence. The
/// string is the text itself where they are off. Where they are on it is
/// the text between `ESC[2m` and `ESC[0m`, with `ESC[2m` put in behind each
/// `ESC[0m` of the text. Where the switch changes in between, the opening
/// sequence or the ones put in are left out. All the wrappers below are of
/// this form and differ in the attributes.
#[verifier::external_body]
fn dimmed(text: &str) -> (s: String)
    ensures
        is_painting(seq!['2'], text@, s@),
{
    text.dimmed().to_string()
}

/// Trusted: `colored`'s `bold` and `dimmed` together give the attributes
/// `1;2`.
#[verifier::external_body]
fn bold_dimmed(text: &str) -> (s: String)
    ensures
        is_painting(seq!['1', ';', '2'], text@, s@),
{
    text.bold().dimmed().to_string()
}

/// Trusted: `colored`'s `red` gives the attribute `31`.
#[verifier::external_body]
fn red(text: &str) -> (s: String)
    ensures
        is_painting(seq!['3', '1'], text@, s@),
{
    text.red().to_string()
}

/// Trusted: `colored`'s `yellow` gives the attribute `33`.
#[verifier::external_body]
fn yellow(text: &str) -> (s: String)
    ensures
        is_painting(seq!['3', '3'], text@, s@),
{
    text.yellow().to_string()
}

/// Trusted: `colored`'s `green` gives the attribute `32`.
#[verifier::external_body]
fn green(text: &str) -> (s: String)
    ensures
        is_painting(seq!['3', '2'], text@, s@),
{
    text.green().to_string()
}

/// Trusted: `colored`'s `black` on `on_yellow` gives the attributes `43;30`,
/// the background first.
#[verifier::external_body]
fn black_on_yellow(text: &str) -> (s: String)
    ensures
        is_painting(seq!['4', '3', ';', '3', '0'], text@, s@),
{
    text.black().on_yellow().to_string()
}

/// Trusted: `colored`'s `black` on `on_green` gives the attributes `42;30`.
#[verifier::external_body]
fn black_on_green(text: &str) -> (s: String)
    ensures
        is_painting(seq!['4', '2', ';', '3', '0'], text@, s@),
{
    text.black().on_green().to_string()
}

/// Trusted: `colored`'s `white` on `on_red` gives the attributes `41;37`.
#[verifier::external_body]
fn white_on_red(text: &str) -> (s: String)
    ensures
        is_painting(seq!['4', '1', ';', '3', '7'], text@, s@),
{
    text.white().on_red().to_string()
}

/// Trusted: `colored`'s `on_bright_green` gives the attribute `102`.
#[verifier::external_body]
fn on_bright_green(text: &str) -> (s: String)
    ensures
        is_painting(seq!['1', '0', '2'], text@, s@),
{
    text.on_bright_green().to_string()
}

/// Trusted: `colored`'s `on_black` gives the attribute `40`.
#[verifier::external_body]
fn on_black(text: &str) -> (s: String)
    ensures
        is_painting(seq!['4', '0'], text@, s@),
{
    text.on_black().to_string()
}

/// The text painted in a style.
pub fn paint(text: &str, style: Style) -> (s: String)
    ensures
        is_styled(style, text@, s@),
{
    match style {
        Style::Plain => text.to_owned(),
        Style::Dimmed => dimmed(text),
        Style::BoldDimmed => bold_dimmed(text),
        Style::Red => red(text),
        Style::Yellow => yellow(text),
        Style::Green => green(text),
        Style::BlackOnYellow => black_on_yellow(text),
        Style::BlackOnGreen => black_on_green(text),
        Style::WhiteOnRed => white_on_red(text),
        Style::OnBrightGreen => on_bright_green(text),
        Style::OnBlack => on_black(text),
    }
}

/// A piece of text and the style it is painted in.
#[derive(Debug)]
pub struct Segment {
    pub text: String,
    pub style: Style,
}

/// What a [`Segment`] holds.
pub struct SegmentView {
    pub text: Seq<char>,
    pub style: Style,
}

impl View for Segment {
    type V = SegmentView;

    open spec fn view(&self) -> SegmentView {
        SegmentView { text: self.text@, style: self.style }
    }
}

/// The views of a list of segments.
pub open spec fn segment_views(segments: Seq<Segment>) -> Seq<SegmentView> {
    segments.map_values(|s: Segment| s@)
}

/// The text of the segments, one after the other, without any style.
pub open spec fn plain_text(segments: Seq<SegmentView>) -> Seq<char>
    decreases segments.len(),
{
    if segments.len() == 0 {
        Seq::<char>::empty()
    } else {
        plain_text(segments.drop_last()) + segments.last().text
    }
}

/// Whether `out` shows the segments one after the other, each painted in
/// its style: `out` ends with a painting of the last segment, and what
/// stands before that shows the segments before the last.
pub open spec fn is_rendering(segments: Seq<SegmentView>, out: Seq<char>) -> bool
    decreases segments.len(),
{
    if segments.len() == 0 {
        out == Seq::<char>::empty()
    } else {
        exists|tail: Seq<char>| #[trigger]
            is_styled(segments.last().style, segments.last().text, tail) && tail.len()
                <= out.len() && out.subrange(out.len() - tail.len(), out.len() as int) == tail
                && is_rendering(segments.drop_last(), out.subrange(0, out.len() - tail.len()))
    }
}

/// The segments, one after the other, each painted in its style.
pub fn render(segments: &Vec<Segment>) -> (s: String)
    ensures
        is_rendering(segment_views(segments@), s@),
{
    let mut s = String::new();
    let mut i: usize = 0;
    let ghost views = segment_views(segments@);
    assert(views.take(0) =~= Seq::<SegmentView>::empty());
    while i < segments.len()
        invariant
            i <= segments.len(),
            views == segment_views(segments@),
            is_rendering(views.take(i as int), s@),
        decreases segments.len() - i,
    {
        let ghost head = s@;
        let piece = paint(segments[i].text.as_str(), segments[i].style);
        crate::chars::push_text(&mut s, piece.as_str());
        i += 1;
        proof {
            let segs = views.take(i as int);
            assert(segs.drop_last() =~= views.take(i - 1));
            assert(segs.last() == segments@[i - 1]@);
            assert(s@ == head + piece@);
            assert(is_rendering(segs.drop_last(), head));
            assert(is_styled(segs.last().style, segs.last().text, piece@));
            assert(segs.len() > 0);
            assert(s@.subrange(s@.len() - piece@.len(), s@.len() as int) =~= piece@);
            assert(s@.subrange(0, s@.len() - piece@.len()) =~= head);
            assert(is_rendering(segs, s@));
        }
    }
    assert(views.take(i as int) =~= views);
    s
}

/// The text of the segments, one after the other, without any style.
pub fn render_plain(segments: &Vec<Segment>) -> (s: String)
    ensures
        s@ == plain_text(segment_views(segments@)),
{
    let mut s = String::new();
    let mut i: usize = 0;
    let ghost views = segment_views(segments@);
    assert(views.take(0) =~= Seq::<SegmentView>::empty());
    while i < segments.len()
        invariant
            i <= segments.len(),
            views == segment_views(segments@),
            s@ == plain_text(views.take(i as int)),
        decreases segments.len() - i,
    {
        crate::chars::push_text(&mut s, segments[i].text.as_str());
        i += 1;
        proof {
            assert(views.take(i as int).drop_last() =~= views.take(i - 1));
            assert(views.take(i as int).last() == segments@[i - 1]@);
        }
    }
    assert(views.take(i as int) =~= views);
    s
}

} // verus!
