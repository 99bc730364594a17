//! Whether a rendering carries colour, and which colour each part of it is.

use vstd::prelude::*;

use crate::text::append;

verus! {

/// When a rendering should carry colour.
#[derive(Debug, Clone, Copy, PartialEq, Eq, Structural, Default)]
pub enum ColorChoice {
    /// Colour a terminal, and nothing else.
    #[default]
    Auto,
    /// Colour whatever the output is: a pipe, a file.
    Always,
    /// Never colour.
    Never,
}

impl ColorChoice {
    /// What this choice comes to for an output that is a terminal or not,
    /// where `NO_COLOR` is set or not. A variable set to nothing does not
    /// count as set.
    pub fn palette(self, is_terminal: bool, no_color: bool) -> (palette: Palette)
        ensures
            palette == match self {
                ColorChoice::Always => Palette::Ansi,
                ColorChoice::Never => Palette::Plain,
                ColorChoice::Auto => if is_terminal && !no_color {
                    Palette::Ansi
                } else {
                    Palette::Plain
                },
            },
    {
        match self {
            ColorChoice::Always => Palette::Ansi,
            ColorChoice::Never => Palette::Plain,
            ColorChoice::Auto => if is_terminal && !no_color {
                Palette::Ansi
            } else {
                Palette::Plain
            },
        }
    }
}

/// The colours a rendering is written in, or none at all.
#[derive(Debug, Clone, Copy, PartialEq, Eq, Structural, Default)]
pub enum Palette {
    /// Text with no escape sequences in it.
    #[default]
    Plain,
    /// The ANSI colours of a terminal.
    Ansi,
}

/// What a piece of a rendering means. The colour follows from the meaning.
#[derive(Debug, Clone, Copy, PartialEq, Eq, Structural)]
pub enum Style {
    /// The line above a chain, saying what is being shown.
    Header,
    /// An envelope digest.
    Digest,
    /// A field's label.
    Label,
    /// What an envelope is: `root`, `head`.
    Mark,
    /// The name of a namespace.
    Namespace,
    /// A path inside a namespace.
    Path,
    /// Signatures that all verified.
    Good,
    /// Signatures nobody has checked yet.
    Unknown,
    /// Signatures that failed to verify.
    Bad,
    /// A field with nothing in it.
    Absent,
}

/// The parameters that select a style's colour.
pub open spec fn sgr_of(style: Style) -> Seq<char> {
    match style {
        Style::Header => "1"@,
        Style::Digest => "36"@,
        Style::Label => "2"@,
        Style::Mark => "1;33"@,
        Style::Namespace => "34"@,
        Style::Path => "35"@,
        Style::Good => "32"@,
        Style::Unknown => "33"@,
        Style::Bad => "1;31"@,
        Style::Absent => "2"@,
    }
}

impl Style {
    /// The parameters that select this style's colour.
    pub fn sgr(self) -> (sgr: &'static str)
        ensures
            sgr@ == sgr_of(self),
    {
        match self {
            Style::Header => "1",
            Style::Digest => "36",
            Style::Label => "2",
            Style::Mark => "1;33",
            Style::Namespace => "34",
            Style::Path => "35",
            Style::Good => "32",
            Style::Unknown => "33",
            Style::Bad => "1;31",
            Style::Absent => "2",
        }
    }
}

/// `text` in `style`, or bare when plain. What is set is reset right after.
pub open spec fn painted(palette: Palette, style: Style, text: Seq<char>) -> Seq<char> {
    match palette {
        Palette::Plain => text,
        Palette::Ansi => seq!['\u{1b}', '['] + sgr_of(style) + seq!['m'] + text + seq![
            '\u{1b}',
            '[',
            '0',
            'm',
        ],
    }
}

impl Palette {
    /// Appends `text` in `style`, or bare when plain.
    pub fn paint(self, style: Style, text: &Vec<char>, out: &mut Vec<char>)
        ensures
            final(out)@ == old(out)@ + painted(self, style, text@),
    {
        let ghost before = out@;
        match self {
            Palette::Plain => {
                crate::text::append_chars(out, text);
            },
            Palette::Ansi => {
                out.push('\u{1b}');
                out.push('[');
                append(out, style.sgr());
                out.push('m');
                crate::text::append_chars(out, text);
                out.push('\u{1b}');
                out.push('[');
                out.push('0');
                out.push('m');
            },
        }
        assert(out@ =~= before + painted(self, style, text@));
    }
}

/// What a terminal shows of `text`: everything but the escape sequences,
/// each of which runs from an escape to the next `m`.
pub open spec fn shown(text: Seq<char>) -> Seq<char>
    decreases text.len(),
{
    if text.len() == 0 {
        Seq::empty()
    } else if text[0] == '\u{1b}' {
        shown_within(text.skip(1))
    } else {
        seq![text[0]] + shown(text.skip(1))
    }
}

/// What a terminal shows of `text`, which begins inside an escape sequence.
pub open spec fn shown_within(text: Seq<char>) -> Seq<char>
    decreases text.len(),
{
    if text.len() == 0 {
        Seq::empty()
    } else if text[0] == 'm' {
        shown(text.skip(1))
    } else {
        shown_within(text.skip(1))
    }
}

/// Whether `text` holds no escape.
pub open spec fn unescaped(text: Seq<char>) -> bool {
    forall|i: int| 0 <= i < text.len() ==> #[trigger] text[i] != '\u{1b}'
}

/// Text before an escape is shown as it is.
proof fn bare_text_shows(text: Seq<char>, rest: Seq<char>)
    requires
        unescaped(text),
    ensures
        shown(text + rest) == text + shown(rest),
    decreases text.len(),
{
    if text.len() == 0 {
        assert(text + rest =~= rest);
        assert(text + shown(rest) =~= shown(rest));
    } else {
        assert((text + rest)[0] == text[0]);
        assert((text + rest).skip(1) =~= text.skip(1) + rest);
        assert forall|i: int| 0 <= i < text.skip(1).len() implies #[trigger] text.skip(1)[i]
            != '\u{1b}' by {
            assert(text[i + 1] != '\u{1b}');
        }
        bare_text_shows(text.skip(1), rest);
        assert(text + shown(rest) =~= seq![text[0]] + (text.skip(1) + shown(rest)));
    }
}

/// A sequence is not shown.
proof fn sequences_are_not_shown(sgr: Seq<char>, rest: Seq<char>)
    requires
        forall|i: int| 0 <= i < sgr.len() ==> #[trigger] sgr[i] != 'm',
    ensures
        shown_within(sgr + seq!['m'] + rest) == shown(rest),
    decreases sgr.len(),
{
    let all = sgr + seq!['m'] + rest;
    if sgr.len() == 0 {
        assert(all[0] == 'm');
        assert(all.skip(1) =~= rest);
    } else {
        assert(all[0] == sgr[0]);
        assert forall|i: int| 0 <= i < sgr.skip(1).len() implies #[trigger] sgr.skip(1)[i] != 'm' by {
            assert(sgr[i + 1] != 'm');
        }
        assert(all.skip(1) =~= sgr.skip(1) + seq!['m'] + rest);
        sequences_are_not_shown(sgr.skip(1), rest);
    }
}

/// Colour only wraps what the plain rendering says: whatever follows, a
/// terminal shows the text, and what follows as it would be shown alone.
pub proof fn colour_only_wraps(palette: Palette, style: Style, text: Seq<char>, rest: Seq<char>)
    requires
        unescaped(text),
    ensures
        shown(painted(palette, style, text) + rest) == text + shown(rest),
{
    match palette {
        Palette::Plain => {
            bare_text_shows(text, rest);
        },
        Palette::Ansi => {
            reveal_strlit("1");
            reveal_strlit("2");
            reveal_strlit("32");
            reveal_strlit("33");
            reveal_strlit("34");
            reveal_strlit("35");
            reveal_strlit("36");
            reveal_strlit("1;31");
            reveal_strlit("1;33");
            let sgr = sgr_of(style);
            let all = painted(palette, style, text) + rest;
            let reset = seq!['\u{1b}', '[', '0', 'm'] + rest;
            let after = text + reset;
            assert(all[0] == '\u{1b}');
            assert(all.skip(1) =~= (seq!['['] + sgr) + seq!['m'] + after);
            sequences_are_not_shown(seq!['['] + sgr, after);
            bare_text_shows(text, reset);
            assert(reset[0] == '\u{1b}');
            assert(reset.skip(1) =~= seq!['[', '0'] + seq!['m'] + rest);
            sequences_are_not_shown(seq!['[', '0'], rest);
        },
    }
}

} // verus!
