//! Rendering envelopes as stanzas a person reads.
//!
//! A rendering is a sequence of spans, each a text and what it means; a
//! palette only decides how spans are written.

use vstd::prelude::*;

use crate::digest::{hex_chars, hex_of, EnvelopeDigest};
use crate::envelope::{Envelope, VerificationStatus};
use crate::msg::{AmendNamespaceKey, AmendOp, IncrementDecrement, Msg, NamespaceKey};
use crate::render::style::{
    colour_only_wraps, painted, shown, unescaped, Palette, Style,
};
use crate::render::value::{
    labelled, lines_view, preview, preview_of, previews, previews_of, spaces, Labelled,
};
use crate::subkey::{path_text, Step, SubkeyPath};
use crate::text::{
    append, append_chars, append_decimal, append_signed, chars_of, decimal, signed_decimal,
    text_of,
};
use crate::value::Value;

verus! {

/// Width the field labels are padded to.
pub const LABEL: usize = 13;

/// One envelope, as a rendering takes it.
#[derive(Debug, PartialEq, Eq)]
pub struct Entry {
    /// The digest it is shown under.
    pub digest: EnvelopeDigest,
    /// The envelope itself, carrying the verification status the node that
    /// holds it reached.
    pub envelope: Envelope,
    /// When that node's log first stored it, where that is known, as a
    /// reading of the clock on the reader's wall. Local bookkeeping, shown
    /// because an operator reading a log wants it.
    pub stored_at: Option<String>,
}

impl Entry {
    /// An envelope with nothing known about when it arrived.
    pub fn new(digest: EnvelopeDigest, envelope: Envelope) -> (entry: Self)
        ensures
            entry == (Entry { digest, envelope, stored_at: None }),
    {
        Entry { digest, envelope, stored_at: None }
    }

    /// The same entry, stamped with when its node first stored it.
    pub fn with_stored_at(self, stored_at: Option<String>) -> (entry: Self)
        ensures
            entry == (Entry { stored_at, ..self }),
    {
        Entry { digest: self.digest, envelope: self.envelope, stored_at }
    }
}

/// A piece of a rendering.
#[derive(Debug)]
pub struct Piece {
    pub style: Option<Style>,
    pub text: Vec<char>,
}

/// A text and what it means.
pub struct Span {
    pub style: Option<Style>,
    pub text: Seq<char>,
}

/// What pieces say.
pub open spec fn spans(pieces: Seq<Piece>) -> Seq<Span> {
    pieces.map_values(|piece: Piece| Span { style: piece.style, text: piece.text@ })
}

/// Text without a style.
pub open spec fn plain(text: Seq<char>) -> Span {
    Span { style: None, text }
}

/// Text in a style.
pub open spec fn styled(style: Style, text: Seq<char>) -> Span {
    Span { style: Some(style), text }
}

/// A span as a palette writes it.
pub open spec fn written_span(palette: Palette, span: Span) -> Seq<char> {
    match span.style {
        Some(style) => painted(palette, style, span.text),
        None => span.text,
    }
}

/// Spans as a palette writes them.
pub open spec fn written(palette: Palette, spans: Seq<Span>) -> Seq<char>
    decreases spans.len(),
{
    if spans.len() == 0 {
        Seq::empty()
    } else {
        written(palette, spans.drop_last()) + written_span(palette, spans.last())
    }
}

/// A count and what it counts.
pub open spec fn plural_text(count: nat, one: Seq<char>, many: Seq<char>) -> Seq<char> {
    decimal(count) + seq![' '] + if count == 1 {
        one
    } else {
        many
    }
}

/// What a message reaches into.
pub open spec fn target_spans(key: Seq<char>, path: Option<Seq<Step>>) -> Seq<Span> {
    match path {
        Some(path) => seq![
            styled(Style::Path, path_text(path)),
            plain(" in namespace "@),
            styled(Style::Namespace, key),
        ],
        None => seq![plain("namespace "@), styled(Style::Namespace, key)],
    }
}

/// What an amendment reaches into.
pub open spec fn amended_path(amend: AmendNamespaceKey) -> Option<Seq<Step>> {
    match amend.path {
        Some(path) => Some(path@),
        None => None,
    }
}

/// A one-line summary of what a message does.
pub open spec fn message_spans(msg: Msg) -> Seq<Span> {
    match msg {
        Msg::Init(init) => seq![
            plain("init, "@),
            plain(
                plural_text(
                    init.state.namespaces.entries@.len(),
                    "namespace"@,
                    "namespaces"@,
                ),
            ),
        ],
        Msg::SetNamespace(set) => seq![plain("set "@)] + target_spans(set.key@, None),
        Msg::SetNamespaceKey(set) => seq![
            plain(
                if set.value is Some {
                    "set "@
                } else {
                    "clear "@
                },
            ),
        ] + target_spans(set.key@, Some(set.path@)),
        Msg::AmendNamespaceKey(amend) => {
            let target = target_spans(amend.key@, amended_path(amend));
            match amend.op {
                AmendOp::AppendEntry(_) => seq![plain("append an entry to "@)] + target,
                AmendOp::IncrementDecrement(op) => seq![
                    plain("add "@ + signed_decimal(op.delta as int) + " to "@),
                ] + target,
                AmendOp::DeleteMatching(predicate) => seq![plain("delete entries of "@)] + target
                    + seq![
                    plain(
                        " matching "@ + plural_text(
                            predicate.conditions@.len(),
                            "condition"@,
                            "conditions"@,
                        ),
                    ),
                ],
            }
        },
        Msg::DeleteNamespace(delete) => seq![plain("delete "@)] + target_spans(delete.key@, None),
    }
}

/// A field's label, padded.
pub open spec fn padded(label: Seq<char>) -> Seq<char> {
    label + spaces((LABEL - label.len()) as nat)
}

/// The first `k` lines of a labelled field, the label on the first.
pub open spec fn field_rows(label: Seq<char>, values: Seq<Seq<Span>>, k: nat) -> Seq<Span>
    decreases k,
{
    if k == 0 {
        Seq::empty()
    } else {
        let lead = if k == 1 {
            styled(Style::Label, padded(label))
        } else {
            plain(spaces(LABEL as nat))
        };
        field_rows(label, values, (k - 1) as nat) + (seq![plain("   "@), lead, plain("  "@)]
            + values[k - 1] + seq![plain("\n"@)])
    }
}

/// A labelled field over as many lines as it has values; an em dash, where
/// it has none.
pub open spec fn field_spans(label: Seq<char>, values: Seq<Seq<Span>>) -> Seq<Span> {
    if values.len() == 0 {
        field_rows(label, seq![seq![styled(Style::Absent, "—"@)]], 1)
    } else {
        field_rows(label, values, values.len())
    }
}

/// Lines of text as they stand in a field.
pub open spec fn text_rows(lines: Seq<Seq<char>>) -> Seq<Seq<Span>> {
    lines.map_values(|line: Seq<char>| seq![plain(line)])
}

/// The namespaces of a checkpoint, each labelled with its name.
pub open spec fn namespace_list(msg: Msg) -> Labelled {
    msg->Init_0.state.namespaces.entries@.map_values(
        |entry: (NamespaceKey, crate::msg::Namespace)| (entry.0@ + " = "@, entry.1.value),
    )
}

/// The conditions of a deletion, each labelled with where it looks.
pub open spec fn condition_list(conditions: Seq<crate::msg::Match>) -> Labelled {
    conditions.map_values(
        |condition: crate::msg::Match|
            (
                (match condition.path {
                    Some(path) => path_text(path@),
                    None => "entry"@,
                }) + " = "@,
                condition.value,
            ),
    )
}

/// What an increment is clamped to.
pub open spec fn bounds_text(op: IncrementDecrement) -> Seq<char> {
    match (op.min, op.max) {
        (Some(min), Some(max)) => "at least "@ + signed_decimal(min as int) + ", at most "@
            + signed_decimal(max as int),
        (Some(min), None) => "at least "@ + signed_decimal(min as int),
        (None, Some(max)) => "at most "@ + signed_decimal(max as int),
        (None, None) => Seq::empty(),
    }
}

/// The field that shows what a message writes, where it writes something.
pub open spec fn detail_spans(msg: Msg) -> Seq<Span> {
    match msg {
        Msg::Init(_) => field_spans("namespaces"@, text_rows(previews_of(namespace_list(msg)))),
        Msg::SetNamespace(set) => field_spans(
            "value"@,
            text_rows(preview_of(Seq::empty(), set.namespace.value)),
        ),
        Msg::SetNamespaceKey(set) => match set.value {
            Some(value) => field_spans("value"@, text_rows(preview_of(Seq::empty(), value))),
            None => Seq::empty(),
        },
        Msg::AmendNamespaceKey(amend) => match amend.op {
            AmendOp::AppendEntry(value) => field_spans(
                "entry"@,
                text_rows(preview_of(Seq::empty(), value)),
            ),
            AmendOp::IncrementDecrement(op) => if op.min is None && op.max is None {
                Seq::empty()
            } else {
                field_spans("clamped"@, seq![seq![plain(bounds_text(op))]])
            },
            AmendOp::DeleteMatching(predicate) => field_spans(
                "matching"@,
                text_rows(previews_of(condition_list(predicate.conditions@))),
            ),
        },
        Msg::DeleteNamespace(_) => Seq::empty(),
    }
}

/// How an envelope's signatures scored, as stored.
pub open spec fn status_span(status: VerificationStatus) -> Span {
    match status {
        VerificationStatus::Unchecked => styled(Style::Unknown, "unchecked"@),
        VerificationStatus::Failed { failing_key_ids } => styled(
            Style::Bad,
            "failed, "@ + plural_text(
                failing_key_ids.map.entries@.len(),
                "bad signature"@,
                "bad signatures"@,
            ),
        ),
        VerificationStatus::AllMatched { total_weight } => styled(
            Style::Good,
            "all matched, weight "@ + decimal(total_weight as nat),
        ),
    }
}

/// Who signed an envelope, in id order.
pub open spec fn signer_rows(envelope: Envelope) -> Seq<Seq<Span>> {
    envelope.signatures.entries@.map_values(
        |entry: (crate::digest::KeyId, crate::envelope::Signature)|
            seq![plain(hex_of(entry.0.bytes@))],
    )
}

/// The fields that show what an envelope says.
pub open spec fn said_spans(envelope: Envelope) -> Seq<Span> {
    let prev = match envelope@.payload.prev() {
        Some(prev) => styled(Style::Digest, hex_of(prev.bytes@)),
        None => styled(Style::Absent, "— (genesis)"@),
    };
    field_spans("prev"@, seq![seq![prev]]) + field_spans(
        "message"@,
        seq![message_spans(envelope.payload)],
    ) + detail_spans(envelope.payload)
}

/// The fields that show what is attached to an envelope, and the line that
/// ends a stanza.
pub open spec fn kept_spans(envelope: Envelope, stored_at: Option<String>) -> Seq<Span> {
    let stored = match stored_at {
        Some(at) => seq![seq![plain(at@)]],
        None => Seq::empty(),
    };
    field_spans("verification"@, seq![seq![status_span(envelope.status)]]) + field_spans(
        "signed by"@,
        signer_rows(envelope),
    ) + field_spans("timestamps"@, seq![seq![plain(decimal(envelope.timestamps as nat))]])
        + field_spans("stored"@, stored) + seq![plain("\n"@)]
}

/// Renders envelopes, and chains of them.
///
/// Everything beyond the envelopes themselves is optional context the
/// caller supplies: which digests are worth marking, what to say the
/// envelopes came from, and whether to colour any of it.
#[derive(Debug, PartialEq, Eq)]
pub struct Render {
    pub palette: Palette,
    pub root: Option<EnvelopeDigest>,
    pub head: Option<EnvelopeDigest>,
    pub header: Option<String>,
}

impl Render {
    /// The marks an envelope wears.
    pub open spec fn marks(&self, digest: EnvelopeDigest) -> Seq<Span> {
        let root = self.root == Some(digest);
        let head = self.head == Some(digest);
        if root && head {
            seq![plain("  "@), styled(Style::Mark, "[root, head]"@)]
        } else if root {
            seq![plain("  "@), styled(Style::Mark, "[root]"@)]
        } else if head {
            seq![plain("  "@), styled(Style::Mark, "[head]"@)]
        } else {
            Seq::empty()
        }
    }

    /// The first line of a stanza: the envelope's number, digest and marks.
    pub open spec fn title(&self, index: Option<usize>, digest: EnvelopeDigest) -> Seq<Span> {
        let number = match index {
            Some(index) => seq![plain(seq!['#'] + decimal(index as nat) + seq![' '])],
            None => Seq::empty(),
        };
        number + seq![styled(Style::Digest, hex_of(digest.bytes@))] + self.marks(digest) + seq![
            plain("\n"@),
        ]
    }

    /// One envelope: its digest and marks on the first line, then a field
    /// per line, then a blank line.
    pub open spec fn stanza(&self, index: Option<usize>, entry: Entry) -> Seq<Span> {
        self.title(index, entry.digest) + said_spans(entry.envelope) + kept_spans(
            entry.envelope,
            entry.stored_at,
        )
    }

    /// The line above a chain.
    pub open spec fn heading(&self, count: nat) -> Seq<Span> {
        let counted = plural_text(count, "envelope"@, "envelopes"@);
        let text = match self.header {
            Some(header) => counted + " on "@ + header@,
            None => counted,
        };
        seq![styled(Style::Header, text), plain("\n\n"@)]
    }

    /// The stanzas of the first `k` envelopes of a chain.
    pub open spec fn stanzas(&self, chain: Seq<Entry>, k: nat) -> Seq<Span>
        decreases k,
    {
        if k == 0 {
            Seq::empty()
        } else {
            self.stanzas(chain, (k - 1) as nat) + self.stanza(Some((k - 1) as usize), chain[k - 1])
        }
    }

    /// A chain under a line counting it, one numbered stanza an envelope.
    pub open spec fn whole(&self, chain: Seq<Entry>) -> Seq<Span> {
        self.heading(chain.len()) + self.stanzas(chain, chain.len())
    }
}

/// Adds text without a style.
fn say(out: &mut Vec<Piece>, text: &str)
    ensures
        spans(final(out)@) == spans(old(out)@).push(plain(text@)),
{
    let ghost before = out@;
    out.push(Piece { style: None, text: chars_of(text) });
    assert(spans(out@) =~= spans(before).push(plain(text@)));
}

/// Adds characters in a style, or in none.
fn put(out: &mut Vec<Piece>, style: Option<Style>, text: Vec<char>)
    ensures
        spans(final(out)@) == spans(old(out)@).push(Span { style, text: text@ }),
{
    let ghost before = out@;
    out.push(Piece { style, text });
    assert(spans(out@) =~= spans(before).push(Span { style, text: text@ }));
}

/// Adds pieces.
fn put_all(out: &mut Vec<Piece>, pieces: &Vec<Piece>)
    ensures
        spans(final(out)@) == spans(old(out)@) + spans(pieces@),
{
    let ghost before = spans(out@);
    let mut i: usize = 0;
    assert(before + spans(pieces@).take(0) =~= before);
    while i < pieces.len()
        invariant
            i <= pieces@.len(),
            spans(out@) == before + spans(pieces@).take(i as int),
        decreases pieces@.len() - i,
    {
        let mut text: Vec<char> = Vec::new();
        append_chars(&mut text, &pieces[i].text);
        assert(text@ =~= pieces@[i as int].text@);
        put(out, pieces[i].style, text);
        i += 1;
        assert(spans(out@) =~= before + spans(pieces@).take(i as int));
    }
    assert(spans(pieces@).take(i as int) =~= spans(pieces@));
}

/// A count and what it counts.
pub fn plural(count: usize, one: &str, many: &str) -> (chars: Vec<char>)
    ensures
        chars@ == plural_text(count as nat, one@, many@),
{
    let mut chars: Vec<char> = Vec::new();
    append_decimal(&mut chars, count as u64);
    chars.push(' ');
    if count == 1 {
        append(&mut chars, one);
    } else {
        append(&mut chars, many);
    }
    assert(chars@ =~= plural_text(count as nat, one@, many@));
    chars
}

/// What a message reaches into.
fn put_target(out: &mut Vec<Piece>, key: &NamespaceKey, path: Option<&SubkeyPath>)
    ensures
        spans(final(out)@) == spans(old(out)@) + target_spans(
            key@,
            match path {
                Some(path) => Some(path@),
                None => None,
            },
        ),
{
    let ghost before = spans(out@);
    match path {
        Some(path) => {
            let chars = path.chars();
            put(out, Some(Style::Path), chars);
            say(out, " in namespace ");
        },
        None => {
            say(out, "namespace ");
        },
    }
    let name = chars_of(key.text.as_str());
    put(out, Some(Style::Namespace), name);
    assert(spans(out@) =~= before + target_spans(
        key@,
        match path {
            Some(path) => Some(path@),
            None => None,
        },
    ));
}

/// A one-line summary of what a message does.
pub fn describe(msg: &Msg) -> (pieces: Vec<Piece>)
    ensures
        spans(pieces@) == message_spans(*msg),
{
    let mut out: Vec<Piece> = Vec::new();
    assert(spans(out@) =~= Seq::<Span>::empty());
    match msg {
        Msg::Init(init) => {
            say(&mut out, "init, ");
            let count = plural(init.state.namespaces.entries.len(), "namespace", "namespaces");
            put(&mut out, None, count);
        },
        Msg::SetNamespace(set) => {
            say(&mut out, "set ");
            put_target(&mut out, &set.key, None);
        },
        Msg::SetNamespaceKey(set) => {
            if set.value.is_some() {
                say(&mut out, "set ");
            } else {
                say(&mut out, "clear ");
            }
            put_target(&mut out, &set.key, Some(&set.path));
        },
        Msg::AmendNamespaceKey(amend) => {
            match &amend.op {
                AmendOp::AppendEntry(_) => {
                    say(&mut out, "append an entry to ");
                },
                AmendOp::IncrementDecrement(op) => {
                    let mut text: Vec<char> = Vec::new();
                    append(&mut text, "add ");
                    append_signed(&mut text, op.delta);
                    append(&mut text, " to ");
                    assert(text@ =~= "add "@ + signed_decimal(op.delta as int) + " to "@);
                    put(&mut out, None, text);
                },
                AmendOp::DeleteMatching(_) => {
                    say(&mut out, "delete entries of ");
                },
            }
            match &amend.path {
                Some(path) => {
                    put_target(&mut out, &amend.key, Some(path));
                },
                None => {
                    put_target(&mut out, &amend.key, None);
                },
            }
            match &amend.op {
                AmendOp::DeleteMatching(predicate) => {
                    let mut text: Vec<char> = Vec::new();
                    append(&mut text, " matching ");
                    let count = plural(predicate.conditions.len(), "condition", "conditions");
                    append_chars(&mut text, &count);
                    assert(text@ =~= " matching "@ + count@);
                    put(&mut out, None, text);
                },
                _ => {},
            }
        },
        Msg::DeleteNamespace(delete) => {
            say(&mut out, "delete ");
            put_target(&mut out, &delete.key, None);
        },
    }
    assert(spans(out@) =~= message_spans(*msg));
    out
}

/// What rows of pieces say.
pub open spec fn rows_view(rows: Seq<Vec<Piece>>) -> Seq<Seq<Span>> {
    rows.map_values(|row: Vec<Piece>| spans(row@))
}

/// A row of one piece.
fn row(style: Option<Style>, text: Vec<char>) -> (row: Vec<Piece>)
    ensures
        spans(row@) == seq![Span { style, text: text@ }],
{
    let mut row: Vec<Piece> = Vec::new();
    assert(spans(row@) =~= Seq::<Span>::empty());
    put(&mut row, style, text);
    assert(spans(row@) =~= seq![Span { style, text: text@ }]);
    row
}

/// A field's label, padded.
fn pad_label(label: &str) -> (chars: Vec<char>)
    requires
        label@.len() <= LABEL,
    ensures
        chars@ == padded(label@),
{
    let mut chars = chars_of(label);
    let ghost bare = chars@;
    while chars.len() < LABEL
        invariant
            chars@.len() <= LABEL,
            bare == label@,
            bare.len() <= chars@.len(),
            chars@ == bare + spaces((chars@.len() - bare.len()) as nat),
        decreases LABEL - chars@.len(),
    {
        chars.push(' ');
        assert(chars@ =~= bare + spaces((chars@.len() - bare.len()) as nat));
    }
    chars
}

/// Writes one labelled field over as many lines as it has values, the label
/// on the first. An empty list writes as an em dash.
fn put_field(out: &mut Vec<Piece>, label: &str, values: &Vec<Vec<Piece>>)
    requires
        label@.len() <= LABEL,
    ensures
        spans(final(out)@) == spans(old(out)@) + field_spans(label@, rows_view(values@)),
{
    if values.len() == 0 {
        let mut none: Vec<Vec<Piece>> = Vec::new();
        let dash = row(Some(Style::Absent), chars_of("—"));
        none.push(dash);
        assert(rows_view(none@) =~= seq![seq![styled(Style::Absent, "—"@)]]);
        put_rows(out, label, &none);
    } else {
        put_rows(out, label, values);
    }
}

fn put_rows(out: &mut Vec<Piece>, label: &str, values: &Vec<Vec<Piece>>)
    requires
        label@.len() <= LABEL,
    ensures
        spans(final(out)@) == spans(old(out)@) + field_rows(
            label@,
            rows_view(values@),
            values@.len(),
        ),
{
    let ghost before = spans(out@);
    let ghost rows = rows_view(values@);
    let mut k: usize = 0;
    assert(before + field_rows(label@, rows, 0) =~= before);
    while k < values.len()
        invariant
            k <= values@.len(),
            label@.len() <= LABEL,
            rows == rows_view(values@),
            spans(out@) == before + field_rows(label@, rows, k as nat),
        decreases values@.len() - k,
    {
        let ghost last = spans(out@);
        say(out, "   ");
        if k == 0 {
            put(out, Some(Style::Label), pad_label(label));
        } else {
            let mut blank: Vec<char> = Vec::new();
            while blank.len() < LABEL
                invariant
                    blank@.len() <= LABEL,
                    blank@ == spaces(blank@.len()),
                decreases LABEL - blank@.len(),
            {
                blank.push(' ');
                assert(blank@ =~= spaces(blank@.len()));
            }
            put(out, None, blank);
        }
        say(out, "  ");
        put_all(out, &values[k]);
        say(out, "\n");
        k += 1;
        proof {
            let lead = if k == 1 {
                styled(Style::Label, padded(label@))
            } else {
                plain(spaces(LABEL as nat))
            };
            assert(rows[k - 1] == spans(values@[k - 1]@));
            assert(spans(out@) =~= last + (seq![plain("   "@), lead, plain("  "@)] + rows[k - 1]
                + seq![plain("\n"@)]));
            assert(spans(out@) =~= before + field_rows(label@, rows, k as nat));
        }
    }
}

/// Writes one labelled field of one value.
fn put_one(out: &mut Vec<Piece>, label: &str, value: Vec<Piece>)
    requires
        label@.len() <= LABEL,
    ensures
        spans(final(out)@) == spans(old(out)@) + field_spans(label@, seq![spans(value@)]),
{
    let mut values: Vec<Vec<Piece>> = Vec::new();
    values.push(value);
    assert(rows_view(values@) =~= seq![spans(value@)]);
    put_field(out, label, &values);
}

/// Writes one labelled field of lines of text.
fn put_lines(out: &mut Vec<Piece>, label: &str, lines: &Vec<Vec<char>>)
    requires
        label@.len() <= LABEL,
    ensures
        spans(final(out)@) == spans(old(out)@) + field_spans(label@, text_rows(lines_view(lines@))),
{
    let mut values: Vec<Vec<Piece>> = Vec::new();
    let mut i: usize = 0;
    while i < lines.len()
        invariant
            i <= lines@.len(),
            values@.len() == i,
            forall|j: int|
                0 <= j < i ==> spans((#[trigger] values@[j])@) == seq![plain(lines@[j]@)],
        decreases lines@.len() - i,
    {
        let mut text: Vec<char> = Vec::new();
        append_chars(&mut text, &lines[i]);
        assert(text@ =~= lines@[i as int]@);
        values.push(row(None, text));
        i += 1;
    }
    assert(rows_view(values@) =~= text_rows(lines_view(lines@)));
    put_field(out, label, &values);
}

/// Writes the field that shows a value.
fn put_value(out: &mut Vec<Piece>, label: &str, value: &Value)
    requires
        label@.len() <= LABEL,
    ensures
        spans(final(out)@) == spans(old(out)@) + field_spans(
            label@,
            text_rows(preview_of(Seq::empty(), *value)),
        ),
{
    let bare: Vec<char> = Vec::new();
    assert(bare@ =~= Seq::<char>::empty());
    let lines = preview(&bare, value);
    put_lines(out, label, &lines);
}

/// What an increment is clamped to.
pub fn bounds(op: &IncrementDecrement) -> (chars: Vec<char>)
    ensures
        chars@ == bounds_text(*op),
{
    let mut chars: Vec<char> = Vec::new();
    match op.min {
        Some(min) => {
            append(&mut chars, "at least ");
            append_signed(&mut chars, min);
            match op.max {
                Some(max) => {
                    append(&mut chars, ", at most ");
                    append_signed(&mut chars, max);
                },
                None => {},
            }
        },
        None => match op.max {
            Some(max) => {
                append(&mut chars, "at most ");
                append_signed(&mut chars, max);
            },
            None => {},
        },
    }
    assert(chars@ =~= bounds_text(*op));
    chars
}

/// Writes the field that shows what a message writes, where it writes
/// something.
fn put_detail(out: &mut Vec<Piece>, msg: &Msg)
    ensures
        spans(final(out)@) == spans(old(out)@) + detail_spans(*msg),
{
    let ghost before = spans(out@);
    proof {
        reveal_strlit("namespaces");
        reveal_strlit("value");
        reveal_strlit("entry");
        reveal_strlit("clamped");
        reveal_strlit("matching");
    }
    match msg {
        Msg::Init(init) => {
            let namespaces = &init.state.namespaces;
            let mut list: Vec<(Vec<char>, &Value)> = Vec::new();
            let mut i: usize = 0;
            while i < namespaces.entries.len()
                invariant
                    i <= namespaces.entries@.len(),
                    list@.len() == i,
                    forall|j: int|
                        0 <= j < i ==> (#[trigger] list@[j]).0@ == namespaces.entries@[j].0@ + " = "@
                            && *list@[j].1 == namespaces.entries@[j].1.value,
                decreases namespaces.entries@.len() - i,
            {
                let entry = &namespaces.entries[i];
                let mut label = chars_of(entry.0.text.as_str());
                append(&mut label, " = ");
                list.push((label, &entry.1.value));
                i += 1;
            }
            assert(labelled(list@) =~= namespace_list(*msg));
            let lines = previews(&list);
            put_lines(out, "namespaces", &lines);
        },
        Msg::SetNamespace(set) => {
            put_value(out, "value", &set.namespace.value);
        },
        Msg::SetNamespaceKey(set) => match &set.value {
            Some(value) => {
                put_value(out, "value", value);
            },
            None => {},
        },
        Msg::AmendNamespaceKey(amend) => match &amend.op {
            AmendOp::AppendEntry(value) => {
                put_value(out, "entry", value);
            },
            AmendOp::IncrementDecrement(op) => {
                if op.min.is_some() || op.max.is_some() {
                    let value = row(None, bounds(op));
                    put_one(out, "clamped", value);
                }
            },
            AmendOp::DeleteMatching(predicate) => {
                let conditions = &predicate.conditions;
                let mut list: Vec<(Vec<char>, &Value)> = Vec::new();
                let mut i: usize = 0;
                while i < conditions.len()
                    invariant
                        i <= conditions@.len(),
                        list@.len() == i,
                        forall|j: int|
                            0 <= j < i ==> (#[trigger] list@[j]).0@ == condition_list(
                                conditions@,
                            )[j].0 && *list@[j].1 == conditions@[j].value,
                    decreases conditions@.len() - i,
                {
                    let condition = &conditions[i];
                    let mut label = match &condition.path {
                        Some(path) => path.chars(),
                        None => chars_of("entry"),
                    };
                    append(&mut label, " = ");
                    list.push((label, &condition.value));
                    i += 1;
                }
                assert(labelled(list@) =~= condition_list(conditions@));
                let lines = previews(&list);
                put_lines(out, "matching", &lines);
            },
        },
        Msg::DeleteNamespace(_) => {},
    }
    assert(spans(out@) =~= before + detail_spans(*msg));
}

/// How an envelope's signatures scored, as stored: the status a node
/// resolves by, not one recomputed here.
pub fn describe_status(status: &VerificationStatus) -> (value: Vec<Piece>)
    ensures
        spans(value@) == seq![status_span(*status)],
{
    let mut text: Vec<char> = Vec::new();
    match status {
        VerificationStatus::Unchecked => {
            append(&mut text, "unchecked");
            assert(text@ =~= "unchecked"@);
            row(Some(Style::Unknown), text)
        },
        VerificationStatus::Failed { failing_key_ids } => {
            append(&mut text, "failed, ");
            let count = plural(failing_key_ids.len(), "bad signature", "bad signatures");
            append_chars(&mut text, &count);
            assert(text@ =~= "failed, "@ + count@);
            row(Some(Style::Bad), text)
        },
        VerificationStatus::AllMatched { total_weight } => {
            append(&mut text, "all matched, weight ");
            append_decimal(&mut text, *total_weight as u64);
            assert(text@ =~= "all matched, weight "@ + decimal(*total_weight as nat));
            row(Some(Style::Good), text)
        },
    }
}

/// Writes pieces as a palette does.
fn write(palette: Palette, pieces: &Vec<Piece>, out: &mut Vec<char>)
    ensures
        final(out)@ == old(out)@ + written(palette, spans(pieces@)),
{
    let ghost before = out@;
    let ghost all = spans(pieces@);
    let mut i: usize = 0;
    assert(before + written(palette, all.take(0)) =~= before);
    while i < pieces.len()
        invariant
            i <= pieces@.len(),
            all == spans(pieces@),
            out@ == before + written(palette, all.take(i as int)),
        decreases pieces@.len() - i,
    {
        let ghost last = out@;
        let piece = &pieces[i];
        match piece.style {
            Some(style) => {
                palette.paint(style, &piece.text, out);
            },
            None => {
                append_chars(out, &piece.text);
            },
        }
        i += 1;
        proof {
            assert(all.take(i as int).drop_last() =~= all.take(i - 1));
            assert(all.take(i as int).last() == all[i - 1]);
            assert(out@ =~= last + written_span(palette, all[i - 1]));
            assert(out@ =~= before + written(palette, all.take(i as int)));
        }
    }
    assert(all.take(i as int) =~= all);
}

impl Default for Render {
    fn default() -> (render: Self)
        ensures
            render == (Render { palette: Palette::Plain, root: None, head: None, header: None }),
    {
        Render { palette: Palette::Plain, root: None, head: None, header: None }
    }
}

impl Render {
    /// A plain, unmarked rendering.
    pub fn new() -> (render: Self)
        ensures
            render == (Render { palette: Palette::Plain, root: None, head: None, header: None }),
    {
        Render { palette: Palette::Plain, root: None, head: None, header: None }
    }

    /// Renders in `palette`.
    pub fn with_palette(self, palette: Palette) -> (render: Self)
        ensures
            render == (Render { palette, ..self }),
    {
        Render { palette, root: self.root, head: self.head, header: self.header }
    }

    /// Marks `root`, the oldest envelope still held, where it is shown.
    pub fn with_root(self, root: EnvelopeDigest) -> (render: Self)
        ensures
            render == (Render { root: Some(root), ..self }),
    {
        Render { palette: self.palette, root: Some(root), head: self.head, header: self.header }
    }

    /// Marks `head`, the canonical head, where it is shown.
    pub fn with_head(self, head: EnvelopeDigest) -> (render: Self)
        ensures
            render == (Render { head: Some(head), ..self }),
    {
        Render { palette: self.palette, root: self.root, head: Some(head), header: self.header }
    }

    /// Says where a chain came from, in the line above it.
    pub fn with_header(self, header: String) -> (render: Self)
        ensures
            render == (Render { header: Some(header), ..self }),
    {
        Render { palette: self.palette, root: self.root, head: self.head, header: Some(header) }
    }

    /// Writes `envelopes`, a chain oldest first, under a line counting
    /// them, one numbered stanza each.
    pub fn write_chain(&self, out: &mut Vec<char>, envelopes: &Vec<Entry>)
        ensures
            final(out)@ == old(out)@ + written(self.palette, self.whole(envelopes@)),
    {
        let mut pieces: Vec<Piece> = Vec::new();
        assert(spans(pieces@) =~= Seq::<Span>::empty());
        let mut header = plural(envelopes.len(), "envelope", "envelopes");
        match &self.header {
            Some(from) => {
                append(&mut header, " on ");
                append(&mut header, from.as_str());
            },
            None => {},
        }
        put(&mut pieces, Some(Style::Header), header);
        say(&mut pieces, "\n\n");
        let ghost heading = self.heading(envelopes@.len());
        assert(spans(pieces@) =~= heading);
        let mut k: usize = 0;
        assert(heading + self.stanzas(envelopes@, 0) =~= heading);
        while k < envelopes.len()
            invariant
                k <= envelopes@.len(),
                spans(pieces@) == heading + self.stanzas(envelopes@, k as nat),
            decreases envelopes@.len() - k,
        {
            self.write_stanza(&mut pieces, Some(k), &envelopes[k]);
            k += 1;
            assert(spans(pieces@) =~= heading + self.stanzas(envelopes@, k as nat));
        }
        write(self.palette, &pieces, out);
    }

    /// Writes one envelope's stanza, unnumbered: nothing says where it
    /// sits, only what it is.
    pub fn write_envelope(&self, out: &mut Vec<char>, entry: &Entry)
        ensures
            final(out)@ == old(out)@ + written(self.palette, self.stanza(None, *entry)),
    {
        let mut pieces: Vec<Piece> = Vec::new();
        self.write_stanza(&mut pieces, None, entry);
        assert(spans(pieces@) =~= self.stanza(None, *entry));
        write(self.palette, &pieces, out);
    }

    /// The rendering of a chain.
    pub fn chain(&self, envelopes: &Vec<Entry>) -> (text: String)
        ensures
            text@ == written(self.palette, self.whole(envelopes@)),
    {
        let mut out: Vec<char> = Vec::new();
        self.write_chain(&mut out, envelopes);
        assert(out@ =~= written(self.palette, self.whole(envelopes@)));
        text_of(&out)
    }

    /// The rendering of one envelope.
    pub fn envelope(&self, entry: &Entry) -> (text: String)
        ensures
            text@ == written(self.palette, self.stanza(None, *entry)),
    {
        let mut out: Vec<char> = Vec::new();
        self.write_envelope(&mut out, entry);
        assert(out@ =~= written(self.palette, self.stanza(None, *entry)));
        text_of(&out)
    }

    /// One envelope: its digest and marks on the first line, then a field
    /// per line, then a blank line.
    fn write_stanza(&self, out: &mut Vec<Piece>, index: Option<usize>, entry: &Entry)
        ensures
            spans(final(out)@) == spans(old(out)@) + self.stanza(index, *entry),
    {
        let ghost before = spans(out@);
        self.write_title(out, index, entry.digest);
        write_said(out, &entry.envelope);
        write_kept(out, &entry.envelope, &entry.stored_at);
        assert(spans(out@) =~= before + self.stanza(index, *entry));
    }

    fn write_title(&self, out: &mut Vec<Piece>, index: Option<usize>, digest: EnvelopeDigest)
        ensures
            spans(final(out)@) == spans(old(out)@) + self.title(index, digest),
    {
        let ghost before = spans(out@);
        match index {
            Some(index) => {
                let mut number: Vec<char> = Vec::new();
                number.push('#');
                append_decimal(&mut number, index as u64);
                number.push(' ');
                assert(number@ =~= seq!['#'] + decimal(index as nat) + seq![' ']);
                put(out, None, number);
            },
            None => {},
        }
        put(out, Some(Style::Digest), hex_chars(&digest.bytes));
        let root: bool = match self.root {
            Some(root) => root == digest,
            None => false,
        };
        let head: bool = match self.head {
            Some(head) => head == digest,
            None => false,
        };
        if root || head {
            say(out, "  ");
            let mark = if root && head {
                "[root, head]"
            } else if root {
                "[root]"
            } else {
                "[head]"
            };
            put(out, Some(Style::Mark), chars_of(mark));
        }
        say(out, "\n");
        assert(spans(out@) =~= before + self.title(index, digest));
    }
}

fn write_said(out: &mut Vec<Piece>, envelope: &Envelope)
    ensures
        spans(final(out)@) == spans(old(out)@) + said_spans(*envelope),
{
    let ghost before = spans(out@);
    proof {
        reveal_strlit("prev");
        reveal_strlit("message");
    }
    let prev = match envelope.payload.prev_digest() {
        Some(prev) => row(Some(Style::Digest), hex_chars(&prev.bytes)),
        None => row(Some(Style::Absent), chars_of("— (genesis)")),
    };
    put_one(out, "prev", prev);
    put_one(out, "message", describe(&envelope.payload));
    put_detail(out, &envelope.payload);
    assert(spans(out@) =~= before + said_spans(*envelope));
}

/// Who signed an envelope, in id order.
fn signers(envelope: &Envelope) -> (signers: Vec<Vec<Piece>>)
    ensures
        rows_view(signers@) == signer_rows(*envelope),
{
    let mut signers: Vec<Vec<Piece>> = Vec::new();
    let mut i: usize = 0;
    while i < envelope.signatures.entries.len()
        invariant
            i <= envelope.signatures.entries@.len(),
            signers@.len() == i,
            forall|j: int|
                0 <= j < i ==> spans((#[trigger] signers@[j])@) == signer_rows(*envelope)[j],
        decreases envelope.signatures.entries@.len() - i,
    {
        let id = hex_chars(&envelope.signatures.entries[i].0.bytes);
        signers.push(row(None, id));
        i += 1;
    }
    assert(rows_view(signers@) =~= signer_rows(*envelope));
    signers
}

fn write_kept(out: &mut Vec<Piece>, envelope: &Envelope, stored_at: &Option<String>)
    ensures
        spans(final(out)@) == spans(old(out)@) + kept_spans(*envelope, *stored_at),
{
    let ghost before = spans(out@);
    proof {
        reveal_strlit("verification");
        reveal_strlit("signed by");
        reveal_strlit("timestamps");
        reveal_strlit("stored");
    }
    put_one(out, "verification", describe_status(&envelope.status));
    put_field(out, "signed by", &signers(envelope));
    let mut count: Vec<char> = Vec::new();
    append_decimal(&mut count, envelope.timestamps);
    assert(count@ =~= decimal(envelope.timestamps as nat));
    put_one(out, "timestamps", row(None, count));
    // Last, and apart from the attested timestamps: this one is a note the
    // local log made, not anything signed.
    let mut stored: Vec<Vec<Piece>> = Vec::new();
    match stored_at {
        Some(at) => {
            stored.push(row(None, chars_of(at.as_str())));
            assert(rows_view(stored@) =~= seq![seq![plain(at@)]]);
        },
        None => {
            assert(rows_view(stored@) =~= Seq::empty());
        },
    }
    put_field(out, "stored", &stored);
    say(out, "\n");
    assert(spans(out@) =~= before + kept_spans(*envelope, *stored_at));
}

/// Colour is decoration and nothing else: a terminal shows what the plain
/// rendering says, as long as nothing rendered holds an escape of its own.
pub proof fn colour_is_decoration(spans: Seq<Span>)
    requires
        forall|i: int| 0 <= i < spans.len() ==> unescaped((#[trigger] spans[i]).text),
    ensures
        shown(written(Palette::Ansi, spans)) == written(Palette::Plain, spans),
{
    let none = Seq::<char>::empty();
    decoration_from(spans, none);
    assert(written(Palette::Ansi, spans) + none =~= written(Palette::Ansi, spans));
    assert(written(Palette::Plain, spans) + shown(none) =~= written(Palette::Plain, spans));
}

proof fn decoration_from(spans: Seq<Span>, rest: Seq<char>)
    requires
        forall|i: int| 0 <= i < spans.len() ==> unescaped((#[trigger] spans[i]).text),
    ensures
        shown(written(Palette::Ansi, spans) + rest) == written(Palette::Plain, spans) + shown(rest),
    decreases spans.len(),
{
    if spans.len() == 0 {
        assert(written(Palette::Ansi, spans) + rest =~= rest);
        assert(written(Palette::Plain, spans) + shown(rest) =~= shown(rest));
    } else {
        let front = spans.drop_last();
        let last = spans.last();
        let tail = written_span(Palette::Ansi, last) + rest;
        assert(written(Palette::Ansi, spans) + rest =~= written(Palette::Ansi, front) + tail);
        decoration_from(front, tail);
        assert(unescaped(last.text));
        match last.style {
            Some(style) => {
                colour_only_wraps(Palette::Ansi, style, last.text, rest);
            },
            None => {
                colour_only_wraps(Palette::Plain, Style::Label, last.text, rest);
            },
        }
        assert(written(Palette::Plain, spans) + shown(rest) =~= written(Palette::Plain, front) + (
        last.text + shown(rest)));
    }
}

} // verus!
