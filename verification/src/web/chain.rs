//! The chain page: the canonical chain the daemon holds, one stanza per
//! envelope.
//!
//! Newest first, since the page is opened to see what has been happening:
//! the head at the top, the oldest envelope shown at the bottom, marked when
//! it is the oldest the node still holds. How much is shown is bounded, and
//! both bounds ride in the query string, so a bounded view is a URL like any
//! other.

use vstd::prelude::*;

use crate::digest::{hex_of, EnvelopeDigest, KeyId};
use crate::envelope::{Envelope, Signature, VerificationStatus};
use crate::msg::{
    AmendOp, IncrementDecrement, Match, Msg, Namespace, NamespaceKey, Predicate,
};
use crate::render::envelope::{
    bounds, bounds_text, describe, describe_status, message_spans, plural, plural_text, spans,
    status_span, Span,
};
use crate::render::style::Style;
use crate::storage::log::{datetime_text, rfc3339_text, StoredAt};
use crate::subkey::{path_text, Step};
use crate::text::{append, text_of};
use crate::value::Value;
use crate::web::json::{cut, json_text, json_tree, preview};
use crate::web::location::{Location, Place};
use crate::web::view::{short, short_text};
use crate::web::walk::{window, window_text, Walk};

verus! {

/// How many characters of a written value a stanza shows.
pub const PREVIEW_WIDTH: usize = 96;

/// One envelope of the chain, as the daemon sends it.
#[derive(Debug, PartialEq, Eq)]
pub struct EnvelopeFrame {
    pub digest: EnvelopeDigest,
    pub envelope: Envelope,
    /// How the daemon scored the signatures.
    pub verification: VerificationStatus,
    /// When the daemon's log first stored it, where that is known.
    pub stored_at: Option<StoredAt>,
}

impl EnvelopeFrame {
    pub open spec fn wf(&self) -> bool {
        &&& self.envelope.wf()
        &&& self.stored_at matches Some(at) ==> at.wf()
    }
}

/// The ends of the chain the daemon holds.
#[derive(Debug, Clone, Copy, PartialEq, Eq)]
pub struct ChainRange {
    pub root: EnvelopeDigest,
    pub head: EnvelopeDigest,
}

/// A piece of a summary: text, and where it leads.
#[derive(Debug, PartialEq, Eq)]
pub struct Bit {
    pub text: String,
    pub url: Option<String>,
}

/// The namespace a message reaches into, and the path inside it.
pub open spec fn target(msg: Msg) -> Option<Place> {
    match msg {
        Msg::Init(_) => None,
        Msg::SetNamespace(set) => Some(Place { key: set.key@, path: Seq::empty() }),
        Msg::SetNamespaceKey(set) => Some(Place { key: set.key@, path: set.path@ }),
        Msg::AmendNamespaceKey(amend) => Some(
            Place {
                key: amend.key@,
                path: match amend.path {
                    Some(path) => path@,
                    None => Seq::empty(),
                },
            },
        ),
        Msg::DeleteNamespace(delete) => Some(Place { key: delete.key@, path: Seq::empty() }),
    }
}

fn find_target(msg: &Msg) -> (location: Option<Location>)
    requires
        msg.wf(),
    ensures
        match (location, target(*msg)) {
            (Some(location), Some(place)) => location.wf() && location@ == place,
            (None, None) => true,
            _ => false,
        },
{
    match msg {
        Msg::Init(_) => None,
        Msg::SetNamespace(set) => Some(Location::namespace(set.key.clone())),
        Msg::SetNamespaceKey(set) => Some(
            Location { key: set.key.clone(), path: Some(set.path.clone()) },
        ),
        Msg::AmendNamespaceKey(amend) => match &amend.path {
            Some(path) => Some(Location { key: amend.key.clone(), path: Some(path.clone()) }),
            None => Some(Location::namespace(amend.key.clone())),
        },
        Msg::DeleteNamespace(delete) => Some(Location::namespace(delete.key.clone())),
    }
}

/// Where a span of a summary leads: a namespace's name to its root, a path
/// to what it addresses.
pub open spec fn span_url(span: Span, at: Option<Place>) -> Option<Seq<char>> {
    match (span.style, at) {
        (Some(Style::Namespace), Some(place)) => Some(
            (Place { key: place.key, path: Seq::empty() }).url(),
        ),
        (Some(Style::Path), Some(place)) => Some(place.url()),
        _ => None,
    }
}

impl Bit {
    /// Whether the bit shows `span` of a message about `at`.
    pub open spec fn shows(&self, span: Span, at: Option<Place>) -> bool {
        &&& self.text@ == span.text
        &&& match (self.url, span_url(span, at)) {
            (Some(url), Some(wanted)) => url@ == wanted,
            (None, None) => true,
            _ => false,
        }
    }
}

/// Whether `bits` sum up what `msg` does.
pub open spec fn sums_up(bits: Seq<Bit>, msg: Msg) -> bool {
    &&& bits.len() == message_spans(msg).len()
    &&& forall|i: int|
        0 <= i < bits.len() ==> (#[trigger] bits[i]).shows(message_spans(msg)[i], target(msg))
}

/// A one-line summary of what a message does, the namespace and path each a
/// link to where it is browsed.
pub fn summary(msg: &Msg) -> (bits: Vec<Bit>)
    requires
        msg.wf(),
    ensures
        sums_up(bits@, *msg),
{
    let pieces = describe(msg);
    let at = find_target(msg);
    let mut bits: Vec<Bit> = Vec::new();
    let mut i: usize = 0;
    while i < pieces.len()
        invariant
            i <= pieces@.len(),
            spans(pieces@) == message_spans(*msg),
            match (at, target(*msg)) {
                (Some(location), Some(place)) => location.wf() && location@ == place,
                (None, None) => true,
                _ => false,
            },
            bits@.len() == i,
            forall|j: int|
                0 <= j < i ==> (#[trigger] bits@[j]).shows(
                    message_spans(*msg)[j],
                    target(*msg),
                ),
        decreases pieces@.len() - i,
    {
        assert(spans(pieces@)[i as int] == (Span {
            style: pieces@[i as int].style,
            text: pieces@[i as int].text@,
        }));
        let url = match (&at, pieces[i].style) {
            (Some(at), Some(Style::Namespace)) => {
                let root = Location::namespace(at.key.clone());
                assert(root@.path =~= Seq::<Step>::empty());
                Some(root.url())
            },
            (Some(at), Some(Style::Path)) => Some(at.url()),
            _ => None,
        };
        bits.push(Bit { text: text_of(&pieces[i].text), url });
        i += 1;
    }
    assert(spans(pieces@).len() == pieces@.len());
    bits
}

/// A field of a stanza: its label, and a line for each thing it holds.
#[derive(Debug, PartialEq, Eq)]
pub struct Field {
    pub label: &'static str,
    pub lines: Vec<String>,
}

/// Lines as text.
pub open spec fn lines_of(lines: Seq<String>) -> Seq<Seq<char>> {
    lines.map_values(|line: String| line@)
}

/// A value on one line, as a stanza shows it.
pub open spec fn shown(value: Value) -> Seq<char> {
    cut(json_text(json_tree(value)), PREVIEW_WIDTH as nat)
}

/// A label, and the value it stands for.
pub open spec fn equation(label: Seq<char>, value: Value) -> Seq<char> {
    label + " = "@ + shown(value)
}

/// What each namespace of a checkpoint holds.
pub open spec fn namespace_lines(entries: Seq<(NamespaceKey, Namespace)>) -> Seq<Seq<char>> {
    entries.map_values(
        |entry: (NamespaceKey, Namespace)| equation(entry.0@, entry.1.value),
    )
}

/// Where each condition looks, and what it must find there.
pub open spec fn condition_lines(conditions: Seq<Match>) -> Seq<Seq<char>> {
    conditions.map_values(
        |condition: Match|
            equation(
                match condition.path {
                    Some(path) => path_text(path@),
                    None => "entry"@,
                },
                condition.value,
            ),
    )
}

/// What a message carries beyond its summary: the value it writes, or the
/// shape of what it removes; nothing for messages the summary says all of.
pub open spec fn detail_of(msg: Msg) -> Option<(Seq<char>, Seq<Seq<char>>)> {
    match msg {
        Msg::Init(init) => Some(
            ("namespaces"@, namespace_lines(init.state.namespaces.entries@)),
        ),
        Msg::SetNamespace(set) => Some(("value"@, seq![shown(set.namespace.value)])),
        Msg::SetNamespaceKey(set) => match set.value {
            Some(value) => Some(("value"@, seq![shown(value)])),
            None => None,
        },
        Msg::AmendNamespaceKey(amend) => match amend.op {
            AmendOp::AppendEntry(value) => Some(("entry"@, seq![shown(value)])),
            AmendOp::IncrementDecrement(op) => if op.min is None && op.max is None {
                None
            } else {
                Some(("clamped"@, seq![bounds_text(op)]))
            },
            AmendOp::DeleteMatching(predicate) => Some(
                ("matching"@, condition_lines(predicate.conditions@)),
            ),
        },
        Msg::DeleteNamespace(_) => None,
    }
}

fn one(label: &'static str, line: String) -> (field: Field)
    ensures
        field.label == label,
        lines_of(field.lines@) == seq![line@],
{
    let mut lines: Vec<String> = Vec::new();
    lines.push(line);
    assert(lines_of(lines@) =~= seq![line@]);
    Field { label, lines }
}

fn equate(label: &str, value: &Value) -> (line: String)
    requires
        value.wf(),
    ensures
        line@ == equation(label@, *value),
{
    let mut line: Vec<char> = Vec::new();
    append(&mut line, label);
    append(&mut line, " = ");
    let text = preview(value, PREVIEW_WIDTH);
    append(&mut line, text.as_str());
    assert(line@ =~= equation(label@, *value));
    text_of(&line)
}

fn list_namespaces(entries: &Vec<(NamespaceKey, Namespace)>) -> (lines: Vec<String>)
    requires
        forall|i: int| 0 <= i < entries@.len() ==> (#[trigger] entries@[i]).1.wf(),
    ensures
        lines_of(lines@) == namespace_lines(entries@),
{
    let mut lines: Vec<String> = Vec::new();
    let mut i: usize = 0;
    while i < entries.len()
        invariant
            i <= entries@.len(),
            forall|j: int| 0 <= j < entries@.len() ==> (#[trigger] entries@[j]).1.wf(),
            lines@.len() == i,
            forall|j: int|
                0 <= j < i ==> (#[trigger] lines@[j])@ == equation(
                    entries@[j].0@,
                    entries@[j].1.value,
                ),
        decreases entries@.len() - i,
    {
        let entry = &entries[i];
        assert(entries@[i as int].1.wf());
        lines.push(equate(entry.0.text.as_str(), &entry.1.value));
        i += 1;
    }
    assert(lines_of(lines@) =~= namespace_lines(entries@));
    lines
}

fn list_conditions(predicate: &Predicate) -> (lines: Vec<String>)
    requires
        predicate.wf(),
    ensures
        lines_of(lines@) == condition_lines(predicate.conditions@),
{
    let conditions = &predicate.conditions;
    let mut lines: Vec<String> = Vec::new();
    let mut i: usize = 0;
    while i < conditions.len()
        invariant
            i <= conditions@.len(),
            conditions@ == predicate.conditions@,
            predicate.wf(),
            lines@.len() == i,
            forall|j: int|
                0 <= j < i ==> (#[trigger] lines@[j])@ == condition_lines(conditions@)[j],
        decreases conditions@.len() - i,
    {
        let condition = &conditions[i];
        assert(predicate.conditions@[i as int].wf());
        let line = match &condition.path {
            Some(path) => {
                let at = path.text();
                equate(at.as_str(), &condition.value)
            },
            None => equate("entry", &condition.value),
        };
        assert(line@ == condition_lines(conditions@)[i as int]);
        lines.push(line);
        i += 1;
    }
    assert(lines_of(lines@) =~= condition_lines(predicate.conditions@));
    lines
}

/// Whether `field` shows `detail`.
pub open spec fn details(field: Option<Field>, detail: Option<(Seq<char>, Seq<Seq<char>>)>) -> bool {
    match (field, detail) {
        (Some(field), Some((label, lines))) => field.label@ == label && lines_of(field.lines@)
            == lines,
        (None, None) => true,
        _ => false,
    }
}

/// What the message carries beyond its summary.
pub fn detail(msg: &Msg) -> (field: Option<Field>)
    requires
        msg.wf(),
    ensures
        details(field, detail_of(*msg)),
{
    match msg {
        Msg::Init(init) => {
            let lines = list_namespaces(&init.state.namespaces.entries);
            Some(Field { label: "namespaces", lines })
        },
        Msg::SetNamespace(set) => Some(one("value", preview(&set.namespace.value, PREVIEW_WIDTH))),
        Msg::SetNamespaceKey(set) => match &set.value {
            Some(value) => Some(one("value", preview(value, PREVIEW_WIDTH))),
            None => None,
        },
        Msg::AmendNamespaceKey(amend) => match &amend.op {
            AmendOp::AppendEntry(value) => Some(one("entry", preview(value, PREVIEW_WIDTH))),
            AmendOp::IncrementDecrement(op) => clamp(op),
            AmendOp::DeleteMatching(predicate) => Some(
                Field { label: "matching", lines: list_conditions(predicate) },
            ),
        },
        Msg::DeleteNamespace(_) => None,
    }
}

/// The bounds an increment clamps to, where it has any.
pub fn clamp(op: &IncrementDecrement) -> (field: Option<Field>)
    ensures
        details(
            field,
            if op.min is None && op.max is None {
                None
            } else {
                Some(("clamped"@, seq![bounds_text(*op)]))
            },
        ),
{
    if op.min.is_none() && op.max.is_none() {
        None
    } else {
        let chars = bounds(op);
        Some(one("clamped", text_of(&chars)))
    }
}

/// A digest that a stanza refers to.
#[derive(Debug, PartialEq, Eq)]
pub struct Reference {
    pub short: String,
    pub full: String,
    /// The stanza that shows it, where the page has one.
    pub anchor: Option<String>,
}

/// The id an envelope's stanza sits under.
pub open spec fn anchor_text(digest: EnvelopeDigest) -> Seq<char> {
    "e-"@ + short_text(digest)
}

/// The id an envelope's stanza sits under, so a reference can point at it.
pub fn anchor(digest: &EnvelopeDigest) -> (text: String)
    ensures
        text@ == anchor_text(*digest),
{
    let mut line: Vec<char> = Vec::new();
    append(&mut line, "e-");
    let hex = short(digest);
    append(&mut line, hex.as_str());
    assert(line@ =~= anchor_text(*digest));
    text_of(&line)
}

/// Whether one of `frames` is the envelope `digest` names.
pub open spec fn among(frames: Seq<EnvelopeFrame>, digest: EnvelopeDigest) -> bool {
    exists|i: int| 0 <= i < frames.len() && (#[trigger] frames[i]).digest == digest
}

fn shows(frames: &Vec<EnvelopeFrame>, digest: &EnvelopeDigest) -> (shown: bool)
    ensures
        shown == among(frames@, *digest),
{
    let mut i: usize = 0;
    while i < frames.len()
        invariant
            i <= frames@.len(),
            forall|j: int| 0 <= j < i ==> (#[trigger] frames@[j]).digest != *digest,
        decreases frames@.len() - i,
    {
        if frames[i].digest == *digest {
            return true;
        }
        i += 1;
    }
    false
}

impl Reference {
    /// Whether this refers to `digest` on a page that shows `frames`.
    pub open spec fn names(&self, digest: EnvelopeDigest, frames: Seq<EnvelopeFrame>) -> bool {
        &&& self.short@ == short_text(digest)
        &&& self.full@ == hex_of(digest.bytes@)
        &&& match self.anchor {
            Some(anchor) => among(frames, digest) && anchor@ == anchor_text(digest),
            None => !among(frames, digest),
        }
    }
}

/// When the log first saw an envelope, on the daemon's clock, in UTC.
#[derive(Debug, PartialEq, Eq)]
pub struct Stored {
    pub datetime: String,
    pub text: String,
}

fn stored(at: &Option<StoredAt>) -> (stored: Option<Stored>)
    requires
        at matches Some(at) ==> at.wf(),
    ensures
        tells(stored, *at),
{
    match at {
        Some(at) => {
            let mut line: Vec<char> = Vec::new();
            let text = at.text();
            append(&mut line, text.as_str());
            append(&mut line, " UTC");
            assert(line@ =~= datetime_text(at.millis as int) + " UTC"@);
            Some(Stored { datetime: at.rfc3339(), text: text_of(&line) })
        },
        None => None,
    }
}

/// Whether `stored` tells the time `at`.
pub open spec fn tells(stored: Option<Stored>, at: Option<StoredAt>) -> bool {
    match (stored, at) {
        (Some(stored), Some(at)) => {
            &&& stored.datetime@ == rfc3339_text(at.millis as int)
            &&& stored.text@ == datetime_text(at.millis as int) + " UTC"@
        },
        (None, None) => true,
        _ => false,
    }
}

/// One envelope: digest and marks, what it does, then a field per line.
#[derive(Debug, PartialEq, Eq)]
pub struct Stanza {
    pub anchor: String,
    pub digest: String,
    pub head: bool,
    pub root: bool,
    pub summary: Vec<Bit>,
    /// The envelope it extends; none, for genesis.
    pub prev: Option<Reference>,
    pub detail: Option<Field>,
    /// How the daemon scored the signatures.
    pub status: String,
    pub signers: Vec<String>,
    pub timestamps: u64,
    pub stored: Option<Stored>,
}

/// The keys that signed, in id order.
pub open spec fn signer_lines(envelope: Envelope) -> Seq<Seq<char>> {
    envelope.signatures.entries@.map_values(
        |entry: (KeyId, Signature)| hex_of(entry.0.bytes@),
    )
}

impl Stanza {
    /// Whether the stanza shows `frame` on a page of `frames`, between the
    /// ends `range` names.
    pub open spec fn shows(
        &self,
        frame: EnvelopeFrame,
        range: ChainRange,
        frames: Seq<EnvelopeFrame>,
    ) -> bool {
        &&& self.anchor@ == anchor_text(frame.digest)
        &&& self.digest@ == hex_of(frame.digest.bytes@)
        &&& self.head == (frame.digest == range.head)
        &&& self.root == (frame.digest == range.root)
        &&& sums_up(self.summary@, frame.envelope.payload)
        &&& match (self.prev, frame.envelope@.payload.prev()) {
            (Some(reference), Some(prev)) => reference.names(prev, frames),
            (None, None) => true,
            _ => false,
        }
        &&& details(self.detail, detail_of(frame.envelope.payload))
        &&& self.status@ == status_span(frame.verification).text
        &&& lines_of(self.signers@) == signer_lines(frame.envelope)
        &&& self.timestamps == frame.envelope.timestamps
        &&& tells(self.stored, frame.stored_at)
    }
}

fn list_signers(envelope: &Envelope) -> (signers: Vec<String>)
    ensures
        lines_of(signers@) == signer_lines(*envelope),
{
    let entries = &envelope.signatures.entries;
    let mut signers: Vec<String> = Vec::new();
    let mut i: usize = 0;
    while i < entries.len()
        invariant
            i <= entries@.len(),
            signers@.len() == i,
            forall|j: int|
                0 <= j < i ==> (#[trigger] signers@[j])@ == hex_of(entries@[j].0.bytes@),
        decreases entries@.len() - i,
    {
        signers.push(entries[i].0.to_hex());
        i += 1;
    }
    assert(lines_of(signers@) =~= signer_lines(*envelope));
    signers
}

/// One envelope's stanza.
pub fn stanza(frame: &EnvelopeFrame, range: &ChainRange, frames: &Vec<EnvelopeFrame>) -> (stanza:
    Stanza)
    requires
        frame.wf(),
    ensures
        stanza.shows(*frame, *range, frames@),
{
    let msg = &frame.envelope.payload;
    let prev = match msg.prev_digest() {
        Some(prev) => {
            let place = if shows(frames, &prev) {
                Some(anchor(&prev))
            } else {
                None
            };
            Some(Reference { short: short(&prev), full: prev.to_hex(), anchor: place })
        },
        None => None,
    };
    let said = describe_status(&frame.verification);
    assert(spans(said@).len() == said@.len());
    assert(spans(said@)[0] == status_span(frame.verification));
    assert(spans(said@)[0].text == said@[0].text@);
    Stanza {
        anchor: anchor(&frame.digest),
        digest: frame.digest.to_hex(),
        head: frame.digest == range.head,
        root: frame.digest == range.root,
        summary: summary(msg),
        prev,
        detail: detail(msg),
        status: text_of(&said[0].text),
        signers: list_signers(&frame.envelope),
        timestamps: frame.envelope.timestamps,
        stored: stored(&frame.stored_at),
    }
}

/// The chain page.
#[derive(Debug, PartialEq, Eq)]
pub struct ChainPane {
    /// How many envelopes are shown.
    pub count: String,
    pub head: String,
    pub short_head: String,
    /// The bounds in force, as the form shows them.
    pub limit: Option<u32>,
    pub since: Option<String>,
    /// What is worth saying of what is shown.
    pub note: Option<&'static str>,
    /// One stanza an envelope, newest first.
    pub stanzas: Vec<Stanza>,
}

/// What is worth saying of what is shown: that there is nothing, or that
/// the root is not among it.
pub open spec fn note_of(frames: Seq<EnvelopeFrame>, root: EnvelopeDigest) -> Option<Seq<char>> {
    if frames.len() == 0 {
        Some("Nothing in this window."@)
    } else if !among(frames, root) {
        Some(
            "Older envelopes are held but not shown; widen the bounds to see back to the root."@,
        )
    } else {
        None
    }
}

impl ChainPane {
    /// Whether the pane shows `frames`, oldest first, for `walk`.
    pub open spec fn shows(
        &self,
        walk: Walk,
        range: ChainRange,
        frames: Seq<EnvelopeFrame>,
    ) -> bool {
        &&& self.count@ == plural_text(frames.len(), "envelope"@, "envelopes"@)
        &&& self.head@ == hex_of(range.head.bytes@)
        &&& self.short_head@ == short_text(range.head)
        &&& self.limit == walk.limit
        &&& match (self.since, walk.since) {
            (Some(text), Some(since)) => text@ == window_text(since.secs as nat),
            (None, None) => true,
            _ => false,
        }
        &&& match (self.note, note_of(frames, range.root)) {
            (Some(note), Some(said)) => note@ == said,
            (None, None) => true,
            _ => false,
        }
        &&& self.stanzas@.len() == frames.len()
        &&& forall|i: int|
            0 <= i < frames.len() ==> (#[trigger] self.stanzas@[i]).shows(
                frames[frames.len() - 1 - i],
                range,
                frames,
            )
    }
}

/// The chain page: `frames`, oldest first as the daemon sends them for
/// `walk`, shown head first between the ends `range` names.
pub fn pane(walk: &Walk, range: &ChainRange, frames: &Vec<EnvelopeFrame>) -> (pane: ChainPane)
    requires
        forall|i: int| 0 <= i < frames@.len() ==> (#[trigger] frames@[i]).wf(),
    ensures
        pane.shows(*walk, *range, frames@),
{
    let n: usize = frames.len();
    let counted = plural(n, "envelope", "envelopes");
    let since = match walk.since {
        Some(since) => Some(window(since)),
        None => None,
    };
    let note = if n == 0 {
        Some("Nothing in this window.")
    } else if !shows(frames, &range.root) {
        Some("Older envelopes are held but not shown; widen the bounds to see back to the root.")
    } else {
        None
    };
    let mut stanzas: Vec<Stanza> = Vec::new();
    let mut left: usize = n;
    while left > 0
        invariant
            left <= n == frames@.len(),
            forall|i: int| 0 <= i < frames@.len() ==> (#[trigger] frames@[i]).wf(),
            stanzas@.len() == n - left,
            forall|i: int|
                0 <= i < n - left ==> (#[trigger] stanzas@[i]).shows(
                    frames@[n - 1 - i],
                    *range,
                    frames@,
                ),
        decreases left,
    {
        left -= 1;
        assert(frames@[left as int].wf());
        stanzas.push(stanza(&frames[left], range, frames));
    }
    ChainPane {
        count: text_of(&counted),
        head: range.head.to_hex(),
        short_head: short(&range.head),
        limit: walk.limit,
        since,
        note,
        stanzas,
    }
}

} // verus!
