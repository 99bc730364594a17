//! What a rendering tells its reader.

use vstd::prelude::*;

use crate::digest::{hex_of, EnvelopeDigest};
use crate::envelope::{Envelope, VerificationStatus};
use crate::msg::{AmendOp, IncrementDecrement, Msg};
use crate::reading::{ends_on, what_stands_first, what_stands_last};
use crate::render::envelope::{
    amended_path, bounds_text, condition_list, detail_spans, field_rows, field_spans, kept_spans,
    message_spans, namespace_list, padded, plain, plural_text, said_spans, signer_rows, status_span,
    styled, text_rows, Entry, Render, Span, LABEL,
};
use crate::render::style::{sgr_of, Style};
use crate::render::value::{preview_of, spaces};
use crate::subkey::{path_text, Step};
use crate::text::{decimal, decimals_tell, numerals_end, signed_decimal, signed_decimals_tell};

verus! {

/// How a lower bound is put.
pub open spec fn at_least(n: i64) -> Seq<char> {
    "at least "@ + signed_decimal(n as int)
}

/// How an upper bound is put.
pub open spec fn at_most(n: i64) -> Seq<char> {
    "at most "@ + signed_decimal(n as int)
}

/// Whether `text` begins with `phrase`, which a comma or nothing follows.
pub open spec fn opens_with(text: Seq<char>, phrase: Seq<char>) -> bool {
    phrase.is_prefix_of(text) && (text.len() == phrase.len() || text[phrase.len() as int] == ',')
}

/// What the two phrases are made of.
proof fn the_phrases()
    ensures
        "at least "@ == seq!['a', 't', ' ', 'l', 'e', 'a', 's', 't', ' '],
        "at most "@ == seq!['a', 't', ' ', 'm', 'o', 's', 't', ' '],
        ", at most "@ == seq![',', ' '] + "at most "@,
{
    reveal_strlit("at least ");
    reveal_strlit("at most ");
    reveal_strlit(", at most ");
    assert("at least "@ =~= seq!['a', 't', ' ', 'l', 'e', 'a', 's', 't', ' ']);
    assert("at most "@ =~= seq!['a', 't', ' ', 'm', 'o', 's', 't', ' ']);
    assert(", at most "@ =~= seq![',', ' '] + "at most "@);
}

/// A text that ends in two numbers, each after a space, ends in the same.
proof fn the_last_number(front: Seq<char>, other: Seq<char>, a: int, b: int)
    requires
        i64::MIN <= a <= i64::MAX,
        i64::MIN <= b <= i64::MAX,
        front.len() > 0,
        other.len() > 0,
        front.last() == ' ',
        other.last() == ' ',
        front + signed_decimal(a) == other + signed_decimal(b),
    ensures
        a == b,
        front == other,
{
    let x = signed_decimal(a);
    let y = signed_decimal(b);
    signed_decimals_tell(a, b);
    let whole = front + x;
    assert(whole.len() == (other + y).len());
    if x.len() < y.len() {
        assert(whole[front.len() - 1] == ' ');
        assert((other + y)[front.len() - 1] == y[front.len() - 1 - other.len()]);
    } else if x.len() > y.len() {
        assert((other + y)[other.len() - 1] == ' ');
        assert(whole[other.len() - 1] == x[other.len() - 1 - front.len()]);
    } else {
        assert(whole.skip(front.len() as int) =~= x);
        assert((other + y).skip(front.len() as int) =~= y);
        assert(whole.take(front.len() as int) =~= front);
        assert((other + y).take(front.len() as int) =~= other);
    }
}

/// The text opens with a lower bound of `n` just where there is one.
proof fn lower_bounds_are_told(op: IncrementDecrement, n: i64)
    ensures
        opens_with(bounds_text(op), at_least(n)) <==> op.min == Some(n),
{
    the_phrases();
    let text = bounds_text(op);
    let low = "at least "@;
    let spelled = signed_decimal(n as int);
    signed_decimals_tell(n as int, n as int);
    match op.min {
        Some(min) => {
            signed_decimals_tell(min as int, n as int);
            let rest = match op.max {
                Some(max) => ", at most "@ + signed_decimal(max as int),
                None => Seq::empty(),
            };
            assert(rest.len() > 0 ==> rest[0] == ',');
            assert(text =~= at_least(min) + rest);
            assert(text.skip(9) =~= signed_decimal(min as int) + rest);
            if opens_with(text, at_least(n)) {
                let after = text.skip(at_least(n).len() as int);
                assert(text =~= at_least(n) + after);
                assert(text.skip(9) =~= spelled + after);
                numerals_end(spelled, after, signed_decimal(min as int), rest);
            }
        },
        None => {
            if opens_with(text, at_least(n)) {
                assert(at_least(n)[3] == 'l');
                assert(text[3] == at_least(n)[3]);
            }
        },
    }
}

/// The text ends with an upper bound of `n` just where there is one.
proof fn upper_bounds_are_told(op: IncrementDecrement, n: i64)
    ensures
        at_most(n).is_suffix_of(bounds_text(op)) <==> op.max == Some(n),
{
    the_phrases();
    let text = bounds_text(op);
    let low = "at least "@;
    let high = "at most "@;
    let spelled = signed_decimal(n as int);
    signed_decimals_tell(n as int, n as int);
    let from = text.len() - at_most(n).len();
    let before = text.take(from);
    if at_most(n).is_suffix_of(text) {
        assert(text =~= before + at_most(n));
        assert(before + at_most(n) =~= (before + high) + spelled);
        assert((before + high).last() == ' ');
    }
    match (op.min, op.max) {
        (_, Some(max)) => {
            let front = match op.min {
                Some(min) => low + signed_decimal(min as int) + seq![',', ' '] + high,
                None => high,
            };
            assert(text =~= front + signed_decimal(max as int));
            assert(front.last() == ' ');
            if max == n {
                let lead = front.take(front.len() - 8);
                assert(front =~= lead + high);
                assert(text =~= lead + at_most(n));
                assert(text.subrange(from, text.len() as int) =~= at_most(n));
            }
            if at_most(n).is_suffix_of(text) {
                the_last_number(front, before + high, max as int, n as int);
            }
        },
        (Some(min), None) => {
            if at_most(n).is_suffix_of(text) {
                the_last_number(low, before + high, min as int, n as int);
                assert((before + high)[before.len() as int + 3] == 'm');
                assert(before.len() == 1);
                assert(low[4] == 'e');
            }
        },
        (None, None) => {},
    }
}

/// A reader is told the bounds an increment carries, and no other: the text
/// opens with a lower bound of `n` just where it carries one, ends with an
/// upper bound of `n` just where it carries one, and is empty where it carries
/// none.
pub proof fn bounds_are_told(op: IncrementDecrement, n: i64)
    ensures
        opens_with(bounds_text(op), at_least(n)) <==> op.min == Some(n),
        at_most(n).is_suffix_of(bounds_text(op)) <==> op.max == Some(n),
        bounds_text(op).len() == 0 <==> op.min is None && op.max is None,
{
    the_phrases();
    lower_bounds_are_told(op, n);
    upper_bounds_are_told(op, n);
}

/// Increments with different bounds are rendered differently.
pub proof fn bounds_are_told_apart(a: IncrementDecrement, b: IncrementDecrement)
    requires
        bounds_text(a) == bounds_text(b),
    ensures
        a.min == b.min,
        a.max == b.max,
{
    if a.min is Some {
        bounds_are_told(a, a.min->0);
        bounds_are_told(b, a.min->0);
    } else if b.min is Some {
        bounds_are_told(a, b.min->0);
        bounds_are_told(b, b.min->0);
    }
    if a.max is Some {
        bounds_are_told(a, a.max->0);
        bounds_are_told(b, a.max->0);
    } else if b.max is Some {
        bounds_are_told(a, b.max->0);
        bounds_are_told(b, b.max->0);
    }
}

/// A count is told, and what is counted is put in the singular for one and in
/// the plural for any other number.
pub proof fn counts_are_told(a: nat, b: nat, one: Seq<char>, many: Seq<char>)
    ensures
        plural_text(a, one, many) == plural_text(b, one, many) ==> a == b,
        plural_text(a, one, many) == decimal(a) + seq![' '] + if a == 1 {
            one
        } else {
            many
        },
{
    decimals_tell(a, b);
    let noun = |n: nat|
        if n == 1 {
            one
        } else {
            many
        };
    if plural_text(a, one, many) == plural_text(b, one, many) {
        let left = seq![' '] + noun(a);
        let right = seq![' '] + noun(b);
        assert(plural_text(a, one, many) =~= decimal(a) + left);
        assert(plural_text(b, one, many) =~= decimal(b) + right);
        numerals_end(decimal(a), left, decimal(b), right);
    }
}

/// What an envelope reaches into.
pub open spec fn reached(msg: Msg) -> Option<(Seq<char>, Option<Seq<Step>>)> {
    match msg {
        Msg::Init(_) => None,
        Msg::SetNamespace(set) => Some((set.key@, None)),
        Msg::SetNamespaceKey(set) => Some((set.key@, Some(set.path@))),
        Msg::AmendNamespaceKey(amend) => Some((amend.key@, amended_path(amend))),
        Msg::DeleteNamespace(delete) => Some((delete.key@, None)),
    }
}

/// A summary names the namespace an envelope reaches into, and the path where
/// it reaches further, once each and as what they are; and nothing else stands
/// in it as a namespace or a path.
pub proof fn a_summary_names_its_target(msg: Msg, i: int)
    requires
        0 <= i < message_spans(msg).len(),
    ensures
        ({
            let span = message_spans(msg)[i];
            &&& span.style == Some(Style::Namespace) ==> reached(msg) is Some && span.text
                == (reached(msg)->0).0
            &&& span.style == Some(Style::Path) ==> reached(msg) is Some && (reached(msg)->0).1
                is Some && span.text == path_text((reached(msg)->0).1->0)
        }),
        reached(msg) is Some ==> exists|j: int|
            0 <= j < message_spans(msg).len() && #[trigger] message_spans(msg)[j] == (Span {
                style: Some(Style::Namespace),
                text: (reached(msg)->0).0,
            }),
        reached(msg) is Some && (reached(msg)->0).1 is Some ==> exists|j: int|
            0 <= j < message_spans(msg).len() && #[trigger] message_spans(msg)[j] == (Span {
                style: Some(Style::Path),
                text: path_text((reached(msg)->0).1->0),
            }),
{
    let all = message_spans(msg);
    if reached(msg) is Some {
        if (reached(msg)->0).1 is Some {
            assert(all[1].style == Some(Style::Path));
            assert(all[3].style == Some(Style::Namespace));
        } else {
            assert(all[2].style == Some(Style::Namespace));
        }
    }
}

/// What an envelope does, in the words a summary opens with.
pub open spec fn opening(msg: Msg) -> Seq<char> {
    message_spans(msg)[0].text
}

/// A summary opens with what the envelope does, a write told from a clearing,
/// a deletion of entries from one of a namespace, and an addition with how
/// much is added.
pub proof fn a_summary_says_what_is_done(msg: Msg)
    ensures
        message_spans(msg).len() > 0,
        msg is Init ==> opening(msg) == "init, "@,
        msg is SetNamespace ==> opening(msg) == "set "@,
        msg is DeleteNamespace ==> opening(msg) == "delete "@,
        msg matches Msg::SetNamespaceKey(set) ==> (set.value is Some ==> opening(msg) == "set "@)
            && (set.value is None ==> opening(msg) == "clear "@),
        msg matches Msg::AmendNamespaceKey(amend) ==> (amend.op is AppendEntry ==> opening(msg)
            == "append an entry to "@) && (amend.op is DeleteMatching ==> opening(msg)
            == "delete entries of "@) && (amend.op matches AmendOp::IncrementDecrement(op)
            ==> opening(msg) == "add "@ + signed_decimal(op.delta as int) + " to "@),
{
}

/// How signatures scored is told apart: unchecked, failed by how many, or
/// matched with what weight; good, bad or unknown as it is.
pub proof fn scores_are_told_apart(a: VerificationStatus, b: VerificationStatus)
    ensures
        a is Unchecked <==> status_span(a).style == Some(Style::Unknown),
        a is Failed <==> status_span(a).style == Some(Style::Bad),
        a is AllMatched <==> status_span(a).style == Some(Style::Good),
        status_span(a) == status_span(b) && a is AllMatched ==> b is AllMatched
            && b->total_weight == a->total_weight,
        status_span(a) == status_span(b) && a is Failed ==> b is Failed
            && b->failing_key_ids.map.entries@.len() == a->failing_key_ids.map.entries@.len(),
{
    if status_span(a) == status_span(b) {
        if a is AllMatched && b is AllMatched {
            let lead = "all matched, weight "@;
            let x = decimal(a->total_weight as nat);
            let y = decimal(b->total_weight as nat);
            decimals_tell(a->total_weight as nat, b->total_weight as nat);
            assert((lead + x).skip(lead.len() as int) =~= x);
            assert((lead + y).skip(lead.len() as int) =~= y);
        }
        if a is Failed && b is Failed {
            let lead = "failed, "@;
            let m = a->failing_key_ids.map.entries@.len();
            let n = b->failing_key_ids.map.entries@.len();
            let x = plural_text(m, "bad signature"@, "bad signatures"@);
            let y = plural_text(n, "bad signature"@, "bad signatures"@);
            counts_are_told(m, n, "bad signature"@, "bad signatures"@);
            assert((lead + x).skip(lead.len() as int) =~= x);
            assert((lead + y).skip(lead.len() as int) =~= y);
        }
    }
}

/// Marks say of an envelope whether it is the root, and whether it is the
/// head: two are marked alike exactly where both hold of the one as of the
/// other, and one of which neither holds is not marked.
pub proof fn marks_tell_the_ends(render: Render, a: EnvelopeDigest, b: EnvelopeDigest)
    ensures
        render.marks(a) == render.marks(b) <==> (render.root == Some(a)) == (render.root == Some(b))
            && (render.head == Some(a)) == (render.head == Some(b)),
        render.marks(a).len() == 0 <==> render.root != Some(a) && render.head != Some(a),
{
    reveal_strlit("[root, head]");
    reveal_strlit("[root]");
    reveal_strlit("[head]");
    if render.marks(a) == render.marks(b) && render.marks(a).len() > 0 {
        let (x, y) = (render.marks(a)[1].text, render.marks(b)[1].text);
        assert(x == y);
        assert(x.len() == y.len());
        assert(x[1] == y[1]);
    }
}

/// A span that stands in one of two runs stands in both as one.
proof fn stands_in_either(a: Seq<Span>, b: Seq<Span>, span: Span)
    ensures
        (a + b).contains(span) <==> a.contains(span) || b.contains(span),
{
    if a.contains(span) {
        let i = choose|i: int| 0 <= i < a.len() && a[i] == span;
        assert((a + b)[i] == span);
    }
    if b.contains(span) {
        let i = choose|i: int| 0 <= i < b.len() && b[i] == span;
        assert((a + b)[a.len() + i] == span);
    }
    if (a + b).contains(span) {
        let i = choose|i: int| 0 <= i < (a + b).len() && (a + b)[i] == span;
        if i < a.len() {
            assert(a[i] == span);
        } else {
            assert(b[i - a.len()] == span);
        }
    }
}

/// What stands in a line of a field stands in the field.
proof fn a_row_stands_in_its_field(
    label: Seq<char>,
    values: Seq<Seq<Span>>,
    k: nat,
    i: int,
    span: Span,
)
    requires
        0 <= i < k,
        values[i].contains(span),
    ensures
        field_rows(label, values, k).contains(span),
    decreases k,
{
    let before = field_rows(label, values, (k - 1) as nat);
    let lead = if k == 1 {
        styled(Style::Label, padded(label))
    } else {
        plain(spaces(LABEL as nat))
    };
    let front = seq![plain("   "@), lead, plain("  "@)];
    let end = seq![plain("\n"@)];
    let row = front + values[k - 1] + end;
    stands_in_either(before, row, span);
    if i < k - 1 {
        a_row_stands_in_its_field(label, values, (k - 1) as nat, i, span);
    } else {
        stands_in_either(front + values[k - 1], end, span);
        stands_in_either(front, values[k - 1], span);
    }
}

proof fn a_value_stands_in_its_field(label: Seq<char>, values: Seq<Seq<Span>>, i: int, span: Span)
    requires
        0 <= i < values.len(),
        values[i].contains(span),
    ensures
        field_spans(label, values).contains(span),
{
    a_row_stands_in_its_field(label, values, values.len(), i, span);
}

/// The only value of a field stands in it.
proof fn one_value_stands_in_its_field(label: Seq<char>, span: Span)
    ensures
        field_spans(label, seq![seq![span]]).contains(span),
{
    let values = seq![seq![span]];
    assert(values[0][0] == span);
    a_value_stands_in_its_field(label, values, 0, span);
}

/// A stanza shows of an envelope its digest, the one it follows, what it
/// does, how it was scored, who signed it, how many times it was stamped
/// and when it was stored.
pub proof fn a_stanza_tells_of_its_envelope(render: Render, index: Option<usize>, entry: Entry)
    ensures
        ({
            let stanza = render.stanza(index, entry);
            let envelope = entry.envelope;
            &&& stanza.contains(
                Span { style: Some(Style::Digest), text: hex_of(entry.digest.bytes@) },
            )
            &&& envelope@.payload.prev() matches Some(prev) ==> stanza.contains(
                Span { style: Some(Style::Digest), text: hex_of(prev.bytes@) },
            )
            &&& forall|i: int|
                0 <= i < message_spans(envelope.payload).len() ==> stanza.contains(
                    #[trigger] message_spans(envelope.payload)[i],
                )
            &&& stanza.contains(status_span(envelope.status))
            &&& forall|i: int|
                0 <= i < envelope.signatures.entries@.len() ==> stanza.contains(
                    (Span {
                        style: None,
                        text: hex_of((#[trigger] envelope.signatures.entries@[i]).0.bytes@),
                    }),
                )
            &&& stanza.contains(Span { style: None, text: decimal(envelope.timestamps as nat) })
            &&& entry.stored_at matches Some(at) ==> stanza.contains(
                Span { style: None, text: at@ },
            )
        }),
{
    let envelope = entry.envelope;
    let title = render.title(index, entry.digest);
    let said = said_spans(envelope);
    let kept = kept_spans(envelope, entry.stored_at);
    let stanza = render.stanza(index, entry);
    assert forall|span: Span| #[trigger] stanza.contains(span) <==> title.contains(span)
        || said.contains(span) || kept.contains(span) by {
        stands_in_either(title + said, kept, span);
        stands_in_either(title, said, span);
    }
    the_title_shows_the_digest(render, index, entry.digest);
    let prev = match envelope@.payload.prev() {
        Some(prev) => styled(Style::Digest, hex_of(prev.bytes@)),
        None => styled(Style::Absent, "— (genesis)"@),
    };
    let a = field_spans("prev"@, seq![seq![prev]]);
    let b = field_spans("message"@, seq![message_spans(envelope.payload)]);
    let c = detail_spans(envelope.payload);
    assert forall|span: Span| a.contains(span) || b.contains(span) implies said.contains(span) by {
        stands_in_either(a + b, c, span);
        stands_in_either(a, b, span);
    }
    one_value_stands_in_its_field("prev"@, prev);
    assert forall|i: int| 0 <= i < message_spans(envelope.payload).len() implies stanza.contains(
        #[trigger] message_spans(envelope.payload)[i],
    ) by {
        let span = message_spans(envelope.payload)[i];
        a_value_stands_in_its_field("message"@, seq![message_spans(envelope.payload)], 0, span);
        assert(b.contains(span));
    }
    the_rest_is_kept(envelope, entry.stored_at);
    assert forall|i: int| 0 <= i < envelope.signatures.entries@.len() implies stanza.contains(
        (Span {
            style: None,
            text: hex_of((#[trigger] envelope.signatures.entries@[i]).0.bytes@),
        }),
    ) by {
        assert(kept.contains(plain(hex_of(envelope.signatures.entries@[i].0.bytes@))));
    }
}

proof fn the_title_shows_the_digest(render: Render, index: Option<usize>, digest: EnvelopeDigest)
    ensures
        render.title(index, digest).contains(styled(Style::Digest, hex_of(digest.bytes@))),
{
    let span = styled(Style::Digest, hex_of(digest.bytes@));
    let number = match index {
        Some(index) => seq![plain(seq!['#'] + decimal(index as nat) + seq![' '])],
        None => Seq::empty(),
    };
    let marks = render.marks(digest);
    let end = seq![plain("\n"@)];
    stands_in_either(number + seq![span] + marks, end, span);
    stands_in_either(number + seq![span], marks, span);
    stands_in_either(number, seq![span], span);
    assert(seq![span][0] == span);
}

proof fn the_rest_is_kept(envelope: Envelope, stored_at: Option<String>)
    ensures
        ({
            let kept = kept_spans(envelope, stored_at);
            &&& kept.contains(status_span(envelope.status))
            &&& forall|i: int|
                0 <= i < envelope.signatures.entries@.len() ==> kept.contains(
                    plain(hex_of((#[trigger] envelope.signatures.entries@[i]).0.bytes@)),
                )
            &&& kept.contains(plain(decimal(envelope.timestamps as nat)))
            &&& stored_at matches Some(at) ==> kept.contains(plain(at@))
        }),
{
    let stored = match stored_at {
        Some(at) => seq![seq![plain(at@)]],
        None => Seq::empty(),
    };
    let kept = kept_spans(envelope, stored_at);
    let a = field_spans("verification"@, seq![seq![status_span(envelope.status)]]);
    let b = field_spans("signed by"@, signer_rows(envelope));
    let c = field_spans("timestamps"@, seq![seq![plain(decimal(envelope.timestamps as nat))]]);
    let d = field_spans("stored"@, stored);
    let end = seq![plain("\n"@)];
    assert forall|span: Span|
        a.contains(span) || b.contains(span) || c.contains(span) || d.contains(
            span,
        ) implies #[trigger] kept.contains(span) by {
        stands_in_either(a + b + c + d, end, span);
        stands_in_either(a + b + c, d, span);
        stands_in_either(a + b, c, span);
        stands_in_either(a, b, span);
    }
    one_value_stands_in_its_field("verification"@, status_span(envelope.status));
    one_value_stands_in_its_field("timestamps"@, plain(decimal(envelope.timestamps as nat)));
    assert(c.contains(plain(decimal(envelope.timestamps as nat))));
    if stored_at is Some {
        one_value_stands_in_its_field("stored"@, plain(stored_at->0@));
        assert(d.contains(plain(stored_at->0@)));
    }
    assert forall|i: int| 0 <= i < envelope.signatures.entries@.len() implies kept.contains(
        plain(hex_of((#[trigger] envelope.signatures.entries@[i]).0.bytes@)),
    ) by {
        let span = plain(hex_of(envelope.signatures.entries@[i].0.bytes@));
        assert(signer_rows(envelope)[i][0] == span);
        a_value_stands_in_its_field("signed by"@, signer_rows(envelope), i, span);
        assert(b.contains(span));
    }
}

/// A chain is shown envelope by envelope, each under its number, in their
/// order, and nothing between them.
pub proof fn a_chain_shows_every_envelope(render: Render, chain: Seq<Entry>, k: nat, i: int)
    requires
        0 <= i < k <= chain.len(),
        chain.len() <= usize::MAX,
    ensures
        exists|before: Seq<Span>, after: Seq<Span>|
            {
                &&& render.stanzas(chain, k) == #[trigger] (before + render.stanza(
                    Some(i as usize),
                    chain[i],
                ) + after)
                &&& before == render.stanzas(chain, i as nat)
                &&& (i == k - 1) == (after.len() == 0)
            },
    decreases k,
{
    let last = render.stanza(Some((k - 1) as usize), chain[k - 1]);
    let front = render.stanzas(chain, (k - 1) as nat);
    if i == k - 1 {
        let none = Seq::<Span>::empty();
        assert(render.stanzas(chain, k) =~= front + last + none);
    } else {
        a_chain_shows_every_envelope(render, chain, (k - 1) as nat, i);
        let here = render.stanza(Some(i as usize), chain[i]);
        let before = render.stanzas(chain, i as nat);
        let after = choose|after: Seq<Span>| front == #[trigger] (before + here + after);
        assert(render.stanzas(chain, k) =~= before + here + (after + last));
        the_title_shows_the_digest(render, Some((k - 1) as usize), chain[k - 1].digest);
        assert(last.len() > 0);
    }
}

/// Every line that previews what a message writes stands in its stanza, and
/// so do the bounds of an increment.
pub proof fn a_stanza_shows_what_is_written(msg: Msg, line: int)
    ensures
        msg matches Msg::SetNamespace(set) ==> 0 <= line < preview_of(
            Seq::empty(),
            set.namespace.value,
        ).len() ==> detail_spans(msg).contains(
            plain(preview_of(Seq::empty(), set.namespace.value)[line]),
        ),
        msg matches Msg::SetNamespaceKey(set) ==> set.value matches Some(value) ==> 0 <= line
            < preview_of(Seq::empty(), value).len() ==> detail_spans(msg).contains(
            plain(preview_of(Seq::empty(), value)[line]),
        ),
        msg matches Msg::AmendNamespaceKey(amend) ==> amend.op matches AmendOp::AppendEntry(value)
            ==> 0 <= line < preview_of(Seq::empty(), value).len() ==> detail_spans(msg).contains(
            plain(preview_of(Seq::empty(), value)[line]),
        ),
        msg matches Msg::AmendNamespaceKey(amend)
            ==> amend.op matches AmendOp::IncrementDecrement(op) ==> op.min is Some || op.max is Some
            ==> detail_spans(msg).contains(plain(bounds_text(op))),
        msg matches Msg::SetNamespaceKey(set) ==> set.value is None ==> detail_spans(msg).len() == 0,
        msg is DeleteNamespace ==> detail_spans(msg).len() == 0,
{
    match msg {
        Msg::SetNamespace(set) => {
            a_line_stands_in_its_field(
                "value"@,
                preview_of(Seq::empty(), set.namespace.value),
                line,
            );
        },
        Msg::SetNamespaceKey(set) => match set.value {
            Some(value) => {
                a_line_stands_in_its_field("value"@, preview_of(Seq::empty(), value), line);
            },
            None => {},
        },
        Msg::AmendNamespaceKey(amend) => match amend.op {
            AmendOp::AppendEntry(value) => {
                a_line_stands_in_its_field("entry"@, preview_of(Seq::empty(), value), line);
            },
            AmendOp::IncrementDecrement(op) => {
                one_value_stands_in_its_field("clamped"@, plain(bounds_text(op)));
            },
            _ => {},
        },
        _ => {},
    }
}

/// A line of text stands in the field it is of.
proof fn a_line_stands_in_its_field(label: Seq<char>, lines: Seq<Seq<char>>, i: int)
    ensures
        0 <= i < lines.len() ==> field_spans(label, text_rows(lines)).contains(plain(lines[i])),
{
    if 0 <= i < lines.len() {
        assert(text_rows(lines)[i][0] == plain(lines[i]));
        a_value_stands_in_its_field(label, text_rows(lines), i, plain(lines[i]));
    }
}

/// A checkpoint is previewed namespace by namespace, and a deletion condition
/// by condition: each under its name, with its value.
pub proof fn previews_are_labelled(msg: Msg, i: int)
    ensures
        msg matches Msg::Init(init) ==> {
            let entries = init.state.namespaces.entries@;
            &&& namespace_list(msg).len() == entries.len()
            &&& 0 <= i < entries.len() ==> namespace_list(msg)[i] == (
                entries[i].0@ + " = "@,
                entries[i].1.value,
            )
        },
        msg matches Msg::AmendNamespaceKey(amend) ==> amend.op matches AmendOp::DeleteMatching(
            predicate,
        ) ==> {
            let conditions = predicate.conditions@;
            &&& condition_list(conditions).len() == conditions.len()
            &&& 0 <= i < conditions.len() ==> condition_list(conditions)[i] == (
                (match conditions[i].path {
                    Some(path) => path_text(path@),
                    None => "entry"@,
                }) + " = "@,
                conditions[i].value,
            )
        },
{
}

/// The line above a chain counts what is shown, and says where it is from
/// where that is known.
pub proof fn a_heading_counts_the_chain(render: Render, count: nat)
    ensures
        decimal(count).is_prefix_of(render.heading(count)[0].text),
        render.header matches Some(header) ==> ends_on(
            render.heading(count)[0].text,
            " on "@ + header@,
        ),
        render.header is None ==> render.heading(count)[0].text == plural_text(
            count,
            "envelope"@,
            "envelopes"@,
        ),
{
    let counted = plural_text(count, "envelope"@, "envelopes"@);
    let noun = if count == 1 {
        "envelope"@
    } else {
        "envelopes"@
    };
    match render.header {
        Some(header) => {
            let rest = seq![' '] + noun + " on "@ + header@;
            assert(render.heading(count)[0].text =~= decimal(count) + rest);
            what_stands_first(decimal(count), rest);
            assert(render.heading(count)[0].text =~= counted + (" on "@ + header@));
            what_stands_last(counted, " on "@ + header@);
        },
        None => {
            assert(render.heading(count)[0].text =~= decimal(count) + (seq![' '] + noun));
            what_stands_first(decimal(count), seq![' '] + noun);
        },
    }
}

/// Signatures that verified, that did not and that were not looked at are
/// coloured each in their own way, and so are a namespace and a path.
pub proof fn colours_are_told_apart()
    ensures
        sgr_of(Style::Good) != sgr_of(Style::Bad),
        sgr_of(Style::Good) != sgr_of(Style::Unknown),
        sgr_of(Style::Bad) != sgr_of(Style::Unknown),
        sgr_of(Style::Namespace) != sgr_of(Style::Path),
        sgr_of(Style::Digest) != sgr_of(Style::Label),
{
    reveal_strlit("32");
    reveal_strlit("33");
    reveal_strlit("1;31");
    reveal_strlit("34");
    reveal_strlit("35");
    reveal_strlit("36");
    reveal_strlit("2");
    assert("32"@[1] != "33"@[1] && "34"@[1] != "35"@[1]);
    assert("1;31"@.len() == 4 && "2"@.len() == 1 && "36"@.len() == 2);
}

/// A field carries its label once, on its first line, padded to the width
/// that every label has; its further lines are as far in.
pub proof fn a_field_is_labelled_once(label: Seq<char>, values: Seq<Seq<Span>>, k: nat)
    requires
        label.len() <= 13,
        0 < k <= values.len(),
    ensures
        padded(label).len() == 13,
        label.is_prefix_of(padded(label)),
        field_rows(label, values, 1)[1] == (Span {
            style: Some(Style::Label),
            text: padded(label),
        }),
        field_rows(label, values, k)[1] == field_rows(label, values, 1)[1],
        k > 1 ==> field_rows(label, values, k)[field_rows(label, values, (k - 1) as nat).len() as int
            + 1] == (Span { style: None, text: spaces(13) }),
    decreases k,
{
    what_stands_first(label, spaces((LABEL - label.len()) as nat));
    reveal_with_fuel(field_rows, 2);
    let row = seq![plain("   "@), styled(Style::Label, padded(label)), plain("  "@)] + values[0]
        + seq![plain("\n"@)];
    assert(field_rows(label, values, 0) + row =~= row);
    assert(field_rows(label, values, 1)[1] == row[1]);
    if k > 1 {
        a_field_is_labelled_once(label, values, (k - 1) as nat);
    }
}

} // verus!
