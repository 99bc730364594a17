//! What holds of runs, of locators and of what the machines accept,
//! whatever they are given.

use vstd::prelude::*;

use crate::digest::EnvelopeDigest;
use crate::envelope::Envelope;
use crate::reading::{
    ends_on, mentions, what_stands_between, what_stands_first, what_stands_last,
};
use crate::sync::encoding::{
    eight_bytes, four_bytes, heads_read_back, item_head, spelling, two_bytes, Spelled,
};
use crate::sync::error::{error_text, Error};
use crate::sync::frame::{big_endian, front, prefix, Front};
use crate::sync::items::{are_items, item_at, items_take_room};
use crate::sync::locator::{
    doubled, doubled_is_power, locator_of, no_power_between, power_of_two, sampled_of, samples,
};
use crate::sync::proto::{kind_of, kind_text, Message, MessageKind};
use crate::sync::puller::PullPhase;
use crate::sync::server::ServeState;
use crate::sync::session::{
    breach_text, run_end, Answer, Breach, Effect, Input, PullOutcome, Query, ServeOutcome,
};
use crate::sync::trace::{
    answer_summary, effect_summary, effects_summary, message_summary, query_summary, short, Outcome,
};
use crate::sync::MAX_FRAME_LEN;
use crate::text::decimal;

verus! {

/// What the envelope at `i` has to name as the one before it: the one
/// before it in the run, or `from` for the first.
pub open spec fn link(from: EnvelopeDigest, run: Seq<Envelope>, i: int) -> Option<EnvelopeDigest> {
    if i == 0 {
        Some(from)
    } else {
        run[i - 1]@.digest
    }
}

/// Whether every envelope of a run has a digest and names the one before
/// it.
pub open spec fn chains(from: EnvelopeDigest, run: Seq<Envelope>) -> bool {
    forall|i: int|
        0 <= i < run.len() ==> (#[trigger] run[i])@.digest is Some && run[i]@.payload.prev() == link(
            from,
            run,
            i,
        )
}

/// A run is accepted exactly where every envelope of it names the one
/// before, and ends on its last one. A run that is refused chains up to the
/// envelope that is at fault: that one names another than it should, or
/// has no digest.
pub proof fn a_run_is_a_chain(from: EnvelopeDigest, run: Seq<Envelope>)
    ensures
        run_end(from, run) is Ok <==> chains(from, run),
        run_end(from, run) is Ok ==> Some(run_end(from, run)->Ok_0) == link(
            from,
            run,
            run.len() as int,
        ),
        run_end(from, run) matches Err(breach) ==> exists|i: int|
            {
                &&& 0 <= i < run.len()
                &&& chains(from, #[trigger] run.take(i))
                &&& match breach {
                    Breach::BrokenRun { expected } => link(from, run, i) == Some(expected)
                        && run[i]@.payload.prev() != Some(expected),
                    Breach::Undigestable(_) => run[i]@.payload.prev() == link(from, run, i)
                        && run[i]@.digest is None,
                    _ => false,
                }
            },
    decreases run.len(),
{
    if run.len() > 0 {
        let front = run.drop_last();
        let last = run.len() - 1;
        a_run_is_a_chain(from, front);
        assert(run.take(last) =~= front);
        assert forall|i: int| 0 <= i <= last implies #[trigger] link(from, front, i) == link(
            from,
            run,
            i,
        ) by {
            if i > 0 {
                assert(front[i - 1] == run[i - 1]);
            }
        }
        if chains(from, run) {
            assert forall|i: int| 0 <= i < front.len() implies (#[trigger] front[i])@.digest is Some
                && front[i]@.payload.prev() == link(from, front, i) by {
                assert(front[i] == run[i]);
            }
        }
        if chains(from, front) {
            assert forall|i: int| 0 <= i < last implies (#[trigger] run[i])@.digest is Some
                && run[i]@.payload.prev() == link(from, run, i) by {
                assert(front[i] == run[i]);
                assert(link(from, front, i) == link(from, run, i));
            }
            assert(link(from, front, last) == link(from, run, last));
        } else {
            let breach = run_end(from, front)->Err_0;
            let i = choose|i: int|
                {
                    &&& 0 <= i < front.len()
                    &&& chains(from, #[trigger] front.take(i))
                    &&& match breach {
                        Breach::BrokenRun { expected } => link(from, front, i) == Some(expected)
                            && front[i]@.payload.prev() != Some(expected),
                        Breach::Undigestable(_) => front[i]@.payload.prev() == link(from, front, i)
                            && front[i]@.digest is None,
                        _ => false,
                    }
                };
            assert(run.take(i) =~= front.take(i));
            assert(link(from, front, i) == link(from, run, i));
        }
    } else {
        assert(chains(from, run));
    }
}

/// How far behind the head the entries of a locator lie: the head, the one
/// before it, and then twice as far each time.
pub open spec fn offset(k: nat) -> nat {
    if k == 0 {
        0
    } else {
        doubled((k - 1) as nat)
    }
}

/// Offsets grow.
proof fn offsets_grow(a: nat, b: nat)
    requires
        a < b,
    ensures
        offset(a) < offset(b),
    decreases b,
{
    doubled_is_power((b - 1) as nat);
    if a + 1 < b {
        offsets_grow(a, (b - 1) as nat);
        doubled_is_power((b - 2) as nat);
    } else if b > 1 {
        doubled_is_power((b - 2) as nat);
    }
}

/// Of the first `n` entries those are sampled whose offsets lie among them.
proof fn doubled_offsets_are_sampled(path: Seq<EnvelopeDigest>, n: nat)
    ensures
        n == 0 ==> sampled_of(path, n).len() == 0,
        n > 0 ==> sampled_of(path, n).len() > 0 && offset((sampled_of(path, n).len() - 1) as nat)
            < n <= offset(sampled_of(path, n).len()),
        forall|k: nat|
            k < sampled_of(path, n).len() ==> #[trigger] sampled_of(path, n)[k as int]
                == path[offset(k) as int],
    decreases n,
{
    if n > 0 {
        let before = (n - 1) as nat;
        doubled_offsets_are_sampled(path, before);
        let m = sampled_of(path, before).len();
        if before == 0 {
            assert(samples(0));
            assert(sampled_of(path, n).len() == 1);
        } else if before == offset(m) {
            doubled_is_power((m - 1) as nat);
            assert(samples(before));
        } else {
            assert(m > 1) by {
                if m == 1 {
                    assert(offset(1) == 1);
                }
            }
            no_power_between((m - 2) as nat, before);
            assert(!power_of_two(before));
        }
        assert forall|k: nat| k < sampled_of(path, n).len() implies #[trigger] sampled_of(
            path,
            n,
        )[k as int] == path[offset(k) as int] by {
            if k < m {
                assert(sampled_of(path, n)[k as int] == sampled_of(path, before)[k as int]);
            }
        }
    }
}

/// A locator holds the head, the entry before it, and then each that lies
/// twice as far back as the one before, newest first, as far as the path
/// goes; and ends on the last entry of the path, once.
pub proof fn a_locator_doubles_its_steps(path: Seq<EnvelopeDigest>)
    ensures
        forall|k: nat|
            #[trigger] offset(k) < path.len() ==> k < locator_of(path).len() && locator_of(
                path,
            )[k as int] == path[offset(k) as int],
        forall|k: nat|
            k < locator_of(path).len() && #[trigger] offset(k) >= path.len() ==> {
                &&& k == locator_of(path).len() - 1
                &&& locator_of(path)[k as int] == path.last()
            },
        forall|k: nat|
            #[trigger] offset(k) + 1 == path.len() ==> locator_of(path).len() == k + 1,
{
    let front = sampled_of(path, path.len());
    doubled_offsets_are_sampled(path, path.len());
    let m = front.len();
    assert forall|k: nat| #[trigger] offset(k) < path.len() implies k < m by {
        if k > m {
            offsets_grow(m, k);
        }
    }
    assert forall|k: nat| k < locator_of(path).len() && #[trigger] offset(k) >= path.len() implies k
        == locator_of(path).len() - 1 && locator_of(path)[k as int] == path.last() by {
        if k < m - 1 {
            offsets_grow(k, (m - 1) as nat);
        }
    }
    assert forall|k: nat| #[trigger] offset(k) + 1 == path.len() implies locator_of(path).len() == k
        + 1 by {
        if k < m - 1 {
            offsets_grow(k, (m - 1) as nat);
        }
        if k > 0 {
            doubled_is_power((k - 1) as nat);
        }
        assert(samples((path.len() - 1) as nat));
    }
}

/// A puller takes from a peer what the protocol lets it send: a greeting in
/// the same version, a split its locator offers or none, a batch that
/// chains onto what it has and stays within the cap, and the end of the
/// stream. It takes nothing else.
pub proof fn a_puller_takes_what_is_due(phase: PullPhase, message: Message)
    requires
        phase.awaits_frame(),
    ensures
        phase.breach(message) is None <==> {
            ||| phase is Hello && message is Hello && message->Hello_0.version == 1
            ||| phase is Split && message is Split && phase->locator.contains(
                message->Split_0.at,
            )
            ||| phase is Split && message is NoSplit
            ||| phase is Batch && message is Envelopes && 0 < message->Envelopes_0.batch@.len()
                <= 256 && chains(phase->Batch_cursor, message->Envelopes_0.batch@)
            ||| phase is Batch && message is CaughtUp
        },
{
    if phase is Batch && message is Envelopes {
        a_run_is_a_chain(phase->Batch_cursor, message->Envelopes_0.batch@);
    }
}

/// What a puller says of a frame it refuses is what is wrong with it: a
/// version that is not its own, a frame that is not due, a split it did not
/// offer, a batch with nothing in it or with too much, or a run that is no
/// chain.
pub proof fn a_puller_names_the_breach(phase: PullPhase, message: Message)
    requires
        phase.awaits_frame(),
    ensures
        phase.breach(message) matches Some(Breach::Version { ours, theirs }) ==> ours == 1
            && message is Hello && message->Hello_0.version == theirs && theirs != 1,
        phase.breach(message) matches Some(Breach::Unexpected { got, .. }) ==> got == kind_of(
            message,
        ) && !(phase is Hello && message is Hello) && !(phase is Split && (message is Split
            || message is NoSplit)) && !(phase is Batch && (message is Envelopes
            || message is CaughtUp)),
        phase.breach(message) == Some(Breach::EmptyBatch) <==> phase is Batch && message is Envelopes
            && message->Envelopes_0.batch@.len() == 0,
        phase.breach(message) is Some && phase.breach(message)->0 is OversizedBatch <==> phase is Batch
            && message is Envelopes && message->Envelopes_0.batch@.len() > 256,
        phase.breach(message) matches Some(Breach::OversizedBatch { got }) ==> got
            == message->Envelopes_0.batch@.len(),
        phase.breach(message) matches Some(Breach::SplitNotInLocator { at }) ==> message is Split
            && message->Split_0.at == at && !phase->locator.contains(at),
{
    if phase is Batch && message is Envelopes {
        let batch = message->Envelopes_0.batch;
        assert(batch.len() == batch@.len());
        a_run_is_a_chain(phase->Batch_cursor, batch@);
    }
}

/// A server takes from a peer a greeting in the same version, and then a
/// locator that has an entry and stays within the cap. It takes nothing
/// else.
pub proof fn a_server_takes_what_is_due(state: ServeState, message: Message)
    requires
        state is AwaitHello || state is AwaitFindSplit,
    ensures
        state.breach(message) is None <==> {
            ||| state is AwaitHello && message is Hello && message->Hello_0.version == 1
            ||| state is AwaitFindSplit && message is FindSplit && 0
                < message->FindSplit_0.locator@.len() <= 64
        },
        state.breach(message) matches Some(Breach::Version { ours, theirs }) ==> ours == 1
            && message is Hello && message->Hello_0.version == theirs && theirs != 1,
        state.breach(message) matches Some(Breach::Unexpected { got, .. }) ==> got == kind_of(
            message,
        ) && !(state is AwaitHello && message is Hello) && !(state is AwaitFindSplit
            && message is FindSplit),
        state.breach(message) == Some(Breach::EmptyLocator) <==> state is AwaitFindSplit
            && message is FindSplit && message->FindSplit_0.locator@.len() == 0,
        state.breach(message) matches Some(Breach::OversizedLocator { got }) ==> got
            == message->FindSplit_0.locator@.len() && got > 64,
{
    if message is FindSplit {
        let locator = message->FindSplit_0.locator;
        assert(locator.len() == locator@.len());
    }
}

/// A pull is told to be current exactly where the peer's head is held, to
/// have no history in common exactly where the peer finds no split, and to
/// be done exactly where the peer says so, at the last envelope taken in
/// and with the count of all that were.
pub proof fn a_pull_ends_for_a_reason(phase: PullPhase, input: Input)
    requires
        phase.admits(input),
    ensures
        phase.after(input).1.contains(Effect::Done(PullOutcome::AlreadyCurrent)) <==> input
            == Input::Answer(Answer::Contains(true)),
        phase.after(input).1.contains(Effect::Done(PullOutcome::NoCommonHistory)) <==> phase is Split
            && input is Message && input->Message_0 is NoSplit,
        forall|head: EnvelopeDigest, ingested: u64|
            #[trigger] phase.after(input).1.contains(
                Effect::Done(PullOutcome::Synced { head, ingested }),
            ) <==> phase == (PullPhase::Batch { cursor: head, ingested }) && input is Message
                && input->Message_0 is CaughtUp,
        forall|breach: Breach|
            #[trigger] phase.after(input).1.contains(Effect::Violation(breach)) <==> input is Message
                && phase.breach(input->Message_0) == Some(breach),
{
    let effects = phase.after(input).1;
    assert(effects.len() <= 1);
    if effects.len() == 1 {
        assert(effects.contains(effects[0]));
    }
}

/// A serve is told to have no history in common exactly where no split was
/// found, and to be done exactly where nothing is left to send, at the last
/// envelope sent and with the count of all that were.
pub proof fn a_serve_ends_for_a_reason(state: ServeState, head: EnvelopeDigest, input: Input)
    requires
        state.admits(input),
    ensures
        state.after(head, input).1.contains(Effect::Done(ServeOutcome::NoCommonHistory)) <==> input
            == Input::Answer(Answer::SplitPoint(None)),
        forall|end: EnvelopeDigest, sent: u64|
            #[trigger] state.after(head, input).1.contains(
                Effect::Done(ServeOutcome::Served { head: end, sent }),
            ) <==> state == (ServeState::AwaitSegment { cursor: end, sent }) && input is Answer
                && input->Answer_0 is Segment && input->Answer_0->Segment_0@.len() == 0,
        forall|breach: Breach|
            #[trigger] state.after(head, input).1.contains(Effect::Violation(breach)) <==> input is Message
                && state.breach(input->Message_0) == Some(breach),
{
    let effects = state.after(head, input).1;
    if effects.len() >= 1 {
        assert(effects.contains(effects[0]));
    }
    if effects.len() >= 2 {
        assert(effects.contains(effects[1]));
    }
}

/// A frame that claims to be longer than sixteen mebibytes is refused by
/// its prefix alone, and no other is.
pub proof fn a_claim_is_held_to_the_cap(n: nat, rest: Seq<u8>)
    requires
        n <= u32::MAX,
    ensures
        n > 16 * 1024 * 1024 ==> front(prefix(n) + rest) == Front::TooLarge(n),
        n <= 16 * 1024 * 1024 ==> !(front(prefix(n) + rest) is TooLarge),
{
    let bytes = prefix(n) + rest;
    assert(bytes.take(4) =~= prefix(n));
    assert(big_endian(prefix(n)) == n);
}

/// Messages of two kinds go by two names.
pub proof fn kinds_have_names_of_their_own(a: MessageKind, b: MessageKind)
    ensures
        kind_text(a) == kind_text(b) <==> a == b,
{
    reveal_strlit("Hello");
    reveal_strlit("FindSplit");
    reveal_strlit("Split");
    reveal_strlit("NoSplit");
    reveal_strlit("Envelopes");
    reveal_strlit("CaughtUp");
    assert(kind_text(a).len() == kind_text(b).len() && a != b ==> kind_text(a)[0]
        != kind_text(b)[0]);
}

/// A breach tells what is at fault: the versions, the peer's first; what came
/// and what was due; how much too much it was.
pub proof fn a_breach_tells_what_is_at_fault(
    ours: u32,
    theirs: u32,
    got: MessageKind,
    expected: &'static str,
    count: usize,
)
    ensures
        ({
            let text = breach_text(Breach::Version { ours, theirs });
            &&& ("peer speaks protocol version "@ + decimal(theirs as nat)).is_prefix_of(text)
            &&& ends_on(text, "this node speaks "@ + decimal(ours as nat))
        }),
        mentions(breach_text(Breach::Unexpected { got, expected }), kind_text(got)),
        ends_on(breach_text(Breach::Unexpected { got, expected }), expected@),
        mentions(breach_text(Breach::OversizedBatch { got: count }), decimal(count as nat)),
        mentions(breach_text(Breach::OversizedLocator { got: count }), decimal(count as nat)),
        breach_text(Breach::OversizedBatch { got: count }) != breach_text(
            Breach::OversizedLocator { got: count },
        ),
        breach_text(Breach::EmptyBatch) != breach_text(Breach::EmptyLocator),
{
    {
        let first = "peer speaks protocol version "@ + decimal(theirs as nat);
        let text = breach_text(Breach::Version { ours, theirs });
        let lead = ", this node speaks "@;
        assert(text =~= first + (lead + decimal(ours as nat)));
        what_stands_first(first, lead + decimal(ours as nat));
        reveal_strlit(", this node speaks ");
        reveal_strlit("this node speaks ");
        assert(lead =~= seq![',', ' '] + "this node speaks "@);
        let end = "this node speaks "@ + decimal(ours as nat);
        assert(text =~= first + seq![',', ' '] + end);
        what_stands_last(first + seq![',', ' '], end);
    }
    {
        let text = breach_text(Breach::Unexpected { got, expected });
        let rest = " while awaiting "@ + expected@;
        assert(text =~= "unexpected "@ + kind_text(got) + rest);
        what_stands_between("unexpected "@, kind_text(got), rest);
        what_stands_last("unexpected "@ + kind_text(got) + " while awaiting "@, expected@);
    }
    let n = decimal(count as nat);
    what_stands_between("a batch of "@, n, " envelopes exceeds the cap"@);
    what_stands_between("a locator of "@, n, " entries exceeds the cap"@);
    reveal_strlit("a batch of ");
    reveal_strlit("a locator of ");
    assert(breach_text(Breach::OversizedBatch { got: count })[2] == 'b');
    assert(breach_text(Breach::OversizedLocator { got: count })[2] == 'l');
    reveal_strlit("an empty envelope batch");
    reveal_strlit("an empty locator");
    assert(breach_text(Breach::EmptyBatch).len() != breach_text(Breach::EmptyLocator).len());
}

/// In a log a message goes by its name, and shows what tells it from others
/// of its kind: the version and the head it greets with, the split, and how
/// many entries or envelopes it carries.
pub proof fn a_summary_names_its_message(message: Message)
    ensures
        kind_text(kind_of(message)).is_prefix_of(message_summary(message)),
        message matches Message::Hello(hello) ==> mentions(
            message_summary(message),
            decimal(hello.version as nat),
        ) && mentions(message_summary(message), short(hello.head)),
        message matches Message::Split(split) ==> mentions(
            message_summary(message),
            short(split.at),
        ),
        message matches Message::FindSplit(find) ==> mentions(
            message_summary(message),
            decimal(find.locator@.len()),
        ),
        message matches Message::Envelopes(envelopes) ==> mentions(
            message_summary(message),
            decimal(envelopes.batch@.len()),
        ),
{
    reveal_strlit("Hello");
    reveal_strlit("Hello(v");
    reveal_strlit("FindSplit");
    reveal_strlit("FindSplit(");
    reveal_strlit("Split");
    reveal_strlit("Split(");
    reveal_strlit("NoSplit");
    reveal_strlit("Envelopes");
    reveal_strlit("Envelopes(");
    reveal_strlit("CaughtUp");
    let text = message_summary(message);
    let name = kind_text(kind_of(message));
    assert(text.subrange(0, name.len() as int) =~= name);
    match message {
        Message::Hello(hello) => {
            let n = decimal(hello.version as nat);
            let rest = ", head "@ + short(hello.head) + ")"@;
            assert(text =~= "Hello(v"@ + n + rest);
            what_stands_between("Hello(v"@, n, rest);
            what_stands_between("Hello(v"@ + n + ", head "@, short(hello.head), ")"@);
        },
        Message::Split(split) => {
            what_stands_between("Split("@, short(split.at), ")"@);
        },
        Message::FindSplit(find) => {
            what_stands_between("FindSplit("@, decimal(find.locator@.len()), " entries)"@);
        },
        Message::Envelopes(envelopes) => {
            what_stands_between("Envelopes("@, decimal(envelopes.batch@.len()), ")"@);
        },
        _ => {},
    }
}

/// In a log the answers, the queries and the ends of a session are told
/// apart by what they say.
pub proof fn answers_are_told_apart(digest: EnvelopeDigest, head: EnvelopeDigest, n: u64)
    ensures
        answer_summary(Answer::Contains(true)) != answer_summary(Answer::Contains(false)),
        mentions(answer_summary(Answer::SplitPoint(Some(digest))), short(digest)),
        mentions(query_summary(Query::ContainsEnvelope(digest)), short(digest)),
        mentions(query_summary(Query::Segment { after: digest }), short(digest)),
        mentions(PullOutcome::Synced { head, ingested: n }.summary(), short(head)),
        mentions(PullOutcome::Synced { head, ingested: n }.summary(), decimal(n as nat)),
        mentions(ServeOutcome::Served { head, sent: n }.summary(), short(head)),
        mentions(ServeOutcome::Served { head, sent: n }.summary(), decimal(n as nat)),
        PullOutcome::AlreadyCurrent.summary() != PullOutcome::NoCommonHistory.summary(),
{
    reveal_strlit("Contains(true)");
    reveal_strlit("Contains(false)");
    assert("Contains(true)"@.len() != "Contains(false)"@.len());
    what_stands_between("SplitPoint("@, short(digest), ")"@);
    what_stands_between("ContainsEnvelope("@, short(digest), ")"@);
    what_stands_between("Segment(after "@, short(digest), ")"@);
    let count = decimal(n as nat);
    {
        let text = PullOutcome::Synced { head, ingested: n }.summary();
        let rest = ", ingested: "@ + count + " }"@;
        assert(text =~= "Synced { head: "@ + short(head) + rest);
        what_stands_between("Synced { head: "@, short(head), rest);
        what_stands_between("Synced { head: "@ + short(head) + ", ingested: "@, count, " }"@);
    }
    {
        let text = ServeOutcome::Served { head, sent: n }.summary();
        let rest = ", sent: "@ + count + " }"@;
        assert(text =~= "Served { head: "@ + short(head) + rest);
        what_stands_between("Served { head: "@, short(head), rest);
        what_stands_between("Served { head: "@ + short(head) + ", sent: "@, count, " }"@);
    }
    reveal_strlit("AlreadyCurrent");
    reveal_strlit("NoCommonHistory");
    assert("AlreadyCurrent"@.len() != "NoCommonHistory"@.len());
}

/// A frame that is too long is told how long it claims to be, and how long
/// one may be.
pub proof fn a_long_frame_is_told_its_length(len: u64)
    ensures
        ({
            let text = error_text(Error::FrameTooLarge(len));
            &&& ("a frame of "@ + decimal(len as nat)).is_prefix_of(text)
            &&& ends_on(text, decimal(16 * 1024 * 1024) + "-byte cap"@)
        }),
{
    let text = error_text(Error::FrameTooLarge(len));
    let first = "a frame of "@ + decimal(len as nat);
    let end = decimal(16 * 1024 * 1024) + "-byte cap"@;
    assert(MAX_FRAME_LEN as nat == 16 * 1024 * 1024);
    assert(text =~= first + (" bytes exceeds the "@ + end));
    what_stands_first(first, " bytes exceeds the "@ + end);
    assert(text =~= first + " bytes exceeds the "@ + end);
    what_stands_last(first + " bytes exceeds the "@, end);
}

/// The number that bytes spell, the highest first.
pub open spec fn worth(bytes: Seq<u8>) -> nat
    decreases bytes.len(),
{
    if bytes.len() == 0 {
        0
    } else {
        worth(bytes.drop_last()) * 256 + bytes.last() as nat
    }
}

proof fn bytes_are_worth(bytes: Seq<u8>, more: u8)
    ensures
        worth(bytes.push(more)) == worth(bytes) * 256 + more,
        worth(Seq::empty()) == 0,
{
    assert(bytes.push(more).drop_last() =~= bytes);
}

proof fn two_are_worth(a: u8, b: u8)
    ensures
        worth(seq![a, b]) == a * 256 + b,
{
    let none = Seq::<u8>::empty();
    bytes_are_worth(none, a);
    bytes_are_worth(none.push(a), b);
    assert(none.push(a).push(b) =~= seq![a, b]);
}

proof fn four_are_worth(n: nat)
    requires
        n < 0x1_0000_0000,
    ensures
        worth(four_bytes(n)) == n,
        four_bytes(n).len() == 4,
{
    let f = four_bytes(n);
    let high = n / 0x1_0000 % 0x1_0000;
    let low = n % 0x1_0000;
    two_are_worth(f[0], f[1]);
    bytes_are_worth(seq![f[0], f[1]], f[2]);
    bytes_are_worth(seq![f[0], f[1]].push(f[2]), f[3]);
    assert(seq![f[0], f[1]].push(f[2]).push(f[3]) =~= f);
    assert(f[0] == (high / 0x100 % 0x100) as u8 && f[1] == (high % 0x100) as u8);
    assert(f[2] == (low / 0x100 % 0x100) as u8 && f[3] == (low % 0x100) as u8);
    assert(f[0] * 256 + f[1] == high);
    assert(f[2] * 256 + f[3] == low);
}

proof fn eight_are_worth(n: nat)
    requires
        n <= u64::MAX,
    ensures
        worth(eight_bytes(n)) == n,
        eight_bytes(n).len() == 8,
{
    let high = n / 0x1_0000_0000 % 0x1_0000_0000;
    let low = n % 0x1_0000_0000;
    let (h, l) = (four_bytes(high), four_bytes(low));
    four_are_worth(high);
    four_are_worth(low);
    let none = Seq::<u8>::empty();
    bytes_are_worth(none, l[0]);
    bytes_are_worth(none.push(l[0]), l[1]);
    bytes_are_worth(none.push(l[0]).push(l[1]), l[2]);
    bytes_are_worth(none.push(l[0]).push(l[1]).push(l[2]), l[3]);
    assert(none.push(l[0]).push(l[1]).push(l[2]).push(l[3]) =~= l);
    bytes_are_worth(h, l[0]);
    bytes_are_worth(h.push(l[0]), l[1]);
    bytes_are_worth(h.push(l[0]).push(l[1]), l[2]);
    bytes_are_worth(h.push(l[0]).push(l[1]).push(l[2]), l[3]);
    assert(h.push(l[0]).push(l[1]).push(l[2]).push(l[3]) =~= eight_bytes(n));
    assert(worth(eight_bytes(n)) == high * 0x1_0000_0000 + low);
}

/// A head tells the kind of its item in its first three bits, and the number
/// it carries in what follows, in no more bytes than the number needs.
pub proof fn a_head_carries_its_number(kind: u8, n: nat)
    requires
        kind < 8,
        n <= u64::MAX,
    ensures
        ({
            let head = item_head(kind, n);
            let rest = head[0] as int % 32;
            &&& head[0] as int / 32 == kind
            &&& n < 24 ==> head.len() == 1 && rest == n
            &&& 24 <= n <= 0xff ==> head.len() == 2 && rest == 24
            &&& 0x100 <= n <= 0xffff ==> head.len() == 3 && rest == 25
            &&& 0x1_0000 <= n <= 0xffff_ffff ==> head.len() == 5 && rest == 26
            &&& n > 0xffff_ffff ==> head.len() == 9 && rest == 27
            &&& n >= 24 ==> worth(head.skip(1)) == n
        }),
{
    let head = item_head(kind, n);
    if n < 24 {
    } else if n < 0x100 {
        bytes_are_worth(Seq::empty(), n as u8);
        assert(head.skip(1) =~= Seq::empty().push(n as u8));
    } else if n < 0x1_0000 {
        assert(head.skip(1) =~= two_bytes(n));
        two_are_worth(two_bytes(n)[0], two_bytes(n)[1]);
        assert(seq![two_bytes(n)[0], two_bytes(n)[1]] =~= two_bytes(n));
    } else if n < 0x1_0000_0000 {
        assert(head.skip(1) =~= four_bytes(n));
        four_are_worth(n);
    } else {
        assert(head.skip(1) =~= eight_bytes(n));
        eight_are_worth(n);
    }
}

/// Which number a packet goes by.
pub open spec fn number_of(packet: Spelled) -> u8 {
    match packet {
        Spelled::Hello { .. } => 1,
        Spelled::FindSplit { .. } => 2,
        Spelled::Split { .. } => 3,
        Spelled::NoSplit => 4,
        Spelled::Envelopes { .. } => 5,
        Spelled::CaughtUp => 6,
    }
}

/// A packet is spelled as a table of one entry under the number it goes by;
/// and one that names an envelope, or carries encodings, ends on them as
/// they are.
pub proof fn a_packet_goes_by_its_number(packet: Spelled)
    ensures
        spelling(packet).len() >= 3,
        spelling(packet)[0] == 0xa1,
        spelling(packet)[1] == number_of(packet),
        packet matches Spelled::Hello { head, .. } ==> tail_is(spelling(packet), head.bytes@),
        packet matches Spelled::Split { at } ==> tail_is(spelling(packet), at.bytes@),
        packet matches Spelled::Envelopes { encodings, .. } ==> tail_is(
            spelling(packet),
            encodings,
        ),
        packet matches Spelled::FindSplit { locator } ==> locator.len() > 0 ==> tail_is(
            spelling(packet),
            locator.last().bytes@,
        ),
{
    let bytes = spelling(packet);
    match packet {
        Spelled::Hello { version, head } => {
            assert(bytes.skip(bytes.len() - 32) =~= head.bytes@);
        },
        Spelled::Split { at } => {
            assert(bytes.skip(bytes.len() - 32) =~= at.bytes@);
        },
        Spelled::Envelopes { count, encodings } => {
            assert(bytes.skip(bytes.len() - encodings.len()) =~= encodings);
        },
        Spelled::FindSplit { locator } => {
            if locator.len() > 0 {
                assert(bytes.skip(bytes.len() - 32) =~= locator.last().bytes@);
            }
        },
        _ => {},
    }
}

/// Whether `bytes` end on `tail`.
pub open spec fn tail_is(bytes: Seq<u8>, tail: Seq<u8>) -> bool {
    tail.len() <= bytes.len() && bytes.skip(bytes.len() - tail.len()) == tail
}

/// In a log effects are told in their order, with a comma between two.
pub proof fn effects_are_told_in_order<O: Outcome>(effects: Seq<Effect<O>>, more: Effect<O>)
    ensures
        effects_summary(Seq::<Effect<O>>::empty()) == Seq::<char>::empty(),
        effects_summary(seq![more]) == effect_summary(more),
        effects.len() > 0 ==> effects_summary(effects.push(more)) == effects_summary(effects)
            + ", "@ + effect_summary(more),
{
    let one = seq![more];
    assert(one.drop_last().len() == 0);
    assert(effects_summary(one.drop_last()) =~= Seq::empty());
    assert(effects_summary(one) =~= effect_summary(more));
    assert(effects.push(more).drop_last() =~= effects);
}

/// In a log an effect tells what it does with: the message that is sent, the
/// query that is put, how much is taken in, how it ended, what was breached.
pub proof fn an_effect_tells_its_matter<O: Outcome>(effect: Effect<O>)
    ensures
        effect matches Effect::Send(message) ==> mentions(
            effect_summary(effect),
            message_summary(message),
        ),
        effect matches Effect::Ask(query) ==> mentions(
            effect_summary(effect),
            query_summary(query),
        ),
        effect matches Effect::Ingest(run) ==> mentions(
            effect_summary(effect),
            decimal(run@.len()),
        ),
        effect matches Effect::Done(outcome) ==> mentions(
            effect_summary(effect),
            outcome.summary(),
        ),
        effect matches Effect::Violation(breach) ==> mentions(
            effect_summary(effect),
            breach_text(breach),
        ),
{
    match effect {
        Effect::Send(message) => what_stands_between("Send("@, message_summary(message), ")"@),
        Effect::Ask(query) => what_stands_between("Ask("@, query_summary(query), ")"@),
        Effect::Ingest(run) => what_stands_between("Ingest("@, decimal(run@.len()), ")"@),
        Effect::Done(outcome) => what_stands_between("Done("@, outcome.summary(), ")"@),
        Effect::Violation(breach) => what_stands_between("Violation("@, breach_text(breach), ")"@),
    }
}

/// An item is what its head says: a number is its head, a string as long as
/// it says, where there is that much, an array holds as many items and a map
/// twice as many, and a tag holds one.
pub proof fn an_item_is_what_its_head_says(kind: u8, n: u64, rest: Seq<u8>)
    requires
        kind < 7,
    ensures
        ({
            let len = item_head(kind, n as nat).len() as int;
            item_at(item_head(kind, n as nat) + rest, 0) == if kind <= 1 {
                Some((len, 0nat))
            } else if kind <= 3 {
                if rest.len() >= n {
                    Some((len + n, 0nat))
                } else {
                    None
                }
            } else if kind == 4 {
                Some((len, n as nat))
            } else if kind == 5 {
                Some((len, (2 * n) as nat))
            } else {
                Some((len, 1nat))
            }
        }),
{
    let head = item_head(kind, n as nat);
    let bytes = head + rest;
    assert(bytes.subrange(0, head.len() as int) =~= head);
    heads_read_back(bytes, 0, kind, n as nat);
    a_head_carries_its_number(kind, n as nat);
    assert(bytes[0] == head[0]);
    assert((bytes[0] / 0x20) as u8 == kind);
}

/// Bytes are items exactly where they are one item after the other: none is
/// nothing, and one more is one that stands first and what it holds and the
/// others after it.
pub proof fn items_stand_one_by_one(bytes: Seq<u8>, n: nat)
    ensures
        are_items(bytes, 0) <==> bytes.len() == 0,
        are_items(bytes, n) ==> n <= bytes.len(),
{
    if are_items(bytes, n) {
        items_take_room(bytes, 0, n);
    }
}

/// A machine can be fed what it waits for: a frame where the peer is next,
/// and else the answer to what it asked, whatever that is; and nothing can be
/// fed once the session ended.
pub proof fn a_machine_can_be_fed_what_it_waits_for(
    phase: PullPhase,
    state: ServeState,
    message: Message,
    held: bool,
    locator: Vec<EnvelopeDigest>,
    split: Option<EnvelopeDigest>,
    input: Input,
)
    ensures
        phase.admits(Input::Message(message)) <==> phase is Hello || phase is Split || phase is Batch,
        phase.admits(Input::Answer(Answer::Contains(held))) <==> phase is Contains,
        0 < locator@.len() <= 64 ==> (phase.admits(Input::Answer(Answer::Locator(locator)))
            <==> phase is Locator),
        phase.admits(Input::Ingested) ==> phase is Ingest,
        phase matches PullPhase::Ingest { ingested, pending, .. } ==> ingested + pending <= u64::MAX
            ==> phase.admits(Input::Ingested),
        phase is Terminal ==> !phase.admits(input),
        state.admits(Input::Message(message)) <==> state is AwaitHello || state is AwaitFindSplit,
        state.admits(Input::Answer(Answer::SplitPoint(split))) <==> state is AwaitSplitPoint,
        state is Terminal ==> !state.admits(input),
{
}

/// A server can be fed any segment it asked for that chains onto where it
/// stands and stays within the cap.
pub proof fn a_server_can_be_fed_a_segment(state: ServeState, batch: Vec<Envelope>)
    ensures
        state matches ServeState::AwaitSegment { cursor, sent } ==> chains(cursor, batch@)
            && batch@.len() <= 256 && sent + batch@.len() <= u64::MAX ==> state.admits(
            Input::Answer(Answer::Segment(batch)),
        ),
        state.admits(Input::Answer(Answer::Segment(batch))) ==> state is AwaitSegment
            && batch@.len() <= 256,
{
    if state is AwaitSegment {
        a_run_is_a_chain(state->cursor, batch@);
    }
}

} // verus!
