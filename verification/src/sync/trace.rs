//! Compact one-line summaries of machine traffic, for logs.
//!
//! A batch of envelopes is summed up by its size, and digests are cut
//! short.

use vstd::prelude::*;

use crate::digest::{hex_chars, hex_of, EnvelopeDigest};
use crate::sync::proto::Message;
use crate::sync::session::{
    breach_text, Answer, Effect, Input, PullOutcome, Query, ServeOutcome,
};
use crate::text::{append, append_decimal, decimal, text_of};

verus! {

/// The first eight hex characters of a digest: enough to correlate log
/// lines, short enough to keep them readable.
pub open spec fn short(digest: EnvelopeDigest) -> Seq<char> {
    hex_of(digest.bytes@).take(8)
}

/// A message in short.
pub open spec fn message_summary(message: Message) -> Seq<char> {
    match message {
        Message::Hello(hello) => "Hello(v"@ + decimal(hello.version as nat) + ", head "@ + short(
            hello.head,
        ) + ")"@,
        Message::FindSplit(find) => "FindSplit("@ + decimal(find.locator@.len()) + " entries)"@,
        Message::Split(split) => "Split("@ + short(split.at) + ")"@,
        Message::NoSplit(_) => "NoSplit"@,
        Message::Envelopes(envelopes) => "Envelopes("@ + decimal(envelopes.batch@.len()) + ")"@,
        Message::CaughtUp(_) => "CaughtUp"@,
    }
}

/// An answer in short.
pub open spec fn answer_summary(answer: Answer) -> Seq<char> {
    match answer {
        Answer::Contains(true) => "Contains(true)"@,
        Answer::Contains(false) => "Contains(false)"@,
        Answer::Locator(entries) => "Locator("@ + decimal(entries@.len()) + " entries)"@,
        Answer::SplitPoint(Some(at)) => "SplitPoint("@ + short(at) + ")"@,
        Answer::SplitPoint(None) => "SplitPoint(none)"@,
        Answer::Segment(envelopes) => "Segment("@ + decimal(envelopes@.len()) + ")"@,
    }
}

/// A query in short.
pub open spec fn query_summary(query: Query) -> Seq<char> {
    match query {
        Query::ContainsEnvelope(digest) => "ContainsEnvelope("@ + short(digest) + ")"@,
        Query::Locator => "Locator"@,
        Query::SplitPoint(entries) => "SplitPoint("@ + decimal(entries@.len()) + " entries)"@,
        Query::Segment { after } => "Segment(after "@ + short(after) + ")"@,
    }
}

/// An input in short.
pub open spec fn input_summary(input: Input) -> Seq<char> {
    match input {
        Input::Message(message) => message_summary(message),
        Input::Answer(answer) => answer_summary(answer),
        Input::Ingested => "Ingested"@,
    }
}

/// How a session can end, as a summary names it.
pub trait Outcome: Sized {
    /// The outcome in short.
    spec fn summary(&self) -> Seq<char>;

    /// Writes the outcome in short.
    fn summarize(&self, line: &mut Vec<char>)
        ensures
            final(line)@ == old(line)@ + self.summary(),
    ;
}

/// An effect in short.
pub open spec fn effect_summary<O: Outcome>(effect: Effect<O>) -> Seq<char> {
    match effect {
        Effect::Send(message) => "Send("@ + message_summary(message) + ")"@,
        Effect::Ask(query) => "Ask("@ + query_summary(query) + ")"@,
        Effect::Ingest(run) => "Ingest("@ + decimal(run@.len()) + ")"@,
        Effect::Done(outcome) => "Done("@ + outcome.summary() + ")"@,
        Effect::Violation(breach) => "Violation("@ + breach_text(breach) + ")"@,
    }
}

/// Effects in short, in order.
pub open spec fn effects_summary<O: Outcome>(effects: Seq<Effect<O>>) -> Seq<char>
    decreases effects.len(),
{
    if effects.len() == 0 {
        Seq::empty()
    } else {
        let front = effects_summary(effects.drop_last());
        if effects.len() > 1 {
            front + ", "@ + effect_summary(effects.last())
        } else {
            front + effect_summary(effects.last())
        }
    }
}

impl Outcome for PullOutcome {
    open spec fn summary(&self) -> Seq<char> {
        match self {
            PullOutcome::AlreadyCurrent => "AlreadyCurrent"@,
            PullOutcome::Synced { head, ingested } => "Synced { head: "@ + short(*head)
                + ", ingested: "@ + decimal(*ingested as nat) + " }"@,
            PullOutcome::NoCommonHistory => "NoCommonHistory"@,
        }
    }

    fn summarize(&self, line: &mut Vec<char>) {
        let ghost before = line@;
        match self {
            PullOutcome::AlreadyCurrent => {
                append(line, "AlreadyCurrent");
            },
            PullOutcome::Synced { head, ingested } => {
                append(line, "Synced { head: ");
                append_short(line, *head);
                append(line, ", ingested: ");
                append_decimal(line, *ingested);
                append(line, " }");
            },
            PullOutcome::NoCommonHistory => {
                append(line, "NoCommonHistory");
            },
        }
        assert(line@ =~= before + self.summary());
    }
}

impl Outcome for ServeOutcome {
    open spec fn summary(&self) -> Seq<char> {
        match self {
            ServeOutcome::NoCommonHistory => "NoCommonHistory"@,
            ServeOutcome::Served { head, sent } => "Served { head: "@ + short(*head) + ", sent: "@
                + decimal(*sent as nat) + " }"@,
        }
    }

    fn summarize(&self, line: &mut Vec<char>) {
        let ghost before = line@;
        match self {
            ServeOutcome::NoCommonHistory => {
                append(line, "NoCommonHistory");
            },
            ServeOutcome::Served { head, sent } => {
                append(line, "Served { head: ");
                append_short(line, *head);
                append(line, ", sent: ");
                append_decimal(line, *sent);
                append(line, " }");
            },
        }
        assert(line@ =~= before + self.summary());
    }
}

fn append_short(line: &mut Vec<char>, digest: EnvelopeDigest)
    ensures
        final(line)@ == old(line)@ + short(digest),
{
    let ghost before = line@;
    let hex = hex_chars(&digest.bytes);
    let mut i: usize = 0;
    while i < 8
        invariant
            i <= 8 <= hex@.len(),
            hex@ == hex_of(digest.bytes@),
            line@ == before + hex@.take(i as int),
        decreases 8 - i,
    {
        line.push(hex[i]);
        i += 1;
        assert(line@ =~= before + hex@.take(i as int));
    }
}

fn append_message(line: &mut Vec<char>, message: &Message)
    ensures
        final(line)@ == old(line)@ + message_summary(*message),
{
    let ghost before = line@;
    match message {
        Message::Hello(hello) => {
            append(line, "Hello(v");
            append_decimal(line, hello.version as u64);
            append(line, ", head ");
            append_short(line, hello.head);
            append(line, ")");
        },
        Message::FindSplit(find) => {
            append(line, "FindSplit(");
            append_decimal(line, find.locator.len() as u64);
            append(line, " entries)");
        },
        Message::Split(split) => {
            append(line, "Split(");
            append_short(line, split.at);
            append(line, ")");
        },
        Message::NoSplit(_) => {
            append(line, "NoSplit");
        },
        Message::Envelopes(envelopes) => {
            append(line, "Envelopes(");
            append_decimal(line, envelopes.batch.len() as u64);
            append(line, ")");
        },
        Message::CaughtUp(_) => {
            append(line, "CaughtUp");
        },
    }
    assert(line@ =~= before + message_summary(*message));
}

fn append_answer(line: &mut Vec<char>, answer: &Answer)
    ensures
        final(line)@ == old(line)@ + answer_summary(*answer),
{
    let ghost before = line@;
    match answer {
        Answer::Contains(held) => {
            if *held {
                append(line, "Contains(true)");
            } else {
                append(line, "Contains(false)");
            }
        },
        Answer::Locator(entries) => {
            append(line, "Locator(");
            append_decimal(line, entries.len() as u64);
            append(line, " entries)");
        },
        Answer::SplitPoint(Some(at)) => {
            append(line, "SplitPoint(");
            append_short(line, *at);
            append(line, ")");
        },
        Answer::SplitPoint(None) => {
            append(line, "SplitPoint(none)");
        },
        Answer::Segment(envelopes) => {
            append(line, "Segment(");
            append_decimal(line, envelopes.len() as u64);
            append(line, ")");
        },
    }
    assert(line@ =~= before + answer_summary(*answer));
}

fn append_query(line: &mut Vec<char>, query: &Query)
    ensures
        final(line)@ == old(line)@ + query_summary(*query),
{
    let ghost before = line@;
    match query {
        Query::ContainsEnvelope(digest) => {
            append(line, "ContainsEnvelope(");
            append_short(line, *digest);
            append(line, ")");
        },
        Query::Locator => {
            append(line, "Locator");
        },
        Query::SplitPoint(entries) => {
            append(line, "SplitPoint(");
            append_decimal(line, entries.len() as u64);
            append(line, " entries)");
        },
        Query::Segment { after } => {
            append(line, "Segment(after ");
            append_short(line, *after);
            append(line, ")");
        },
    }
    assert(line@ =~= before + query_summary(*query));
}

/// Summarizes one machine input.
pub fn input(fed: &Input) -> (line: String)
    ensures
        line@ == input_summary(*fed),
{
    let mut line: Vec<char> = Vec::new();
    match fed {
        Input::Message(message) => {
            append_message(&mut line, message);
        },
        Input::Answer(answer) => {
            append_answer(&mut line, answer);
        },
        Input::Ingested => {
            append(&mut line, "Ingested");
        },
    }
    assert(line@ =~= input_summary(*fed));
    text_of(&line)
}

/// Summarizes what a machine has its driver do, in order.
pub fn effects<O: Outcome>(told: &Vec<Effect<O>>) -> (line: String)
    ensures
        line@ == if told@.len() == 0 {
            "none"@
        } else {
            effects_summary(told@)
        },
{
    if told.len() == 0 {
        return "none".to_owned();
    }
    let mut line: Vec<char> = Vec::new();
    let mut i: usize = 0;
    assert(told@.take(0).len() == 0);
    while i < told.len()
        invariant
            i <= told@.len(),
            line@ == effects_summary(told@.take(i as int)),
        decreases told@.len() - i,
    {
        let ghost before = line@;
        proof {
            assert(told@.take(i + 1).drop_last() =~= told@.take(i as int));
            assert(told@.take(i + 1).last() == told@[i as int]);
        }
        if i > 0 {
            append(&mut line, ", ");
        }
        let ghost begun = line@;
        match &told[i] {
            Effect::Send(message) => {
                append(&mut line, "Send(");
                append_message(&mut line, message);
                append(&mut line, ")");
            },
            Effect::Ask(query) => {
                append(&mut line, "Ask(");
                append_query(&mut line, query);
                append(&mut line, ")");
            },
            Effect::Ingest(run) => {
                append(&mut line, "Ingest(");
                append_decimal(&mut line, run.len() as u64);
                append(&mut line, ")");
            },
            Effect::Done(outcome) => {
                append(&mut line, "Done(");
                outcome.summarize(&mut line);
                append(&mut line, ")");
            },
            Effect::Violation(breach) => {
                append(&mut line, "Violation(");
                let text = breach.text();
                append(&mut line, text.as_str());
                append(&mut line, ")");
            },
        }
        assert(line@ =~= begun + effect_summary(told@[i as int]));
        i += 1;
        assert(line@ =~= effects_summary(told@.take(i as int)));
    }
    assert(told@.take(i as int) =~= told@);
    text_of(&line)
}

} // verus!
