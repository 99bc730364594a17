//! How much of the chain a page asks for.

use vstd::prelude::*;

use crate::reading::{is_blank, numbers_are_read, trimming_takes_what_is_around};
use crate::storage::log::Span;
use crate::text::{
    append, append_chars, append_decimal, decimal, decimal_reads_back, digits_value, is_digit,
    read_digits, read_unsigned, text_of, trim, trimmed, unsigned_value,
};
use crate::web::error::Error;

verus! {

/// Where the chain is shown.
pub const CHAIN_URL: &'static str = "/chain";

/// How many envelopes the page shows when the URL does not say.
pub const DEFAULT_LIMIT: u32 = 100;

/// How much of the chain the page asks for: two bounds, as the query string
/// spells them.
#[derive(Debug, Clone, Copy, PartialEq, Eq, Structural)]
pub struct Walk {
    /// At most this many envelopes back from the head; `None` for all the
    /// node holds.
    pub limit: Option<u32>,
    /// Only what the node stored within this window.
    pub since: Option<Span>,
}

/// What to ask the daemon for.
#[derive(Debug, Clone, Copy, PartialEq, Eq, Structural)]
pub struct ChainWalk {
    pub limit: Option<u32>,
    pub since: Option<Span>,
}

impl ChainWalk {
    /// The most envelopes asked for.
    pub fn limit(&self) -> (limit: Option<u32>)
        ensures
            limit == self.limit,
    {
        self.limit
    }

    /// The window asked for.
    pub fn since(&self) -> (since: Option<Span>)
        ensures
            since == self.since,
    {
        self.since
    }
}

/// How many characters of `text` from `from` on are digits before the first
/// that is not.
pub open spec fn digit_run(text: Seq<char>, from: int) -> int
    decreases text.len() - from,
{
    if 0 <= from < text.len() && is_digit(text[from]) {
        digit_run(text, from + 1)
    } else {
        from
    }
}

/// A unit's length in milliseconds.
pub open spec fn unit_millis(unit: Seq<char>) -> Option<nat> {
    if unit == "ms"@ {
        Some(1)
    } else if unit == ""@ || unit == "s"@ {
        Some(1_000)
    } else if unit == "m"@ {
        Some(60_000)
    } else if unit == "h"@ {
        Some(3_600_000)
    } else if unit == "d"@ {
        Some(86_400_000)
    } else {
        None
    }
}

/// Text between backquotes, and what is said of it.
pub open spec fn said_of(text: Seq<char>, said: Seq<char>) -> Seq<char> {
    "`"@ + text + said
}

/// What a window comes to, in milliseconds, or what is wrong with it.
pub open spec fn window_of(text: Seq<char>) -> Result<nat, Seq<char>> {
    let split = digit_run(text, 0);
    let count = text.take(split);
    let unit = text.skip(split);
    if count.len() == 0 || digits_value(count) > u64::MAX {
        Err(said_of(text, "` is not a window; write one like 90s, 15m, 2h or 7d"@))
    } else {
        match unit_millis(unit) {
            None => Err(said_of(unit, "` is not a unit; use ms, s, m, h or d"@)),
            Some(millis) => if digits_value(count) * millis > u64::MAX {
                Err(said_of(text, "` is a longer window than any log covers"@))
            } else {
                Ok((digits_value(count) * millis) as nat)
            },
        }
    }
}

/// A run of digits is made of digits.
proof fn runs_are_digits(text: Seq<char>, from: int)
    requires
        0 <= from <= text.len(),
    ensures
        from <= digit_run(text, from) <= text.len(),
        forall|i: int| from <= i < digit_run(text, from) ==> is_digit(#[trigger] text[i]),
        digit_run(text, from) < text.len() ==> !is_digit(text[digit_run(text, from)]),
    decreases text.len() - from,
{
    if from < text.len() && is_digit(text[from]) {
        runs_are_digits(text, from + 1);
    }
}

fn complain(text: &Vec<char>, said: &'static str) -> (line: String)
    ensures
        line@ == said_of(text@, said@),
{
    let mut line: Vec<char> = Vec::new();
    append(&mut line, "`");
    append_chars(&mut line, text);
    append(&mut line, said);
    assert(line@ =~= said_of(text@, said@));
    text_of(&line)
}

fn same(chars: &Vec<char>, text: &'static str) -> (same: bool)
    ensures
        same == (chars@ == text@),
{
    let spelled = text_of(chars);
    let wanted = text.to_owned();
    spelled == wanted
}

/// Reads a window like `90s`, `15m`, `2h` or `7d`. A bare number is seconds.
pub fn parse_window(text: &Vec<char>) -> (window: Result<Span, String>)
    ensures
        match window {
            Ok(span) => span.wf() && window_of(text@) == Ok::<nat, Seq<char>>(
                span.millis() as nat,
            ) && span.millis() >= 0 && span.nanos % 1_000_000 == 0,
            Err(why) => window_of(text@) == Err::<nat, Seq<char>>(why@),
        },
{
    let n: usize = text.len();
    let mut split: usize = 0;
    let mut count: Vec<char> = Vec::new();
    while split < n && '0' <= text[split] && text[split] <= '9'
        invariant
            split <= n == text@.len(),
            digit_run(text@, 0) == digit_run(text@, split as int),
            count@ == text@.take(split as int),
            forall|i: int| 0 <= i < split ==> is_digit(#[trigger] text@[i]),
        decreases n - split,
    {
        count.push(text[split]);
        split += 1;
        assert(count@ =~= text@.take(split as int));
    }
    let mut unit: Vec<char> = Vec::new();
    let mut i: usize = split;
    while i < n
        invariant
            split <= i <= n == text@.len(),
            unit@ == text@.subrange(split as int, i as int),
        decreases n - i,
    {
        unit.push(text[i]);
        i += 1;
        assert(unit@ =~= text@.subrange(split as int, i as int));
    }
    assert(unit@ =~= text@.skip(split as int));
    assert(count@.skip(0) =~= count@);
    assert forall|j: int| 0 <= j < count@.len() implies is_digit(#[trigger] count@[j]) by {
        assert(is_digit(text@[j]));
    }
    let number: u64 = match read_digits(&count, 0, u64::MAX) {
        Some(number) => number,
        None => {
            return Err(complain(text, "` is not a window; write one like 90s, 15m, 2h or 7d"));
        },
    };
    let millis: u64 = if same(&unit, "ms") {
        1
    } else if same(&unit, "") || same(&unit, "s") {
        1_000
    } else if same(&unit, "m") {
        60_000
    } else if same(&unit, "h") {
        3_600_000
    } else if same(&unit, "d") {
        86_400_000
    } else {
        return Err(complain(&unit, "` is not a unit; use ms, s, m, h or d"));
    };
    match number.checked_mul(millis) {
        Some(total) => Ok(Span::from_millis(total)),
        None => Err(complain(text, "` is a longer window than any log covers")),
    }
}

/// A window in its largest whole unit.
pub open spec fn window_text(secs: nat) -> Seq<char> {
    if secs > 0 && secs % 86_400 == 0 {
        decimal(secs / 86_400) + "d"@
    } else if secs > 0 && secs % 3_600 == 0 {
        decimal(secs / 3_600) + "h"@
    } else if secs > 0 && secs % 60 == 0 {
        decimal(secs / 60) + "m"@
    } else {
        decimal(secs) + "s"@
    }
}

/// A window in its largest whole unit, for the form to show back.
pub fn window(duration: Span) -> (text: String)
    ensures
        text@ == window_text(duration.secs as nat),
{
    let secs: u64 = duration.secs;
    let mut line: Vec<char> = Vec::new();
    if secs > 0 && secs % 86_400 == 0 {
        append_decimal(&mut line, secs / 86_400);
        append(&mut line, "d");
    } else if secs > 0 && secs % 3_600 == 0 {
        append_decimal(&mut line, secs / 3_600);
        append(&mut line, "h");
    } else if secs > 0 && secs % 60 == 0 {
        append_decimal(&mut line, secs / 60);
        append(&mut line, "m");
    } else {
        append_decimal(&mut line, secs);
        append(&mut line, "s");
    }
    assert(line@ =~= window_text(secs as nat));
    text_of(&line)
}

/// A number with a unit behind it parts where the unit starts.
proof fn a_count_parts(n: nat, unit: Seq<char>)
    requires
        unit.len() > 0 ==> !is_digit(unit[0]),
    ensures
        ({
            let text = decimal(n) + unit;
            &&& digit_run(text, 0) == decimal(n).len()
            &&& text.take(digit_run(text, 0)) == decimal(n)
            &&& text.skip(digit_run(text, 0)) == unit
        }),
{
    decimal_reads_back(n);
    let text = decimal(n) + unit;
    runs_are_digits(text, 0);
    let end = digit_run(text, 0);
    let len = decimal(n).len() as int;
    if end < len {
        assert(text[end] == decimal(n)[end]);
        assert(is_digit(decimal(n)[end]));
    }
    if end > len {
        assert(is_digit(text[len]));
        assert(text[len] == unit[0]);
    }
    assert(text.take(end) =~= decimal(n));
    assert(text.skip(end) =~= unit);
}

/// A window that the form shows back reads as the one that was in force,
/// down to the second.
pub proof fn a_window_reads_back(secs: nat)
    requires
        secs * 1_000 <= u64::MAX,
    ensures
        window_of(window_text(secs)) == Ok::<nat, Seq<char>>((secs * 1_000) as nat),
{
    reveal_strlit("ms");
    reveal_strlit("");
    reveal_strlit("s");
    reveal_strlit("m");
    reveal_strlit("h");
    reveal_strlit("d");
    assert("d"@[0] == 'd' && "h"@[0] == 'h' && "m"@[0] == 'm' && "s"@[0] == 's');
    assert("ms"@.len() == 2 && ""@.len() == 0);
    let (n, unit) = if secs > 0 && secs % 86_400 == 0 {
        (secs / 86_400, "d"@)
    } else if secs > 0 && secs % 3_600 == 0 {
        (secs / 3_600, "h"@)
    } else if secs > 0 && secs % 60 == 0 {
        (secs / 60, "m"@)
    } else {
        (secs, "s"@)
    };
    a_count_parts(n, unit);
    decimal_reads_back(n);
}

/// Whether a count of `unit`s is read as so many times `millis`
/// milliseconds, as far as a window can be that long.
pub open spec fn counts_in(n: nat, unit: Seq<char>, millis: nat) -> bool {
    if n * millis <= u64::MAX {
        window_of(decimal(n) + unit) == Ok::<nat, Seq<char>>((n * millis) as nat)
    } else {
        window_of(decimal(n) + unit) is Err
    }
}

/// A window is a count of units: of milliseconds, seconds, minutes, hours
/// or days, and of seconds where no unit is named. What names another unit,
/// or no count, is no window.
pub proof fn a_window_counts_its_units(n: nat, other: Seq<char>)
    requires
        other.len() > 0,
        !is_digit(other[0]),
    ensures
        counts_in(n, "ms"@, 1),
        counts_in(n, ""@, 1000),
        counts_in(n, "s"@, 1000),
        counts_in(n, "m"@, 60_000),
        counts_in(n, "h"@, 3_600_000),
        counts_in(n, "d"@, 86_400_000),
        window_of(decimal(n) + other) is Ok ==> other == "ms"@ || other == "s"@ || other == "m"@
            || other == "h"@ || other == "d"@,
        window_of(other) is Err,
        window_of(Seq::empty()) is Err,
{
    reveal_strlit("ms");
    reveal_strlit("");
    reveal_strlit("s");
    reveal_strlit("m");
    reveal_strlit("h");
    reveal_strlit("d");
    assert("ms"@[0] == 'm' && "d"@[0] == 'd' && "h"@[0] == 'h' && "m"@[0] == 'm' && "s"@[0] == 's');
    assert("ms"@.len() == 2 && ""@.len() == 0 && "s"@.len() == 1);
    decimal_reads_back(n);
    a_count_parts(n, "ms"@);
    a_count_parts(n, ""@);
    a_count_parts(n, "s"@);
    a_count_parts(n, "m"@);
    a_count_parts(n, "h"@);
    a_count_parts(n, "d"@);
    a_count_parts(n, other);
    assert(""@ =~= Seq::<char>::empty());
    assert(digit_run(other, 0) == 0);
}

/// A query that says nothing of a limit is shown the newest hundred; one
/// that leaves it blank is shown all; and one that names a number is shown
/// that many, as long as it is one that a limit can be.
pub proof fn a_limit_is_what_was_asked_for(n: nat)
    ensures
        limit_of(None) == Ok::<Option<u32>, Seq<char>>(Some(100)),
        limit_of(Some(Seq::empty())) == Ok::<Option<u32>, Seq<char>>(None),
        n <= u32::MAX ==> limit_of(Some(decimal(n))) == Ok::<Option<u32>, Seq<char>>(
            Some(n as u32),
        ),
        n > u32::MAX ==> limit_of(Some(decimal(n))) is Err,
{
    reveal_strlit("");
    let none = Seq::<char>::empty();
    assert(none =~= ""@);
    decimal_reads_back(n);
    assert(is_digit(decimal(n)[0]) && is_digit(decimal(n).last()));
    trimming_takes_what_is_around(none, decimal(n), none);
    assert(none + decimal(n) + none =~= decimal(n));
    trimming_takes_what_is_around(none, none, none);
    assert(none + none + none =~= none);
    numbers_are_read(n, u32::MAX as nat);
}

/// How many envelopes a query asks for: the newest few where it does not
/// say, all where it says nothing.
pub open spec fn limit_of(limit: Option<Seq<char>>) -> Result<Option<u32>, Seq<char>> {
    match limit {
        None => Ok(Some(DEFAULT_LIMIT)),
        Some(text) => {
            let text = trimmed(text);
            if text == ""@ {
                Ok(None)
            } else {
                match unsigned_value(text, u32::MAX as nat) {
                    Some(n) => Ok(Some(n as u32)),
                    None => Err(said_of(text, "` is not a number of envelopes"@)),
                }
            }
        },
    }
}

/// Which window a query asks for, in milliseconds; none, where it says
/// nothing.
pub open spec fn since_of(since: Option<Seq<char>>) -> Result<Option<nat>, Seq<char>> {
    match since {
        None => Ok(None),
        Some(text) => {
            let text = trimmed(text);
            if text == ""@ {
                Ok(None)
            } else {
                match window_of(text) {
                    Ok(millis) => Ok(Some(millis)),
                    Err(why) => Err(why),
                }
            }
        },
    }
}

/// A text as its characters.
pub open spec fn text_view(text: Option<&str>) -> Option<Seq<char>> {
    match text {
        Some(text) => Some(text@),
        None => None,
    }
}

impl Walk {
    /// Reads the bounds off the query string. A limit left out shows the
    /// newest [`DEFAULT_LIMIT`]; present and empty, it means all.
    pub fn parse(limit: Option<&str>, since: Option<&str>) -> (walk: Result<Self, Error>)
        ensures
            match (limit_of(text_view(limit)), since_of(text_view(since)), walk) {
                (Ok(most), Ok(window), Ok(walk)) => {
                    &&& walk.limit == most
                    &&& match (walk.since, window) {
                        (Some(span), Some(millis)) => span.wf() && span.millis() == millis
                            && span.nanos % 1_000_000 == 0,
                        (None, None) => true,
                        _ => false,
                    }
                },
                (Err(why), _, Err(Error::BadRequest(said))) => said@ == why,
                (Ok(_), Err(why), Err(Error::BadRequest(said))) => said@ == why,
                _ => false,
            },
    {
        proof {
            reveal_strlit("");
        }
        let most = match limit {
            None => Some(DEFAULT_LIMIT),
            Some(text) => {
                let text = trim(text);
                if text.len() == 0 {
                    assert(text@ =~= ""@);
                    None
                } else {
                    match read_unsigned(&text, u32::MAX as u64) {
                        Some(n) => Some(n as u32),
                        None => {
                            return Err(
                                Error::BadRequest(
                                    complain(&text, "` is not a number of envelopes"),
                                ),
                            );
                        },
                    }
                }
            },
        };
        let window = match since {
            None => None,
            Some(text) => {
                let text = trim(text);
                if text.len() == 0 {
                    assert(text@ =~= ""@);
                    None
                } else {
                    match parse_window(&text) {
                        Ok(span) => Some(span),
                        Err(why) => {
                            return Err(Error::BadRequest(why));
                        },
                    }
                }
            },
        };
        Ok(Walk { limit: most, since: window })
    }

    /// What to ask the daemon for.
    pub fn request(&self) -> (request: ChainWalk)
        ensures
            request.limit == self.limit,
            request.since == self.since,
    {
        ChainWalk { limit: self.limit, since: self.since }
    }
}

/// A query that names no window, or a blank one, asks for none; one that
/// names one asks for just that, whatever blanks stand around it.
pub proof fn a_window_is_what_was_asked_for(before: Seq<char>, secs: nat, after: Seq<char>)
    requires
        is_blank(before),
        is_blank(after),
        secs * 1_000 <= u64::MAX,
    ensures
        since_of(None) == Ok::<Option<nat>, Seq<char>>(None),
        since_of(Some(before)) == Ok::<Option<nat>, Seq<char>>(None),
        since_of(Some(before + window_text(secs) + after)) == Ok::<Option<nat>, Seq<char>>(
            Some((secs * 1_000) as nat),
        ),
{
    reveal_strlit("");
    reveal_strlit("s");
    reveal_strlit("m");
    reveal_strlit("h");
    reveal_strlit("d");
    let none = Seq::<char>::empty();
    assert(none =~= ""@);
    trimming_takes_what_is_around(before, none, none);
    assert(before + none + none =~= before);
    let text = window_text(secs);
    decimal_reads_back(secs);
    decimal_reads_back(secs / 86_400);
    decimal_reads_back(secs / 3_600);
    decimal_reads_back(secs / 60);
    assert(is_digit(text[0]));
    assert(text.last() == 'd' || text.last() == 'h' || text.last() == 'm' || text.last() == 's');
    trimming_takes_what_is_around(before, text, after);
    a_window_reads_back(secs);
}

} // verus!
