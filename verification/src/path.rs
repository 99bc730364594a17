//! Reading a path as it is written: `servers[0].host`.
//!
//! A path is names, parted by dots, and places and quoted names, each in
//! brackets. A name that holds a dot, a bracket or a quote stands quoted.

use vstd::prelude::*;

use crate::subkey::{
    dotted, escaped, is_bare, is_mark, path_text, step_text, steps, Step, Subkey, SubkeyPath,
};
use crate::text::{
    all_digits, chars_of, decimal, decimal_reads_back, digits_value, is_digit, read_digits,
    text_of,
};

verus! {

/// Text that spells no path.
#[derive(Debug, Clone, Copy, PartialEq, Eq, Structural)]
pub struct PathError;

impl PathError {
    /// The failure as a person reads it.
    pub fn describe(&self) -> (text: &'static str)
        ensures
            text@ == "names are parted by dots, places and quoted names stand in brackets"@,
    {
        "names are parted by dots, places and quoted names stand in brackets"
    }
}

/// Where a bare name that starts at `from` ends.
pub open spec fn bare_end(text: Seq<char>, from: int) -> int
    decreases text.len() - from,
{
    if 0 <= from < text.len() && !is_mark(text[from]) {
        bare_end(text, from + 1)
    } else {
        from
    }
}

/// Where a run of digits that starts at `from` ends.
pub open spec fn digits_end(text: Seq<char>, from: int) -> int
    decreases text.len() - from,
{
    if 0 <= from < text.len() && is_digit(text[from]) {
        digits_end(text, from + 1)
    } else {
        from
    }
}

/// The name quoted from `from` on, up to the quote that closes it, and
/// where that quote stands; a backslash takes what follows it as it is.
pub open spec fn quoted_name(text: Seq<char>, from: int) -> Option<(Seq<char>, int)>
    decreases text.len() - from,
{
    if from < 0 || from >= text.len() {
        None
    } else if text[from] == '\'' {
        Some((Seq::empty(), from))
    } else if text[from] == '\\' {
        if from + 1 < text.len() {
            match quoted_name(text, from + 2) {
                Some((rest, end)) => Some((seq![text[from + 1]] + rest, end)),
                None => None,
            }
        } else {
            None
        }
    } else {
        match quoted_name(text, from + 1) {
            Some((rest, end)) => Some((seq![text[from]] + rest, end)),
            None => None,
        }
    }
}

/// The step in brackets at `from`, and where the text goes on after it.
pub open spec fn bracketed(text: Seq<char>, from: int) -> Option<(Step, int)> {
    if from + 1 < text.len() && text[from + 1] == '\'' {
        match quoted_name(text, from + 2) {
            Some((name, end)) => if end + 1 < text.len() && text[end + 1] == ']' {
                Some((Step::Key(name), end + 2))
            } else {
                None
            },
            None => None,
        }
    } else {
        let end = digits_end(text, from + 1);
        let digits = text.subrange(from + 1, end);
        if digits.len() > 0 && digits_value(digits) <= u32::MAX && end < text.len() && text[end]
            == ']' {
            Some((Step::Index(digits_value(digits) as u32), end + 1))
        } else {
            None
        }
    }
}

/// The step at `from`, the first of the path or a later one, and where the
/// text goes on after it.
pub open spec fn step_at(text: Seq<char>, from: int, first: bool) -> Option<(Step, int)> {
    if from < 0 || from >= text.len() {
        None
    } else if text[from] == '[' {
        bracketed(text, from)
    } else {
        let start = if first {
            from
        } else {
            from + 1
        };
        let end = bare_end(text, start);
        if (first || text[from] == '.') && end > start {
            Some((Step::Key(text.subrange(start, end)), end))
        } else {
            None
        }
    }
}

/// The steps that the text from `from` on spells.
pub open spec fn steps_from(text: Seq<char>, from: int, first: bool) -> Option<Seq<Step>>
    decreases text.len() - from,
{
    if from == text.len() && !first {
        Some(Seq::empty())
    } else {
        match step_at(text, from, first) {
            Some((step, next)) => if from < next <= text.len() {
                match steps_from(text, next, false) {
                    Some(rest) => Some(seq![step] + rest),
                    None => None,
                }
            } else {
                None
            },
            None => None,
        }
    }
}

/// The path that `text` spells.
pub open spec fn path_of(text: Seq<char>) -> Option<Seq<Step>> {
    steps_from(text, 0, true)
}

/// A bare name ends where it ends.
proof fn bare_ends(text: Seq<char>, from: int)
    requires
        0 <= from <= text.len(),
    ensures
        from <= bare_end(text, from) <= text.len(),
    decreases text.len() - from,
{
    if from < text.len() && !is_mark(text[from]) {
        bare_ends(text, from + 1);
    }
}

proof fn digits_end_there(text: Seq<char>, from: int)
    requires
        0 <= from <= text.len(),
    ensures
        from <= digits_end(text, from) <= text.len(),
        forall|i: int| from <= i < digits_end(text, from) ==> is_digit(#[trigger] text[i]),
    decreases text.len() - from,
{
    if from < text.len() && is_digit(text[from]) {
        digits_end_there(text, from + 1);
    }
}

proof fn quotes_end(text: Seq<char>, from: int)
    requires
        0 <= from,
    ensures
        quoted_name(text, from) matches Some((_, end)) ==> from <= end < text.len(),
    decreases text.len() - from,
{
    if from < text.len() {
        if text[from] == '\\' {
            if from + 1 < text.len() {
                quotes_end(text, from + 2);
            }
        } else if text[from] != '\'' {
            quotes_end(text, from + 1);
        }
    }
}

/// A step moves on.
proof fn steps_move_on(text: Seq<char>, from: int, first: bool)
    requires
        0 <= from <= text.len(),
    ensures
        step_at(text, from, first) matches Some((_, next)) ==> from < next <= text.len(),
{
    if from < text.len() {
        if text[from] == '[' {
            if from + 1 < text.len() && text[from + 1] == '\'' {
                quotes_end(text, from + 2);
            } else {
                digits_end_there(text, from + 1);
            }
        } else {
            let start = if first {
                from
            } else {
                from + 1
            };
            bare_ends(text, start);
        }
    }
}

/// Reads the name quoted from `from` on.
fn read_quoted(text: &Vec<char>, from: usize) -> (name: Option<(Vec<char>, usize)>)
    requires
        from <= text@.len(),
    ensures
        match name {
            Some((name, end)) => quoted_name(text@, from as int) == Some((name@, end as int)),
            None => quoted_name(text@, from as int) is None,
        },
{
    let n: usize = text.len();
    let mut name: Vec<char> = Vec::new();
    let mut at: usize = from;
    while at < n
        invariant
            from <= at <= n == text@.len(),
            match quoted_name(text@, at as int) {
                Some((rest, end)) => quoted_name(text@, from as int) == Some((name@ + rest, end)),
                None => quoted_name(text@, from as int) is None,
            },
        decreases n - at,
    {
        let c = text[at];
        let ghost before = name@;
        if c == '\'' {
            assert(name@ + Seq::<char>::empty() =~= name@);
            return Some((name, at));
        }
        let next: usize = if c == '\\' {
            if n - at < 2 {
                return None;
            }
            at + 1
        } else {
            at
        };
        name.push(text[next]);
        proof {
            match quoted_name(text@, next + 1) {
                Some((rest, end)) => {
                    assert(before + (seq![text@[next as int]] + rest) =~= name@ + rest);
                },
                None => {},
            }
        }
        at = next + 1;
    }
    None
}

/// Reads the step in brackets at `from`.
fn read_bracketed(text: &Vec<char>, from: usize) -> (step: Option<(Subkey, usize)>)
    requires
        from < text@.len(),
    ensures
        match step {
            Some((step, next)) => bracketed(text@, from as int) == Some((step@, next as int)),
            None => bracketed(text@, from as int) is None,
        },
{
    let n: usize = text.len();
    if n - from >= 2 && text[from + 1] == '\'' {
        return match read_quoted(text, from + 2) {
            Some((name, end)) => {
                proof {
                    quotes_end(text@, from + 2);
                }
                if n - end >= 2 && text[end + 1] == ']' {
                    Some((Subkey::Key(text_of(&name)), end + 2))
                } else {
                    None
                }
            },
            None => None,
        };
    }
    let start: usize = from + 1;
    let mut end: usize = start;
    let mut digits: Vec<char> = Vec::new();
    while end < n && '0' <= text[end] && text[end] <= '9'
        invariant
            start == from + 1,
            start <= end <= n == text@.len(),
            digits_end(text@, start as int) == digits_end(text@, end as int),
            digits@ == text@.subrange(start as int, end as int),
            forall|i: int| start <= i < end ==> is_digit(#[trigger] text@[i]),
        decreases n - end,
    {
        digits.push(text[end]);
        end += 1;
        assert(digits@ =~= text@.subrange(start as int, end as int));
    }
    assert(digits@.skip(0) =~= digits@);
    assert forall|j: int| 0 <= j < digits@.len() implies is_digit(#[trigger] digits@[j]) by {
        assert(is_digit(text@[start + j]));
    }
    match read_digits(&digits, 0, u32::MAX as u64) {
        Some(index) => if end < n && text[end] == ']' {
            Some((Subkey::Index(index as u32), end + 1))
        } else {
            None
        },
        None => None,
    }
}

/// Reads the step at `from`.
fn read_step(text: &Vec<char>, from: usize, first: bool) -> (step: Option<(Subkey, usize)>)
    requires
        from <= text@.len(),
    ensures
        match step {
            Some((step, next)) => step_at(text@, from as int, first) == Some((step@, next as int)),
            None => step_at(text@, from as int, first) is None,
        },
{
    let n: usize = text.len();
    if from >= n {
        return None;
    }
    if text[from] == '[' {
        return read_bracketed(text, from);
    }
    if !first && text[from] != '.' {
        return None;
    }
    let start: usize = if first {
        from
    } else {
        from + 1
    };
    let mut end: usize = start;
    let mut name: Vec<char> = Vec::new();
    while end < n && text[end] != '.' && text[end] != '[' && text[end] != ']' && text[end] != '\''
        invariant
            start <= end <= n == text@.len(),
            bare_end(text@, start as int) == bare_end(text@, end as int),
            name@ == text@.subrange(start as int, end as int),
        decreases n - end,
    {
        name.push(text[end]);
        end += 1;
        assert(name@ =~= text@.subrange(start as int, end as int));
    }
    if end > start {
        Some((Subkey::Key(text_of(&name)), end))
    } else {
        None
    }
}

impl SubkeyPath {
    /// Reads a path as it is written.
    pub fn parse(text: &str) -> (path: Result<Self, PathError>)
        ensures
            match path {
                Ok(path) => path.wf() && path_of(text@) == Some(path@),
                Err(_) => path_of(text@) is None,
            },
    {
        let chars = chars_of(text);
        let n: usize = chars.len();
        let mut segments: Vec<Subkey> = Vec::new();
        let mut at: usize = 0;
        let mut first: bool = true;
        assert(steps(segments@) =~= Seq::<Step>::empty());
        while first || at < n
            invariant
                at <= n == chars@.len(),
                chars@ == text@,
                first == (segments@.len() == 0),
                first ==> at == 0,
                match steps_from(text@, at as int, first) {
                    Some(rest) => path_of(text@) == Some(steps(segments@) + rest),
                    None => path_of(text@) is None,
                },
            decreases n - at + if first { 1int } else { 0 },
        {
            proof {
                steps_move_on(text@, at as int, first);
            }
            let ghost before = steps(segments@);
            match read_step(&chars, at, first) {
                Some((step, next)) => {
                    let ghost said = step@;
                    segments.push(step);
                    proof {
                        assert(steps(segments@) =~= before.push(said));
                        match steps_from(text@, next as int, false) {
                            Some(rest) => {
                                assert(before + (seq![said] + rest) =~= steps(segments@) + rest);
                            },
                            None => {},
                        }
                    }
                    at = next;
                    first = false;
                },
                None => {
                    return Err(PathError);
                },
            }
        }
        assert(steps(segments@) + Seq::<Step>::empty() =~= steps(segments@));
        Ok(SubkeyPath { segments })
    }
}

/// A step as it is written after others.
pub open spec fn later_text(step: Step) -> Seq<char> {
    if dotted(step) {
        seq!['.'] + step_text(step)
    } else {
        step_text(step)
    }
}

/// Steps as they are written after others.
pub open spec fn tail_text(path: Seq<Step>) -> Seq<char>
    decreases path.len(),
{
    if path.len() == 0 {
        Seq::empty()
    } else {
        later_text(path[0]) + tail_text(path.skip(1))
    }
}

/// A path is written as its first step and the rest after it.
proof fn written_from_the_front(path: Seq<Step>)
    requires
        path.len() > 0,
    ensures
        path_text(path) == step_text(path[0]) + tail_text(path.skip(1)),
    decreases path.len(),
{
    if path.len() == 1 {
        assert(path.drop_last().len() == 0);
        assert(path_text(path.drop_last()).len() == 0);
        assert(path.last() == path[0]);
        assert(tail_text(path.skip(1)).len() == 0);
        assert(path_text(path) =~= step_text(path[0]) + tail_text(path.skip(1)));
    } else {
        let front = path.drop_last();
        written_from_the_front(front);
        assert(front[0] == path[0]);
        assert(front.skip(1) =~= path.skip(1).drop_last());
        tail_grows(path.skip(1));
        assert(path.skip(1).last() == path.last());
        assert(path_text(path) =~= step_text(path[0]) + tail_text(path.skip(1)));
    }
}

proof fn tail_grows(path: Seq<Step>)
    requires
        path.len() > 0,
    ensures
        tail_text(path) == tail_text(path.drop_last()) + later_text(path.last()),
    decreases path.len(),
{
    if path.len() == 1 {
        assert(tail_text(path.skip(1)).len() == 0);
        assert(tail_text(path.drop_last()).len() == 0);
        assert(path.last() == path[0]);
        assert(tail_text(path) =~= tail_text(path.drop_last()) + later_text(path.last()));
    } else {
        let rest = path.skip(1);
        tail_grows(rest);
        assert(path.drop_last()[0] == path[0]);
        assert(path.drop_last().skip(1) =~= rest.drop_last());
        assert(rest.last() == path.last());
        assert(tail_text(path) =~= tail_text(path.drop_last()) + later_text(path.last()));
    }
}

/// Whether what follows a step in `text` at `at` cannot be taken for part
/// of it.
pub open spec fn breaks_at(text: Seq<char>, at: int) -> bool {
    at == text.len() || (0 <= at < text.len() && (text[at] == '.' || text[at] == '['))
}

proof fn tails_break(path: Seq<Step>)
    ensures
        breaks_at(tail_text(path), 0),
    decreases path.len(),
{
    if path.len() > 0 {
        let text = tail_text(path);
        assert(text[0] == later_text(path[0])[0]);
    }
}

/// A bare name is read to its end.
proof fn bare_reads_back(text: Seq<char>, from: int, name: Seq<char>)
    requires
        0 <= from,
        from + name.len() <= text.len(),
        text.subrange(from, from + name.len()) == name,
        forall|i: int| 0 <= i < name.len() ==> !is_mark(#[trigger] name[i]),
        breaks_at(text, from + name.len()),
    ensures
        bare_end(text, from) == from + name.len(),
    decreases name.len(),
{
    if name.len() > 0 {
        assert(text[from] == name[0]);
        let rest = name.skip(1);
        assert(text.subrange(from + 1, from + 1 + rest.len()) =~= rest) by {
            assert forall|i: int| 0 <= i < rest.len() implies text.subrange(
                from + 1,
                from + 1 + rest.len(),
            )[i] == rest[i] by {
                assert(text.subrange(from, from + name.len())[i + 1] == name[i + 1]);
            }
        }
        assert forall|i: int| 0 <= i < rest.len() implies !is_mark(#[trigger] rest[i]) by {
            assert(!is_mark(name[i + 1]));
        }
        bare_reads_back(text, from + 1, rest);
    }
}

/// Digits are read to their end.
proof fn digits_read_back(text: Seq<char>, from: int, digits: Seq<char>)
    requires
        0 <= from,
        from + digits.len() < text.len(),
        text.subrange(from, from + digits.len()) == digits,
        all_digits(digits),
        text[from + digits.len()] == ']',
    ensures
        digits_end(text, from) == from + digits.len(),
    decreases digits.len(),
{
    if digits.len() > 0 {
        assert(text[from] == digits[0]);
        assert(is_digit(digits[0]));
        let rest = digits.skip(1);
        assert(text.subrange(from + 1, from + 1 + rest.len()) =~= rest) by {
            assert forall|i: int| 0 <= i < rest.len() implies text.subrange(
                from + 1,
                from + 1 + rest.len(),
            )[i] == rest[i] by {
                assert(text.subrange(from, from + digits.len())[i + 1] == digits[i + 1]);
            }
        }
        assert forall|i: int| 0 <= i < rest.len() implies is_digit(#[trigger] rest[i]) by {
            assert(is_digit(digits[i + 1]));
        }
        digits_read_back(text, from + 1, rest);
    }
}

/// An escaped name, from the front.
proof fn escaped_from_the_front(name: Seq<char>)
    requires
        name.len() > 0,
    ensures
        escaped(name) == (if name[0] == '\'' || name[0] == '\\' {
            seq!['\\', name[0]]
        } else {
            seq![name[0]]
        }) + escaped(name.skip(1)),
    decreases name.len(),
{
    let head = if name[0] == '\'' || name[0] == '\\' {
        seq!['\\', name[0]]
    } else {
        seq![name[0]]
    };
    if name.len() == 1 {
        assert(name.drop_last().len() == 0);
        assert(escaped(name.drop_last()).len() == 0);
        assert(escaped(name.skip(1)).len() == 0);
        assert(name.last() == name[0]);
        assert(escaped(name) =~= head + escaped(name.skip(1)));
    } else {
        let front = name.drop_last();
        escaped_from_the_front(front);
        assert(front[0] == name[0]);
        assert(front.skip(1) =~= name.skip(1).drop_last());
        assert(name.skip(1).last() == name.last());
        assert(escaped(name) =~= head + escaped(name.skip(1)));
    }
}

/// A quoted name is read back.
proof fn quoted_reads_back(text: Seq<char>, from: int, name: Seq<char>)
    requires
        0 <= from,
        from + escaped(name).len() < text.len(),
        text.subrange(from, from + escaped(name).len()) == escaped(name),
        text[from + escaped(name).len()] == '\'',
    ensures
        quoted_name(text, from) == Some((name, from + escaped(name).len())),
    decreases name.len(),
{
    let spelled = escaped(name);
    if name.len() == 0 {
        assert(spelled.len() == 0);
        assert(name =~= Seq::<char>::empty());
    } else {
        escaped_from_the_front(name);
        let rest = name.skip(1);
        let step: int = if name[0] == '\'' || name[0] == '\\' {
            2
        } else {
            1
        };
        assert(spelled.len() == step + escaped(rest).len());
        assert(text[from] == spelled[0]) by {
            assert(text.subrange(from, from + spelled.len())[0] == text[from]);
        }
        if step == 2 {
            assert(text[from + 1] == spelled[1]) by {
                assert(text.subrange(from, from + spelled.len())[1] == text[from + 1]);
            }
        }
        assert(text.subrange(from + step, from + step + escaped(rest).len()) =~= escaped(rest)) by {
            assert forall|i: int| 0 <= i < escaped(rest).len() implies text.subrange(
                from + step,
                from + step + escaped(rest).len(),
            )[i] == escaped(rest)[i] by {
                assert(text.subrange(from, from + spelled.len())[i + step] == spelled[i + step]);
            }
        }
        quoted_reads_back(text, from + step, rest);
        assert(seq![name[0]] + rest =~= name);
    }
}

/// A step is read back where it stands, first or later.
proof fn a_step_reads_back(text: Seq<char>, from: int, step: Step, first: bool)
    requires
        0 <= from,
        ({
            let spelled = if first {
                step_text(step)
            } else {
                later_text(step)
            };
            &&& from + spelled.len() <= text.len()
            &&& text.subrange(from, from + spelled.len()) == spelled
            &&& breaks_at(text, from + spelled.len())
        }),
    ensures
        ({
            let spelled = if first {
                step_text(step)
            } else {
                later_text(step)
            };
            step_at(text, from, first) == Some((step, from + spelled.len()))
        }),
{
    let spelled = if first {
        step_text(step)
    } else {
        later_text(step)
    };
    assert forall|i: int| 0 <= i < spelled.len() implies text[from + i] == #[trigger] spelled[i] by {
        assert(text.subrange(from, from + spelled.len())[i] == text[from + i]);
    }
    match step {
        Step::Key(name) => {
            if is_bare(name) {
                let start = if first {
                    from
                } else {
                    from + 1
                };
                let lead = start - from;
                assert(text.subrange(start, start + name.len()) =~= name) by {
                    assert forall|i: int| 0 <= i < name.len() implies text.subrange(
                        start,
                        start + name.len(),
                    )[i] == name[i] by {
                        assert(text[from + (i + lead)] == spelled[i + lead]);
                    }
                }
                assert(text[from] == spelled[0]);
                assert(!is_mark(name[0]));
                bare_reads_back(text, start, name);
            } else {
                let inner = escaped(name);
                assert(spelled == seq!['[', '\''] + inner + seq!['\'', ']']);
                assert(text[from] == spelled[0]);
                assert(text[from + 1] == spelled[1]);
                assert(text.subrange(from + 2, from + 2 + inner.len()) =~= inner) by {
                    assert forall|i: int| 0 <= i < inner.len() implies text.subrange(
                        from + 2,
                        from + 2 + inner.len(),
                    )[i] == inner[i] by {
                        assert(text[from + (i + 2)] == spelled[i + 2]);
                    }
                }
                assert(text[from + (2 + inner.len())] == spelled[2 + inner.len() as int]);
                assert(text[from + (3 + inner.len())] == spelled[3 + inner.len() as int]);
                quoted_reads_back(text, from + 2, name);
            }
        },
        Step::Index(index) => {
            decimal_reads_back(index as nat);
            let digits = decimal(index as nat);
            assert(spelled == seq!['['] + digits + seq![']']);
            assert(text[from] == spelled[0]);
            assert(text[from + 1] == spelled[1]);
            assert(spelled[1] == digits[0]);
            assert(is_digit(digits[0]));
            assert(text.subrange(from + 1, from + 1 + digits.len()) =~= digits) by {
                assert forall|i: int| 0 <= i < digits.len() implies text.subrange(
                    from + 1,
                    from + 1 + digits.len(),
                )[i] == digits[i] by {
                    assert(text[from + (i + 1)] == spelled[i + 1]);
                }
            }
            assert(text[from + (1 + digits.len())] == spelled[1 + digits.len() as int]);
            digits_read_back(text, from + 1, digits);
        },
    }
}

/// Steps written after others are read back.
proof fn a_tail_reads_back(text: Seq<char>, from: int, path: Seq<Step>)
    requires
        0 <= from <= text.len(),
        text.skip(from) == tail_text(path),
    ensures
        steps_from(text, from, false) == Some(path),
    decreases path.len(),
{
    if path.len() == 0 {
        assert(path =~= Seq::<Step>::empty());
    } else {
        let spelled = later_text(path[0]);
        let rest = tail_text(path.skip(1));
        let next = from + spelled.len();
        tails_break(path.skip(1));
        assert(text.skip(from) == spelled + rest);
        assert(text.skip(from).len() == text.len() - from);
        assert(text.subrange(from, next) =~= spelled) by {
            assert forall|i: int| 0 <= i < spelled.len() implies text.subrange(from, next)[i]
                == spelled[i] by {
                assert(text.skip(from)[i] == text[from + i]);
            }
        }
        assert(text.skip(next) =~= rest) by {
            assert forall|i: int| 0 <= i < rest.len() implies text.skip(next)[i] == rest[i] by {
                assert(text.skip(from)[i + spelled.len()] == text[from + i + spelled.len()]);
            }
        }
        assert(breaks_at(text, next)) by {
            if rest.len() > 0 {
                assert(text.skip(next)[0] == text[next]);
            }
        }
        a_step_reads_back(text, from, path[0], false);
        steps_are_spelled(path[0]);
        a_tail_reads_back(text, next, path.skip(1));
        assert(seq![path[0]] + path.skip(1) =~= path);
    }
}

/// A step takes space.
proof fn steps_are_spelled(step: Step)
    ensures
        step_text(step).len() > 0,
        later_text(step).len() > 0,
{
}

/// A path reads back as it was written, so one copied from a link or a
/// line of output means the same wherever it is pasted.
pub proof fn a_path_reads_back(path: Seq<Step>)
    requires
        path.len() > 0,
    ensures
        path_of(path_text(path)) == Some(path),
{
    written_from_the_front(path);
    let text = path_text(path);
    let spelled = step_text(path[0]);
    let rest = tail_text(path.skip(1));
    let next = spelled.len() as int;
    tails_break(path.skip(1));
    assert(text.subrange(0, next) =~= spelled);
    assert(text.skip(next) =~= rest);
    assert(breaks_at(text, next)) by {
        if rest.len() > 0 {
            assert(text.skip(next)[0] == text[next]);
        }
    }
    a_step_reads_back(text, 0, path[0], true);
    steps_are_spelled(path[0]);
    a_tail_reads_back(text, next, path.skip(1));
    assert(seq![path[0]] + path.skip(1) =~= path);
}

/// Where the text from `from` on holds no bracket, the steps it spells are
/// the names between its dots.
proof fn a_dotted_tail_is_written_back(text: Seq<char>, from: int, steps: Seq<Step>)
    requires
        0 <= from <= text.len(),
        !text.contains('['),
        steps_from(text, from, false) == Some(steps),
    ensures
        tail_text(steps) == text.skip(from),
    decreases text.len() - from,
{
    if from == text.len() {
        assert(tail_text(steps) =~= text.skip(from));
    } else {
        assert(text.contains(text[from]));
        let (step, next) = step_at(text, from, false)->0;
        let end = bare_end(text, from + 1);
        bare_ends(text, from + 1);
        a_bare_end_is_bare(text, from + 1);
        let name = text.subrange(from + 1, end);
        let rest = steps_from(text, next, false)->0;
        assert(steps =~= seq![step] + rest);
        assert(steps.skip(1) =~= rest);
        a_dotted_tail_is_written_back(text, next, rest);
        assert forall|i: int| 0 <= i < name.len() implies !is_mark(#[trigger] name[i]) by {
            assert(name[i] == text[from + 1 + i]);
        }
        assert(is_bare(name));
        assert(tail_text(steps) =~= text.skip(from));
    }
}

proof fn a_bare_end_is_bare(text: Seq<char>, from: int)
    requires
        0 <= from <= text.len(),
    ensures
        forall|i: int| from <= i < bare_end(text, from) ==> !is_mark(#[trigger] text[i]),
    decreases text.len() - from,
{
    if from < text.len() && !is_mark(text[from]) {
        a_bare_end_is_bare(text, from + 1);
    }
}

/// Text without brackets is read as a path only where it is written so:
/// names that hold no mark, with one dot between two of them and none at
/// either end.
pub proof fn dotted_names_are_all_there_is(text: Seq<char>)
    requires
        !text.contains('['),
        path_of(text) is Some,
    ensures
        path_text(path_of(text)->0) == text,
        path_of(text)->0.len() > 0,
        forall|i: int| 0 <= i < path_of(text)->0.len() ==> (#[trigger] path_of(text)->0[i]) is Key,
{
    let path = path_of(text)->0;
    let (step, next) = step_at(text, 0, true)->0;
    assert(text.contains(text[0]));
    let end = bare_end(text, 0);
    bare_ends(text, 0);
    a_bare_end_is_bare(text, 0);
    let name = text.subrange(0, end);
    let rest = steps_from(text, next, false)->0;
    assert(path =~= seq![step] + rest);
    assert(path.skip(1) =~= rest);
    a_dotted_tail_is_written_back(text, next, rest);
    assert forall|i: int| 0 <= i < name.len() implies !is_mark(#[trigger] name[i]) by {
        assert(name[i] == text[i]);
    }
    assert(is_bare(name));
    written_from_the_front(path);
    assert(path_text(path) =~= text);
    a_dotted_tail_is_names(text, next, rest);
}

proof fn a_dotted_tail_is_names(text: Seq<char>, from: int, steps: Seq<Step>)
    requires
        0 <= from <= text.len(),
        !text.contains('['),
        steps_from(text, from, false) == Some(steps),
    ensures
        forall|i: int| 0 <= i < steps.len() ==> (#[trigger] steps[i]) is Key,
    decreases text.len() - from,
{
    if from < text.len() {
        assert(text.contains(text[from]));
        let (step, next) = step_at(text, from, false)->0;
        let rest = steps_from(text, next, false)->0;
        a_dotted_tail_is_names(text, next, rest);
        assert(steps =~= seq![step] + rest);
    }
}

/// Digits in brackets are read as a place, where there is one and it is one
/// that an array can have.
pub proof fn digits_in_brackets_are_a_place(digits: Seq<char>)
    requires
        all_digits(digits),
    ensures
        path_of(seq!['['] + digits + seq![']']) == if digits.len() > 0 && digits_value(digits)
            <= u32::MAX {
            Some(seq![Step::Index(digits_value(digits) as u32)])
        } else {
            None
        },
{
    let text = seq!['['] + digits + seq![']'];
    let n = digits.len() as int;
    assert(text[n + 1] == ']');
    assert forall|i: int| 1 <= i < n + 1 implies is_digit(#[trigger] text[i]) by {
        assert(text[i] == digits[i - 1]);
    }
    digits_end_where_they_do(text, 1, n + 1);
    assert(text.subrange(1, n + 1) =~= digits);
    if n > 0 {
        assert(is_digit(text[1]));
    }
    assert(steps_from(text, n + 2, false) == Some(Seq::<Step>::empty()));
    if path_of(text) is Some {
        assert(path_of(text)->0 =~= seq![Step::Index(digits_value(digits) as u32)]);
    }
}

proof fn digits_end_where_they_do(text: Seq<char>, from: int, at: int)
    requires
        0 <= from <= at < text.len(),
        !is_digit(text[at]),
        forall|i: int| from <= i < at ==> is_digit(#[trigger] text[i]),
    ensures
        digits_end(text, from) == at,
    decreases at - from,
{
    if from < at {
        digits_end_where_they_do(text, from + 1, at);
    }
}

/// What opens a bracket and does not close it is no path.
pub proof fn a_bracket_is_closed(text: Seq<char>)
    requires
        text.len() > 0,
        text[0] == '[',
        !text.contains(']'),
    ensures
        path_of(text) is None,
{
    match bracketed(text, 0) {
        Some((step, next)) => {
            if text.len() > 1 && text[1] == '\'' {
                let end = (quoted_name(text, 2)->0).1;
                assert(text[end + 1] == ']');
                quotes_end(text, 2);
                assert(text.contains(text[end + 1]));
            } else {
                let end = digits_end(text, 1);
                digits_end_there(text, 1);
                assert(text.contains(text[end]));
            }
        },
        None => {},
    }
}

} // verus!
