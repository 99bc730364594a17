//! Paths into the value a namespace holds.

use vstd::prelude::*;

use crate::order::Ordered;
use crate::text::{
    append_chars, append_decimal, chars_of, decimal, text_less, text_lt, text_lt_irreflexive,
    text_lt_total, text_lt_transitive, text_of,
};

verus! {

/// One step down: a name in a table, or a place in an array.
#[derive(Debug, PartialEq, Eq)]
pub enum Subkey {
    Key(String),
    Index(u32),
}

/// What a step down is.
pub enum Step {
    Key(Seq<char>),
    Index(u32),
}

impl View for Subkey {
    type V = Step;

    open spec fn view(&self) -> Step {
        match self {
            Subkey::Key(name) => Step::Key(name@),
            Subkey::Index(index) => Step::Index(*index),
        }
    }
}

impl Clone for Subkey {
    fn clone(&self) -> (copy: Self)
        ensures
            copy@ == self@,
    {
        match self {
            Subkey::Key(name) => Subkey::Key(name.clone()),
            Subkey::Index(index) => Subkey::Index(*index),
        }
    }
}

impl Subkey {
    /// Whether two steps are the same.
    pub fn same(&self, other: &Self) -> (same: bool)
        ensures
            same == (self@ == other@),
    {
        match (self, other) {
            (Subkey::Key(a), Subkey::Key(b)) => *a == *b,
            (Subkey::Index(a), Subkey::Index(b)) => *a == *b,
            _ => false,
        }
    }
}

/// The steps of `segments`.
pub open spec fn steps(segments: Seq<Subkey>) -> Seq<Step> {
    segments.map_values(|segment: Subkey| segment@)
}

/// The same segments again.
pub fn copy_segments(segments: &Vec<Subkey>) -> (copy: Vec<Subkey>)
    ensures
        steps(copy@) == steps(segments@),
{
    copy_first(segments, segments.len())
}

/// The first `n` segments.
pub fn copy_first(segments: &Vec<Subkey>, n: usize) -> (copy: Vec<Subkey>)
    requires
        n <= segments@.len(),
    ensures
        steps(copy@) == steps(segments@).take(n as int),
        copy@.len() == n,
{
    let mut copy: Vec<Subkey> = Vec::new();
    let mut i: usize = 0;
    while i < n
        invariant
            i <= n <= segments@.len(),
            copy@.len() == i,
            forall|j: int| 0 <= j < i ==> (#[trigger] copy@[j])@ == segments@[j]@,
        decreases n - i,
    {
        copy.push(segments[i].clone());
        i += 1;
    }
    assert(steps(copy@) =~= steps(segments@).take(n as int));
    copy
}

/// A path of no segments was asked for.
#[derive(Debug, Clone, Copy, PartialEq, Eq, Structural)]
pub struct EmptyPath;

/// A path of at least one segment.
#[derive(Debug, PartialEq, Eq)]
pub struct SubkeyPath {
    pub segments: Vec<Subkey>,
}

impl View for SubkeyPath {
    type V = Seq<Step>;

    open spec fn view(&self) -> Seq<Step> {
        steps(self.segments@)
    }
}

impl Clone for SubkeyPath {
    fn clone(&self) -> (copy: Self)
        ensures
            copy@ == self@,
    {
        SubkeyPath { segments: copy_segments(&self.segments) }
    }
}

impl SubkeyPath {
    /// Whether the path has a segment.
    pub open spec fn wf(&self) -> bool {
        self@.len() > 0
    }

    /// The path of `segments`, of which there must be one.
    pub fn try_new(segments: Vec<Subkey>) -> (path: Result<Self, EmptyPath>)
        ensures
            match path {
                Ok(path) => path.wf() && path.segments == segments,
                Err(_) => segments@.len() == 0,
            },
    {
        if segments.len() == 0 {
            Err(EmptyPath)
        } else {
            Ok(SubkeyPath { segments })
        }
    }

    /// Whether two paths are the same.
    pub fn same(&self, other: &Self) -> (same: bool)
        ensures
            same == (self@ == other@),
    {
        let n: usize = self.segments.len();
        if other.segments.len() != n {
            assert(self@.len() != other@.len());
            return false;
        }
        let mut i: usize = 0;
        while i < n
            invariant
                i <= n == self.segments@.len(),
                n == other.segments@.len(),
                forall|j: int| 0 <= j < i ==> #[trigger] self@[j] == other@[j],
            decreases n - i,
        {
            if !self.segments[i].same(&other.segments[i]) {
                assert(self@[i as int] != other@[i as int]);
                return false;
            }
            i += 1;
        }
        assert(self@ =~= other@);
        true
    }
}

/// Whether one step comes before another: names before places, each in
/// their own order.
pub open spec fn step_lt(a: Step, b: Step) -> bool {
    match (a, b) {
        (Step::Key(a), Step::Key(b)) => text_lt(a, b),
        (Step::Key(_), Step::Index(_)) => true,
        (Step::Index(_), Step::Key(_)) => false,
        (Step::Index(a), Step::Index(b)) => a < b,
    }
}

/// Whether one path comes before another: by the first step they differ
/// in, the shorter first where they differ in none.
pub open spec fn path_lt(a: Seq<Step>, b: Seq<Step>) -> bool
    decreases a.len(),
{
    if b.len() == 0 {
        false
    } else if a.len() == 0 {
        true
    } else if a[0] != b[0] {
        step_lt(a[0], b[0])
    } else {
        path_lt(a.skip(1), b.skip(1))
    }
}

impl Ordered for SubkeyPath {
    open spec fn lt(a: Seq<Step>, b: Seq<Step>) -> bool {
        path_lt(a, b)
    }

    proof fn lt_irreflexive(a: Seq<Step>)
        decreases a.len(),
    {
        if a.len() > 0 {
            Self::lt_irreflexive(a.skip(1));
        }
    }

    proof fn lt_transitive(a: Seq<Step>, b: Seq<Step>, c: Seq<Step>)
        decreases a.len(),
    {
        if a.len() > 0 {
            if a[0] == b[0] && b[0] == c[0] {
                Self::lt_transitive(a.skip(1), b.skip(1), c.skip(1));
            } else if a[0] != b[0] && b[0] != c[0] {
                match (a[0], b[0], c[0]) {
                    (Step::Key(x), Step::Key(y), Step::Key(z)) => {
                        text_lt_transitive(x, y, z);
                        text_lt_irreflexive(x);
                    },
                    _ => {},
                }
            }
        }
    }

    proof fn lt_total(a: Seq<Step>, b: Seq<Step>)
        decreases a.len(),
    {
        if a.len() == 0 {
            if b.len() == 0 {
                assert(a =~= b);
            }
        } else if b.len() > 0 {
            if a[0] == b[0] {
                Self::lt_total(a.skip(1), b.skip(1));
                if a.skip(1) == b.skip(1) {
                    assert(a =~= seq![a[0]] + a.skip(1));
                    assert(b =~= seq![b[0]] + b.skip(1));
                }
            } else {
                match (a[0], b[0]) {
                    (Step::Key(x), Step::Key(y)) => {
                        text_lt_total(x, y);
                    },
                    _ => {},
                }
            }
        }
    }

    fn less(&self, other: &Self) -> (less: bool) {
        let mut i: usize = 0;
        assert(self@.skip(0) =~= self@);
        assert(other@.skip(0) =~= other@);
        while i < self.segments.len() && i < other.segments.len()
            invariant
                i <= self.segments@.len(),
                i <= other.segments@.len(),
                path_lt(self@, other@) == path_lt(self@.skip(i as int), other@.skip(i as int)),
            decreases self.segments@.len() - i,
        {
            assert(self@.skip(i as int)[0] == self.segments@[i as int]@);
            assert(other@.skip(i as int)[0] == other.segments@[i as int]@);
            assert(self@.skip(i as int).skip(1) =~= self@.skip(i + 1));
            assert(other@.skip(i as int).skip(1) =~= other@.skip(i + 1));
            if !self.segments[i].same(&other.segments[i]) {
                return match (&self.segments[i], &other.segments[i]) {
                    (Subkey::Key(a), Subkey::Key(b)) => text_less(a.as_str(), b.as_str()),
                    (Subkey::Key(_), Subkey::Index(_)) => true,
                    (Subkey::Index(_), Subkey::Key(_)) => false,
                    (Subkey::Index(a), Subkey::Index(b)) => *a < *b,
                };
            }
            i += 1;
        }
        i < other.segments.len()
    }

    fn duplicate(&self) -> (copy: Self) {
        self.clone()
    }
}

/// Whether a name can be written bare: it is not empty, and holds nothing
/// that separates or quotes segments.
pub open spec fn is_bare(name: Seq<char>) -> bool {
    name.len() > 0 && forall|i: int| 0 <= i < name.len() ==> !is_mark(#[trigger] name[i])
}

/// Whether `c` separates or quotes segments.
pub open spec fn is_mark(c: char) -> bool {
    c == '.' || c == '[' || c == ']' || c == '\''
}

/// A name as it stands between quotes: quotes and backslashes follow a
/// backslash.
pub open spec fn escaped(name: Seq<char>) -> Seq<char>
    decreases name.len(),
{
    if name.len() == 0 {
        Seq::empty()
    } else {
        let front = escaped(name.drop_last());
        if name.last() == '\'' || name.last() == '\\' {
            front.push('\\').push(name.last())
        } else {
            front.push(name.last())
        }
    }
}

/// A step as it is written, alone.
pub open spec fn step_text(step: Step) -> Seq<char> {
    match step {
        Step::Key(name) => if is_bare(name) {
            name
        } else {
            seq!['[', '\''] + escaped(name) + seq!['\'', ']']
        },
        Step::Index(index) => seq!['['] + decimal(index as nat) + seq![']'],
    }
}

/// Whether a dot stands before `step` when it is not the first.
pub open spec fn dotted(step: Step) -> bool {
    step matches Step::Key(name) && is_bare(name)
}

/// A path as it is written: `servers[0].host`.
pub open spec fn path_text(path: Seq<Step>) -> Seq<char>
    decreases path.len(),
{
    if path.len() == 0 {
        Seq::empty()
    } else {
        let front = path_text(path.drop_last());
        if path.len() > 1 && dotted(path.last()) {
            front.push('.') + step_text(path.last())
        } else {
            front + step_text(path.last())
        }
    }
}

fn bare(name: &Vec<char>) -> (bare: bool)
    ensures
        bare == is_bare(name@),
{
    let mut i: usize = 0;
    while i < name.len()
        invariant
            i <= name@.len(),
            forall|j: int| 0 <= j < i ==> !is_mark(#[trigger] name@[j]),
        decreases name@.len() - i,
    {
        let c = name[i];
        if c == '.' || c == '[' || c == ']' || c == '\'' {
            assert(is_mark(name@[i as int]));
            return false;
        }
        i += 1;
    }
    name.len() > 0
}

impl Subkey {
    /// The step as it is written, alone.
    pub fn chars(&self) -> (chars: Vec<char>)
        ensures
            chars@ == step_text(self@),
    {
        match self {
            Subkey::Key(name) => {
                let name = chars_of(name.as_str());
                if bare(&name) {
                    return name;
                }
                let mut chars: Vec<char> = Vec::new();
                chars.push('[');
                chars.push('\'');
                let mut i: usize = 0;
                assert(chars@ =~= seq!['[', '\''] + escaped(name@.take(0)));
                while i < name.len()
                    invariant
                        i <= name@.len(),
                        chars@ == seq!['[', '\''] + escaped(name@.take(i as int)),
                    decreases name@.len() - i,
                {
                    let c = name[i];
                    assert(name@.take(i + 1).drop_last() =~= name@.take(i as int));
                    if c == '\'' || c == '\\' {
                        chars.push('\\');
                    }
                    chars.push(c);
                    i += 1;
                    assert(chars@ =~= seq!['[', '\''] + escaped(name@.take(i as int)));
                }
                assert(name@.take(i as int) =~= name@);
                chars.push('\'');
                chars.push(']');
                assert(chars@ =~= step_text(self@));
                chars
            },
            Subkey::Index(index) => {
                let mut chars: Vec<char> = Vec::new();
                chars.push('[');
                append_decimal(&mut chars, *index as u64);
                chars.push(']');
                assert(chars@ =~= step_text(self@));
                chars
            },
        }
    }

    /// Whether a dot stands before the step when it is not the first.
    fn is_dotted(&self) -> (dot: bool)
        ensures
            dot == dotted(self@),
    {
        match self {
            Subkey::Key(name) => {
                let name = chars_of(name.as_str());
                bare(&name)
            },
            Subkey::Index(_) => false,
        }
    }

    /// The step as it is written, alone.
    pub fn text(&self) -> (text: String)
        ensures
            text@ == step_text(self@),
    {
        let chars = self.chars();
        text_of(&chars)
    }
}

impl SubkeyPath {
    /// The path as it is written.
    pub fn chars(&self) -> (chars: Vec<char>)
        ensures
            chars@ == path_text(self@),
    {
        let mut chars: Vec<char> = Vec::new();
        let mut i: usize = 0;
        assert(self@.take(0).len() == 0);
        while i < self.segments.len()
            invariant
                i <= self.segments@.len(),
                chars@ == path_text(self@.take(i as int)),
            decreases self.segments@.len() - i,
        {
            assert(self@.take(i + 1).drop_last() =~= self@.take(i as int));
            assert(self@.take(i + 1).last() == self.segments@[i as int]@);
            if i > 0 && self.segments[i].is_dotted() {
                chars.push('.');
            }
            let segment = self.segments[i].chars();
            append_chars(&mut chars, &segment);
            i += 1;
        }
        assert(self@.take(i as int) =~= self@);
        chars
    }

    /// The path as it is written.
    pub fn text(&self) -> (text: String)
        ensures
            text@ == path_text(self@),
    {
        let chars = self.chars();
        text_of(&chars)
    }
}

} // verus!
