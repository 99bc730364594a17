//! The version a build goes by, told from where the tree stands past its
//! last release tag.
//!
//! Commits past a release are spelled as a pre-release of the next one, not
//! as build metadata, so that versions sort as the builds do.

use vstd::prelude::*;

use crate::digest::{all_hex, hex_value};
use crate::reading::{mentions, what_stands_between, what_stands_first};
use crate::text::{
    all_digits, append, append_chars, append_decimal, chars_of, decimal, decimal_reads_back,
    digits_value, is_digit, read_digits, text_lt, text_of,
};

verus! {

/// Where the last `c` before `end` stands; -1, where there is none.
pub open spec fn last_before(text: Seq<char>, c: char, end: int) -> int
    decreases end,
{
    if end <= 0 || end > text.len() {
        -1
    } else if text[end - 1] == c {
        end - 1
    } else {
        last_before(text, c, end - 1)
    }
}

/// What `git describe` adds behind a tag: how many commits lie past it, and
/// which commit this is.
pub struct Past {
    pub base: Seq<char>,
    pub count: Seq<char>,
    pub hash: Seq<char>,
}

/// Whether text is a commit's name as `git describe` spells it.
pub open spec fn is_commit(text: Seq<char>) -> bool {
    text.len() > 1 && text[0] == 'g' && all_hex(text.skip(1))
}

/// A description parted into the tag and what lies past it; none, where it
/// is a tag and no more.
pub open spec fn past_of(core: Seq<char>) -> Option<Past> {
    let second = last_before(core, '-', core.len() as int);
    let first = last_before(core, '-', second);
    if second < 0 || first < 0 {
        None
    } else {
        let past = Past {
            base: core.take(first),
            count: core.subrange(first + 1, second),
            hash: core.skip(second + 1),
        };
        if all_digits(past.count) && is_commit(past.hash) {
            Some(past)
        } else {
            None
        }
    }
}

/// The three numbers of a plain version, as they are spelled.
pub struct Plain {
    pub major: Seq<char>,
    pub minor: Seq<char>,
    pub patch: Seq<char>,
}

/// A plain version parted at its two dots; none, where it is no such thing
/// or its patch number is out of range.
pub open spec fn plain_of(text: Seq<char>) -> Option<Plain> {
    let second = last_before(text, '.', text.len() as int);
    let first = last_before(text, '.', second);
    if second < 0 || first < 0 {
        None
    } else {
        let plain = Plain {
            major: text.take(first),
            minor: text.subrange(first + 1, second),
            patch: text.skip(second + 1),
        };
        if plain.major.len() > 0 && all_digits(plain.major) && plain.minor.len() > 0 && all_digits(
            plain.minor,
        ) && plain.patch.len() > 0 && all_digits(plain.patch) && digits_value(plain.patch)
            <= u64::MAX {
            Some(plain)
        } else {
            None
        }
    }
}

/// The plain version after this one: its patch number one higher.
pub open spec fn bumped(text: Seq<char>) -> Option<Seq<char>> {
    match plain_of(text) {
        Some(plain) => Some(
            plain.major + seq!['.'] + plain.minor + seq!['.'] + decimal(
                digits_value(plain.patch) + 1,
            ),
        ),
        None => None,
    }
}

/// A description without the letter its tag starts with.
pub open spec fn core_of(described: Seq<char>) -> Seq<char> {
    if described.len() > 0 && described[0] == 'v' {
        described.skip(1)
    } else {
        described
    }
}

/// The version of a tree that lies where `core` says.
pub open spec fn version_of(core: Seq<char>) -> Seq<char> {
    match past_of(core) {
        None => core,
        Some(past) => if past.base.contains('-') {
            past.base + ".dev."@ + past.count + "."@ + past.hash
        } else {
            match bumped(past.base) {
                Some(next) => next + "-dev."@ + past.count + "."@ + past.hash,
                None => past.base + "-dev."@ + past.count + "."@ + past.hash,
            }
        },
    }
}

/// The version that a description stands for.
pub open spec fn semver_text(described: Seq<char>, dirty: bool) -> Seq<char> {
    let version = version_of(core_of(described));
    if dirty {
        version + "+dirty"@
    } else {
        version
    }
}

/// Whether the next patch number can be counted.
pub open spec fn can_bump(text: Seq<char>) -> bool {
    plain_of(text) matches Some(plain) ==> digits_value(plain.patch) < u64::MAX
}

fn find_last(text: &Vec<char>, c: char, end: usize) -> (at: Option<usize>)
    requires
        end <= text@.len(),
    ensures
        match at {
            Some(at) => at < end && last_before(text@, c, end as int) == at && text@[at as int]
                == c && (forall|i: int| at < i < end ==> #[trigger] text@[i] != c),
            None => last_before(text@, c, end as int) == -1 && (forall|i: int|
                0 <= i < end ==> #[trigger] text@[i] != c),
        },
{
    let mut i: usize = end;
    while i > 0
        invariant
            i <= end <= text@.len(),
            last_before(text@, c, end as int) == last_before(text@, c, i as int),
            forall|j: int| i <= j < end ==> #[trigger] text@[j] != c,
        decreases i,
    {
        if text[i - 1] == c {
            return Some(i - 1);
        }
        i -= 1;
    }
    None
}

fn part(text: &Vec<char>, from: usize, to: usize) -> (part: Vec<char>)
    requires
        from <= to <= text@.len(),
    ensures
        part@ == text@.subrange(from as int, to as int),
{
    let mut part: Vec<char> = Vec::new();
    let mut i: usize = from;
    while i < to
        invariant
            from <= i <= to <= text@.len(),
            part@ == text@.subrange(from as int, i as int),
        decreases to - i,
    {
        part.push(text[i]);
        i += 1;
        assert(part@ =~= text@.subrange(from as int, i as int));
    }
    part
}

fn digits(text: &Vec<char>) -> (all: bool)
    ensures
        all == all_digits(text@),
{
    let mut i: usize = 0;
    while i < text.len()
        invariant
            i <= text@.len(),
            forall|j: int| 0 <= j < i ==> is_digit(#[trigger] text@[j]),
        decreases text@.len() - i,
    {
        let c = text[i];
        if !('0' <= c && c <= '9') {
            assert(!is_digit(text@[i as int]));
            return false;
        }
        i += 1;
    }
    true
}

fn commit(text: &Vec<char>) -> (is: bool)
    ensures
        is == is_commit(text@),
{
    if text.len() < 2 || text[0] != 'g' {
        return false;
    }
    let mut i: usize = 1;
    while i < text.len()
        invariant
            1 <= i <= text@.len(),
            forall|j: int| 0 <= j < i - 1 ==> hex_value(#[trigger] text@.skip(1)[j]) is Some,
        decreases text@.len() - i,
    {
        let c = text[i];
        let ok = ('0' <= c && c <= '9') || ('a' <= c && c <= 'f') || ('A' <= c && c <= 'F');
        assert(text@.skip(1)[i - 1] == c);
        if !ok {
            assert(hex_value(text@.skip(1)[i - 1]) is None);
            return false;
        }
        i += 1;
    }
    true
}

/// Raises the patch of a plain version of three numbers; `None`, where
/// `text` is no such thing.
pub fn bump_patch(text: &Vec<char>) -> (next: Option<Vec<char>>)
    requires
        can_bump(text@),
    ensures
        match next {
            Some(next) => bumped(text@) == Some(next@),
            None => bumped(text@) is None,
        },
{
    let n: usize = text.len();
    let second: usize = match find_last(text, '.', n) {
        Some(at) => at,
        None => {
            return None;
        },
    };
    let first: usize = match find_last(text, '.', second) {
        Some(at) => at,
        None => {
            return None;
        },
    };
    let major = part(text, 0, first);
    let minor = part(text, first + 1, second);
    let patch = part(text, second + 1, n);
    assert(major@ =~= text@.take(first as int));
    assert(patch@ =~= text@.skip(second + 1));
    if major.len() == 0 || !digits(&major) || minor.len() == 0 || !digits(&minor) {
        return None;
    }
    assert(patch@.skip(0) =~= patch@);
    match read_digits(&patch, 0, u64::MAX) {
        Some(number) => {
            let mut next: Vec<char> = Vec::new();
            append_chars(&mut next, &major);
            next.push('.');
            append_chars(&mut next, &minor);
            next.push('.');
            append_decimal(&mut next, number + 1);
            assert(next@ =~= major@ + seq!['.'] + minor@ + seq!['.'] + decimal(
                (number + 1) as nat,
            ));
            Some(next)
        },
        None => None,
    }
}

/// The version that a description of the tree stands for.
///
/// - `v1.2.3` is `1.2.3`
/// - `v1.2.3-5-g86ce5c3a` is `1.2.4-dev.5.g86ce5c3a`
/// - `v1.2.3-rc1-5-gabc123` is `1.2.3-rc1.dev.5.gabc123`
///
/// A tree with changes in it adds `+dirty`. What is described in any other
/// shape stands as it is.
pub fn to_semver(described: &str, dirty: bool) -> (version: String)
    requires
        past_of(core_of(described@)) matches Some(past) ==> can_bump(past.base),
    ensures
        version@ == semver_text(described@, dirty),
{
    let all = chars_of(described);
    let n: usize = all.len();
    let core = if n > 0 && all[0] == 'v' {
        let core = part(&all, 1, n);
        assert(core@ =~= all@.skip(1));
        core
    } else {
        part(&all, 0, n)
    };
    assert(core@ =~= core_of(described@));
    let mut line = past_version(&core);
    if dirty {
        append(&mut line, "+dirty");
    }
    assert(line@ =~= semver_text(described@, dirty));
    text_of(&line)
}

/// A description's version, whatever the state of the tree.
fn past_version(core: &Vec<char>) -> (line: Vec<char>)
    requires
        past_of(core@) matches Some(past) ==> can_bump(past.base),
    ensures
        line@ == version_of(core@),
{
    let n: usize = core.len();
    let whole = part(core, 0, n);
    assert(whole@ =~= core@);
    let second: usize = match find_last(core, '-', n) {
        Some(at) => at,
        None => {
            return whole;
        },
    };
    let first: usize = match find_last(core, '-', second) {
        Some(at) => at,
        None => {
            return whole;
        },
    };
    let base = part(core, 0, first);
    let count = part(core, first + 1, second);
    let hash = part(core, second + 1, n);
    assert(base@ =~= core@.take(first as int));
    assert(hash@ =~= core@.skip(second + 1));
    if !digits(&count) || !commit(&hash) {
        return whole;
    }
    let dash: bool = match find_last(&base, '-', first) {
        Some(at) => {
            assert(base@.contains('-')) by {
                assert(base@[at as int] == '-');
            }
            true
        },
        None => false,
    };
    let mut line: Vec<char> = Vec::new();
    if dash {
        append_chars(&mut line, &base);
        append(&mut line, ".dev.");
    } else {
        match bump_patch(&base) {
            Some(next) => {
                append_chars(&mut line, &next);
            },
            None => {
                append_chars(&mut line, &base);
            },
        }
        append(&mut line, "-dev.");
    }
    let ghost lead = line@;
    append_chars(&mut line, &count);
    append(&mut line, ".");
    append_chars(&mut line, &hash);
    assert(line@ =~= lead + count@ + "."@ + hash@);
    line
}

/// What a build tells of itself, in short and at length.
#[derive(Debug, PartialEq, Eq)]
pub struct Identity {
    pub version: String,
    pub long_version: String,
}

/// Whether the description's patch number can be raised.
pub open spec fn countable(described: Option<&str>) -> bool {
    match described {
        Some(described) => match past_of(core_of(described@)) {
            Some(past) => can_bump(past.base),
            None => true,
        },
        None => true,
    }
}

/// The long form of a version no tag is reachable for: with the commit,
/// where that and the state of the tree are known.
pub open spec fn untagged_text(
    package: Seq<char>,
    hash: Option<Seq<char>>,
    dirty: Option<bool>,
) -> Seq<char> {
    match (hash, dirty) {
        (Some(hash), Some(dirty)) => package + " ("@ + (if dirty {
            "dirty "@
        } else {
            ""@
        }) + hash + ")"@,
        _ => package,
    }
}

/// Text, where there is some.
pub open spec fn told(text: Option<&str>) -> Option<Seq<char>> {
    match text {
        Some(text) => Some(text@),
        None => None,
    }
}

/// What a build tells of itself: the version its description stands for,
/// or its package's where no tag is reachable. The long form then carries
/// the commit, so the build stays identifiable.
pub fn identity(
    described: Option<&str>,
    package: &str,
    hash: Option<&str>,
    dirty: Option<bool>,
) -> (identity: Identity)
    requires
        countable(described),
    ensures
        match described {
            Some(described) => {
                &&& identity.version@ == semver_text(described@, dirty == Some(true))
                &&& identity.long_version@ == identity.version@
            },
            None => {
                &&& identity.version@ == package@
                &&& identity.long_version@ == untagged_text(package@, told(hash), dirty)
            },
        },
{
    match described {
        Some(described) => {
            let unclean: bool = match dirty {
                Some(dirty) => dirty,
                None => false,
            };
            let version = to_semver(described, unclean);
            Identity { long_version: version.clone(), version }
        },
        None => {
            let mut long = chars_of(package);
            match (hash, dirty) {
                (Some(hash), Some(dirty)) => {
                    append(&mut long, " (");
                    if dirty {
                        append(&mut long, "dirty ");
                    } else {
                        append(&mut long, "");
                    }
                    append(&mut long, hash);
                    append(&mut long, ")");
                },
                _ => {},
            }
            assert(long@ =~= untagged_text(package@, told(hash), dirty));
            Identity { version: package.to_owned(), long_version: text_of(&long) }
        },
    }
}

/// One identifier of a pre-release.
pub enum Identifier {
    Number(nat),
    Name(Seq<char>),
}

/// A version by its parts; build metadata is none of them.
pub struct Semver {
    pub major: nat,
    pub minor: nat,
    pub patch: nat,
    /// What makes it a pre-release; nothing, for a release.
    pub pre: Seq<Identifier>,
}

/// Whether one identifier comes before another: numbers by their value,
/// and before all names.
pub open spec fn identifier_lt(a: Identifier, b: Identifier) -> bool {
    match (a, b) {
        (Identifier::Number(a), Identifier::Number(b)) => a < b,
        (Identifier::Number(_), Identifier::Name(_)) => true,
        (Identifier::Name(_), Identifier::Number(_)) => false,
        (Identifier::Name(a), Identifier::Name(b)) => text_lt(a, b),
    }
}

/// Whether one list of identifiers comes before another: by the first they
/// differ in, the shorter first where they differ in none.
pub open spec fn identifiers_lt(a: Seq<Identifier>, b: Seq<Identifier>) -> bool
    decreases a.len(),
{
    if b.len() == 0 {
        false
    } else if a.len() == 0 {
        true
    } else if a[0] != b[0] {
        identifier_lt(a[0], b[0])
    } else {
        identifiers_lt(a.skip(1), b.skip(1))
    }
}

impl Semver {
    /// Whether the version comes before `other`: by its numbers, a
    /// pre-release before its release, and pre-releases by their
    /// identifiers.
    pub open spec fn precedes(self, other: Semver) -> bool {
        if self.major != other.major {
            self.major < other.major
        } else if self.minor != other.minor {
            self.minor < other.minor
        } else if self.patch != other.patch {
            self.patch < other.patch
        } else if self.pre.len() == 0 {
            false
        } else if other.pre.len() == 0 {
            true
        } else {
            identifiers_lt(self.pre, other.pre)
        }
    }

    /// The numbers as they are written.
    pub open spec fn core_text(self) -> Seq<char> {
        decimal(self.major) + seq!['.'] + decimal(self.minor) + seq!['.'] + decimal(self.patch)
    }

    /// The build `n` commits past this version, at the commit `hash`.
    pub open spec fn dev(self, n: nat, hash: Seq<char>) -> Semver {
        if self.pre.len() == 0 {
            Semver {
                major: self.major,
                minor: self.minor,
                patch: self.patch + 1,
                pre: seq![Identifier::Name("dev"@), Identifier::Number(n), Identifier::Name(hash)],
            }
        } else {
            Semver {
                pre: self.pre + seq![
                    Identifier::Name("dev"@),
                    Identifier::Number(n),
                    Identifier::Name(hash),
                ],
                ..self
            }
        }
    }
}

/// Lists of identifiers that start alike compare as what follows.
proof fn alike_fronts(front: Seq<Identifier>, a: Seq<Identifier>, b: Seq<Identifier>)
    ensures
        identifiers_lt(front + a, front + b) == identifiers_lt(a, b),
    decreases front.len(),
{
    if front.len() == 0 {
        assert(front + a =~= a);
        assert(front + b =~= b);
    } else {
        let rest = front.skip(1);
        alike_fronts(rest, a, b);
        assert((front + a).skip(1) =~= rest + a);
        assert((front + b).skip(1) =~= rest + b);
        assert((front + a)[0] == front[0]);
        assert((front + b)[0] == front[0]);
    }
}

/// A build past a release, or past a pre-release, sorts above it and below
/// the next release; and more commits past it make a higher version.
pub proof fn dev_builds_sort_between(base: Semver, n: nat, hash: Seq<char>, more: nat, other: Seq<
    char,
>)
    requires
        n < more,
    ensures
        base.precedes(base.dev(n, hash)),
        base.dev(n, hash).precedes(
            (Semver {
                patch: if base.pre.len() == 0 {
                    base.patch + 1
                } else {
                    base.patch
                },
                pre: Seq::empty(),
                ..base
            }),
        ),
        base.dev(n, hash).precedes(base.dev(more, other)),
{
    let tail = |n: nat, hash: Seq<char>|
        seq![Identifier::Name("dev"@), Identifier::Number(n), Identifier::Name(hash)];
    let a = tail(n, hash);
    let b = tail(more, other);
    assert(identifiers_lt(a, b)) by {
        assert(a[0] == b[0]);
        let a1 = a.skip(1);
        let b1 = b.skip(1);
        assert(a1[0] == Identifier::Number(n));
        assert(b1[0] == Identifier::Number(more));
        assert(identifiers_lt(a1, b1));
    }
    if base.pre.len() > 0 {
        alike_fronts(base.pre, a, b);
        alike_fronts(base.pre, Seq::empty(), a);
        assert(base.pre + Seq::<Identifier>::empty() =~= base.pre);
        assert(identifiers_lt(Seq::<Identifier>::empty(), a));
    }
}

/// Nothing but digits holds no dash and no dot.
proof fn digits_hold_no_mark(s: Seq<char>, i: int)
    requires
        all_digits(s),
        0 <= i < s.len(),
    ensures
        s[i] != '-',
        s[i] != '.',
{
    assert(is_digit(s[i]));
}

/// The last mark is found where nothing behind it is one.
proof fn last_is_found(text: Seq<char>, c: char, at: int, end: int)
    requires
        0 <= at < end <= text.len(),
        text[at] == c,
        forall|i: int| at < i < end ==> #[trigger] text[i] != c,
    ensures
        last_before(text, c, end) == at,
    decreases end,
{
    if end - 1 > at {
        assert(text[end - 1] != c);
        last_is_found(text, c, at, end - 1);
    }
}

/// The version of a tree `n` commits past the tag of a plain release is
/// spelled as the build that [`Semver::dev`] is.
pub proof fn a_dev_build_is_spelled(base: Semver, n: nat, hash: Seq<char>)
    requires
        base.pre.len() == 0,
        base.patch <= u64::MAX,
        is_commit(hash),
    ensures
        semver_text("v"@ + base.core_text() + "-"@ + decimal(n) + "-"@ + hash, false) == base.dev(
            n,
            hash,
        ).core_text() + "-dev."@ + decimal(n) + "."@ + hash,
{
    reveal_strlit("v");
    reveal_strlit("-");
    let core = base.core_text();
    let count = decimal(n);
    let described = "v"@ + core + "-"@ + count + "-"@ + hash;
    let rest = core + "-"@ + count + "-"@ + hash;
    assert(described.skip(1) =~= rest);
    assert(core_of(described) == rest);
    decimal_reads_back(n);
    decimal_reads_back(base.major);
    decimal_reads_back(base.minor);
    decimal_reads_back(base.patch);
    let major = decimal(base.major);
    let minor = decimal(base.minor);
    let patch = decimal(base.patch);
    let first = core.len() as int;
    let second = first + 1 + count.len();
    assert(rest[first] == '-');
    assert(rest[second] == '-');
    assert forall|i: int| second < i < rest.len() implies #[trigger] rest[i] != '-' by {
        let j = i - second - 1;
        assert(rest[i] == hash[j]);
        if j > 0 {
            assert(hash.skip(1)[j - 1] == hash[j]);
            assert(hex_value(hash.skip(1)[j - 1]) is Some);
        }
    }
    last_is_found(rest, '-', second, rest.len() as int);
    assert forall|i: int| first < i < second implies #[trigger] rest[i] != '-' by {
        assert(rest[i] == count[i - first - 1]);
        digits_hold_no_mark(count, i - first - 1);
    }
    last_is_found(rest, '-', first, second);
    assert(rest.take(first) =~= core);
    assert(rest.subrange(first + 1, second) =~= count);
    assert(rest.skip(second + 1) =~= hash);
    let dot = major.len() as int;
    let dot2 = dot + 1 + minor.len();
    assert forall|i: int| 0 <= i < core.len() implies #[trigger] core[i] != '-' by {
        if i < dot {
            assert(core[i] == major[i]);
            digits_hold_no_mark(major, i);
        } else if dot < i < dot2 {
            assert(core[i] == minor[i - dot - 1]);
            digits_hold_no_mark(minor, i - dot - 1);
        } else if i > dot2 {
            assert(core[i] == patch[i - dot2 - 1]);
            digits_hold_no_mark(patch, i - dot2 - 1);
        }
    }
    assert forall|i: int| dot2 < i < core.len() implies #[trigger] core[i] != '.' by {
        assert(core[i] == patch[i - dot2 - 1]);
        digits_hold_no_mark(patch, i - dot2 - 1);
    }
    last_is_found(core, '.', dot2, core.len() as int);
    assert forall|i: int| dot < i < dot2 implies #[trigger] core[i] != '.' by {
        assert(core[i] == minor[i - dot - 1]);
        digits_hold_no_mark(minor, i - dot - 1);
    }
    last_is_found(core, '.', dot, dot2);
    assert(core.take(dot) =~= major);
    assert(core.subrange(dot + 1, dot2) =~= minor);
    assert(core.skip(dot2 + 1) =~= patch);
}

/// A description that tells of commits past a tag parts into the tag, the
/// count and the commit.
proof fn a_description_parts(base: Seq<char>, n: nat, hash: Seq<char>)
    requires
        is_commit(hash),
    ensures
        past_of(base + "-"@ + decimal(n) + "-"@ + hash) == Some(
            Past { base, count: decimal(n), hash },
        ),
{
    reveal_strlit("-");
    let count = decimal(n);
    decimal_reads_back(n);
    let core = base + "-"@ + count + "-"@ + hash;
    let first = base.len() as int;
    let second = first + 1 + count.len();
    assert(core[first] == '-' && core[second] == '-');
    assert forall|i: int| second < i < core.len() implies #[trigger] core[i] != '-' by {
        let j = i - second - 1;
        assert(core[i] == hash[j]);
        if j > 0 {
            assert(hash.skip(1)[j - 1] == hash[j]);
            assert(hex_value(hash.skip(1)[j - 1]) is Some);
        }
    }
    last_is_found(core, '-', second, core.len() as int);
    assert forall|i: int| first < i < second implies #[trigger] core[i] != '-' by {
        assert(core[i] == count[i - first - 1]);
        digits_hold_no_mark(count, i - first - 1);
    }
    last_is_found(core, '-', first, second);
    assert(core.take(first) =~= base);
    assert(core.subrange(first + 1, second) =~= count);
    assert(core.skip(second + 1) =~= hash);
}

/// Where nothing of the kind stands, no mark is found.
proof fn none_is_found(text: Seq<char>, c: char, end: int)
    requires
        0 <= end <= text.len(),
        forall|i: int| 0 <= i < end ==> #[trigger] text[i] != c,
    ensures
        last_before(text, c, end) == -1,
    decreases end,
{
    if end > 0 {
        none_is_found(text, c, end - 1);
    }
}

/// A build at a tag goes by the tag, whatever that is: a release or a
/// pre-release. Only what tells of commits past a tag is read as such.
pub proof fn a_tag_is_its_version(tag: Seq<char>)
    ensures
        semver_text("v"@ + tag, false) == tag || exists|base: Seq<char>, count: Seq<char>, hash: Seq<
            char,
        >|
            all_digits(count) && #[trigger] is_commit(hash) && tag == #[trigger] (base + "-"@ + count
                + "-"@) + hash,
        !tag.contains('-') ==> semver_text("v"@ + tag, false) == tag,
        tag.len() > 0 && tag[0] != 'v' ==> semver_text(tag, false) == semver_text("v"@ + tag, false),
{
    reveal_strlit("v");
    reveal_strlit("-");
    assert(("v"@ + tag).skip(1) =~= tag);
    match past_of(tag) {
        Some(past) => {
            let second = last_before(tag, '-', tag.len() as int);
            let first = last_before(tag, '-', second);
            found_there(tag, '-', tag.len() as int);
            found_there(tag, '-', second);
            assert(tag =~= past.base + "-"@ + past.count + "-"@ + past.hash);
            assert(is_commit(past.hash));
            assert(tag[second] == '-');
        },
        None => {},
    }
}

/// What is found is there.
proof fn found_there(text: Seq<char>, c: char, end: int)
    requires
        end <= text.len(),
    ensures
        last_before(text, c, end) >= 0 ==> last_before(text, c, end) < end && text[last_before(
            text,
            c,
            end,
        )] == c,
    decreases end,
{
    if 0 < end && text[end - 1] != c {
        found_there(text, c, end - 1);
    }
}

/// A build past a pre-release is spelled as a further pre-release of the
/// same version, and one past a tag that is no version as one of that tag.
pub proof fn a_build_past_another_tag_is_spelled(base: Seq<char>, n: nat, hash: Seq<char>)
    requires
        is_commit(hash),
        base.contains('-') || !base.contains('.'),
    ensures
        semver_text("v"@ + base + "-"@ + decimal(n) + "-"@ + hash, false) == base
            + (if base.contains('-') {
            ".dev."@
        } else {
            "-dev."@
        }) + decimal(n) + "."@ + hash,
{
    reveal_strlit("v");
    let rest = base + "-"@ + decimal(n) + "-"@ + hash;
    assert(("v"@ + base + "-"@ + decimal(n) + "-"@ + hash).skip(1) =~= rest);
    assert(("v"@ + base + "-"@ + decimal(n) + "-"@ + hash)[0] == 'v');
    a_description_parts(base, n, hash);
    if !base.contains('.') {
        assert forall|i: int| 0 <= i < base.len() implies #[trigger] base[i] != '.' by {
            assert(base.contains(base[i]));
        }
        none_is_found(base, '.', base.len() as int);
    }
}

/// What a build says of itself differs by its tree alone where nothing else
/// does: one that is not clean says so at the end.
pub proof fn a_dirty_build_says_so(described: Seq<char>)
    ensures
        semver_text(described, true) == semver_text(described, false) + "+dirty"@,
{
}

/// A build no tag is reachable for is known by its package's version, and
/// by its commit where that is known, marked where the tree is not clean.
pub proof fn an_untagged_build_names_its_commit(
    package: Seq<char>,
    hash: Seq<char>,
    dirty: bool,
)
    ensures
        package.is_prefix_of(untagged_text(package, Some(hash), Some(dirty))),
        mentions(untagged_text(package, Some(hash), Some(dirty)), hash),
        dirty ==> mentions(untagged_text(package, Some(hash), Some(dirty)), "dirty "@ + hash),
        untagged_text(package, Some(hash), Some(true)) != untagged_text(
            package,
            Some(hash),
            Some(false),
        ),
        untagged_text(package, None, Some(dirty)) == package,
        untagged_text(package, Some(hash), None) == package,
{
    reveal_strlit("dirty ");
    reveal_strlit("");
    reveal_strlit(" (");
    let mark = if dirty {
        "dirty "@
    } else {
        ""@
    };
    let text = untagged_text(package, Some(hash), Some(dirty));
    let rest = " ("@ + mark + hash + ")"@;
    assert(text =~= package + rest);
    what_stands_first(package, rest);
    what_stands_between(package + " ("@ + mark, hash, ")"@);
    if dirty {
        assert(text =~= package + " ("@ + ("dirty "@ + hash) + ")"@);
        what_stands_between(package + " ("@, "dirty "@ + hash, ")"@);
    }
    assert(untagged_text(package, Some(hash), Some(true)).len() != untagged_text(
        package,
        Some(hash),
        Some(false),
    ).len());
}

} // verus!
