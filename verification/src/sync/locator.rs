//! Sampling and matching canonical paths.
//!
//! A locator is the puller's canonical path sampled newest-first at
//! exponentially widening offsets, dense near the head where the split is
//! likely and sparse toward the root. The server answers with the newest
//! entry on its own canonical path; the spacing can overshoot the true
//! divergence point, which only costs re-streamed duplicates.

use vstd::prelude::*;

use crate::digest::EnvelopeDigest;

verus! {

/// The most entries a locator may carry.
pub const MAX_LOCATOR_LEN: usize = 64;

/// Whether `n` is a power of two.
pub open spec fn power_of_two(n: nat) -> bool
    decreases n,
{
    n == 1 || (n > 1 && n % 2 == 0 && power_of_two(n / 2))
}

/// Whether a locator samples the entry this many envelopes behind the head.
pub open spec fn samples(offset: nat) -> bool {
    offset == 0 || power_of_two(offset)
}

/// The sampled ones of the first `n` entries of `path`.
pub open spec fn sampled_of(path: Seq<EnvelopeDigest>, n: nat) -> Seq<EnvelopeDigest>
    decreases n,
{
    if n == 0 {
        Seq::empty()
    } else {
        let front = sampled_of(path, (n - 1) as nat);
        if samples((n - 1) as nat) {
            front.push(path[n - 1])
        } else {
            front
        }
    }
}

/// The locator of `path`: its sampled entries, ending on its last.
pub open spec fn locator_of(path: Seq<EnvelopeDigest>) -> Seq<EnvelopeDigest> {
    let front = sampled_of(path, path.len());
    if path.len() == 0 || samples((path.len() - 1) as nat) {
        front
    } else {
        front.push(path.last())
    }
}

/// The first entry of `path` that `locator` offers.
pub open spec fn split_of(locator: Seq<EnvelopeDigest>, path: Seq<EnvelopeDigest>) -> Option<
    EnvelopeDigest,
>
    decreases path.len(),
{
    if path.len() == 0 {
        None
    } else if locator.contains(path[0]) {
        Some(path[0])
    } else {
        split_of(locator, path.skip(1))
    }
}

/// Whether a locator samples the entry this many envelopes behind the head.
pub fn sampled(offset: usize) -> (sampled: bool)
    ensures
        sampled == samples(offset as nat),
{
    if offset == 0 {
        return true;
    }
    let mut n: usize = offset;
    while n % 2 == 0
        invariant
            n > 0,
            power_of_two(n as nat) == power_of_two(offset as nat),
        decreases n,
    {
        n = n / 2;
    }
    n == 1
}

/// Samples `path`, a walk of the canonical chain newest first, at offsets
/// 0, 1, 2, 4, 8, and so on, always ending on its last entry, the oldest
/// this node holds. Empty in, empty out.
pub fn sample(path: &Vec<EnvelopeDigest>) -> (locator: Vec<EnvelopeDigest>)
    ensures
        locator@ == locator_of(path@),
{
    let mut locator: Vec<EnvelopeDigest> = Vec::new();
    let mut offset: usize = 0;
    while offset < path.len()
        invariant
            offset <= path@.len(),
            locator@ == sampled_of(path@, offset as nat),
        decreases path@.len() - offset,
    {
        if sampled(offset) {
            locator.push(path[offset]);
        }
        offset += 1;
    }
    if path.len() > 0 && !sampled(path.len() - 1) {
        locator.push(path[path.len() - 1]);
    }
    locator
}

/// Whether `digests` hold `digest`.
pub fn offers(digests: &Vec<EnvelopeDigest>, digest: EnvelopeDigest) -> (held: bool)
    ensures
        held == digests@.contains(digest),
{
    let mut i: usize = 0;
    while i < digests.len()
        invariant
            i <= digests@.len(),
            forall|j: int| 0 <= j < i ==> digests@[j] != digest,
        decreases digests@.len() - i,
    {
        if digests[i] == digest {
            return true;
        }
        i += 1;
    }
    false
}

/// The newest locator entry on `path`, this node's canonical walk newest
/// first, which is the split point a server streams from; `None` when the
/// chains share nothing.
pub fn split(locator: &Vec<EnvelopeDigest>, path: &Vec<EnvelopeDigest>) -> (at: Option<
    EnvelopeDigest,
>)
    ensures
        at == split_of(locator@, path@),
{
    let mut i: usize = 0;
    assert(path@.skip(0) =~= path@);
    while i < path.len()
        invariant
            i <= path@.len(),
            split_of(locator@, path@) == split_of(locator@, path@.skip(i as int)),
        decreases path@.len() - i,
    {
        assert(path@.skip(i as int).skip(1) =~= path@.skip(i + 1));
        if offers(locator, path[i]) {
            return Some(path[i]);
        }
        i += 1;
    }
    None
}

/// A locator starts at the head and ends at the oldest entry.
pub proof fn a_locator_spans_the_path(path: Seq<EnvelopeDigest>)
    requires
        path.len() > 0,
    ensures
        locator_of(path).len() > 0,
        locator_of(path)[0] == path[0],
        locator_of(path).last() == path.last(),
{
    starts_at_the_head(path, path.len());
}

proof fn starts_at_the_head(path: Seq<EnvelopeDigest>, n: nat)
    requires
        0 < n <= path.len(),
    ensures
        sampled_of(path, n).len() > 0,
        sampled_of(path, n)[0] == path[0],
        samples((n - 1) as nat) ==> sampled_of(path, n).last() == path[n - 1],
    decreases n,
{
    if n > 1 {
        starts_at_the_head(path, (n - 1) as nat);
    } else {
        assert(samples(0));
        assert(sampled_of(path, 0).len() == 0);
    }
}

/// Two to the `k`.
pub open spec fn doubled(k: nat) -> nat
    decreases k,
{
    if k == 0 {
        1
    } else {
        2 * doubled((k - 1) as nat)
    }
}

/// Between two powers of two next to each other there is none.
pub proof fn no_power_between(k: nat, n: nat)
    requires
        doubled(k) < n < doubled(k + 1),
    ensures
        !power_of_two(n),
    decreases k,
{
    if k > 0 && n % 2 == 0 {
        no_power_between((k - 1) as nat, n / 2);
    }
}

pub proof fn doubled_is_power(k: nat)
    ensures
        power_of_two(doubled(k)),
        doubled(k) >= 1,
    decreases k,
{
    if k > 0 {
        doubled_is_power((k - 1) as nat);
    }
}

/// Of the first two to the `k` offsets, `k` and one are sampled, and no
/// more of fewer.
proof fn few_are_sampled(path: Seq<EnvelopeDigest>, n: nat, k: nat)
    requires
        n <= doubled(k),
    ensures
        sampled_of(path, n).len() <= k + 1,
    decreases k, n,
{
    if n > 0 {
        if k > 0 && n <= doubled((k - 1) as nat) {
            few_are_sampled(path, n, (k - 1) as nat);
        } else if k == 0 {
            assert(sampled_of(path, 0).len() == 0);
        } else if n - 1 == doubled((k - 1) as nat) {
            few_are_sampled(path, (n - 1) as nat, (k - 1) as nat);
        } else {
            no_power_between((k - 1) as nat, (n - 1) as nat);
            doubled_is_power((k - 1) as nat);
            few_are_sampled(path, (n - 1) as nat, k);
        }
    }
}

/// A locator of a path of up to two to the sixty-second envelopes stays
/// within the cap.
pub proof fn a_locator_stays_within_the_cap(path: Seq<EnvelopeDigest>)
    requires
        path.len() <= doubled(62),
    ensures
        locator_of(path).len() <= MAX_LOCATOR_LEN,
{
    few_are_sampled(path, path.len(), 62);
}

/// The order of a locator does not matter, only what it offers.
pub proof fn a_split_ignores_the_order(
    a: Seq<EnvelopeDigest>,
    b: Seq<EnvelopeDigest>,
    path: Seq<EnvelopeDigest>,
)
    requires
        forall|digest: EnvelopeDigest| #[trigger] a.contains(digest) <==> b.contains(digest),
    ensures
        split_of(a, path) == split_of(b, path),
    decreases path.len(),
{
    if path.len() > 0 {
        assert(a.contains(path[0]) == b.contains(path[0]));
        a_split_ignores_the_order(a, b, path.skip(1));
    }
}

/// A split lies on the path and in the locator, and nothing newer on the
/// path does.
pub proof fn a_split_is_the_newest(locator: Seq<EnvelopeDigest>, path: Seq<EnvelopeDigest>)
    ensures
        match split_of(locator, path) {
            Some(at) => exists|i: int|
                {
                    &&& 0 <= i < path.len()
                    &&& #[trigger] path[i] == at
                    &&& locator.contains(at)
                    &&& forall|j: int| 0 <= j < i ==> !locator.contains(#[trigger] path[j])
                },
            None => forall|i: int|
                0 <= i < path.len() ==> !locator.contains(#[trigger] path[i]),
        },
    decreases path.len(),
{
    if path.len() > 0 {
        if locator.contains(path[0]) {
            assert(path[0] == path[0]);
        } else {
            let rest = path.skip(1);
            a_split_is_the_newest(locator, rest);
            match split_of(locator, rest) {
                Some(at) => {
                    let i = choose|i: int|
                        {
                            &&& 0 <= i < rest.len()
                            &&& #[trigger] rest[i] == at
                            &&& locator.contains(at)
                            &&& forall|j: int| 0 <= j < i ==> !locator.contains(#[trigger] rest[j])
                        };
                    assert(path[i + 1] == at);
                    assert forall|j: int| 0 <= j < i + 1 implies !locator.contains(
                        #[trigger] path[j],
                    ) by {
                        if j > 0 {
                            assert(rest[j - 1] == path[j]);
                        }
                    }
                },
                None => {
                    assert forall|i: int| 0 <= i < path.len() implies !locator.contains(
                        #[trigger] path[i],
                    ) by {
                        if i > 0 {
                            assert(rest[i - 1] == path[i]);
                        }
                    }
                },
            }
        }
    }
}

/// Nodes whose paths end at the same root always find a split.
pub proof fn a_shared_root_is_found(mine: Seq<EnvelopeDigest>, theirs: Seq<EnvelopeDigest>)
    requires
        mine.len() > 0,
        theirs.len() > 0,
        mine.last() == theirs.last(),
    ensures
        split_of(locator_of(mine), theirs) is Some,
{
    a_locator_spans_the_path(mine);
    a_split_is_the_newest(locator_of(mine), theirs);
    let locator = locator_of(mine);
    assert(locator[locator.len() - 1] == mine.last());
    assert(locator.contains(mine.last()));
    assert(theirs[theirs.len() - 1] == mine.last());
}

} // verus!
