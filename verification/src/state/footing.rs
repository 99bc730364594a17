//! Whether a log can be walked.
//!
//! Rows that something else wrote may file an envelope under a digest that is
//! not its own, or lead a chain round in a circle. A walk over those might not
//! end, so it is asked before one is begun.

use vstd::prelude::*;

use crate::digest::EnvelopeDigest;
use crate::order::SortedSet;
use crate::state::chain::{ancestor, ancestors_end, filed_soundly, layered, layered_by, walkable};
use crate::state::change::{generations_add, one_generation};
use crate::storage::graph::RowError;
use crate::storage::rows::Rows;
use crate::storage::sqlite::SqliteStorage;
use crate::storage::{Storage, Store};

verus! {

/// Whether the line of `digest` ends.
pub open spec fn ends(store: Store, digest: EnvelopeDigest) -> bool {
    exists|n: nat| #[trigger] ancestor(store, digest, n) is None
}

/// How many generations the line of `digest` has, looking at most `n` up.
pub open spec fn generations(store: Store, digest: EnvelopeDigest, n: nat) -> nat
    decreases n,
{
    if n == 0 {
        0
    } else if ancestor(store, digest, (n - 1) as nat) is Some {
        generations(store, digest, (n - 1) as nat) + 1
    } else {
        generations(store, digest, (n - 1) as nat)
    }
}

/// Where a line has an ancestor, it has one at every generation before.
proof fn lines_are_unbroken(store: Store, digest: EnvelopeDigest, n: nat, m: nat)
    requires
        n <= m,
        ancestor(store, digest, m) is Some,
    ensures
        ancestor(store, digest, n) is Some,
{
    if ancestor(store, digest, n) is None {
        ancestors_end(store, digest, n, m);
    }
}

/// A line that ended has as many generations however far one looks.
proof fn ended_lines_count(store: Store, digest: EnvelopeDigest, n: nat, m: nat)
    requires
        n <= m,
        ancestor(store, digest, n) is None,
    ensures
        generations(store, digest, m) == generations(store, digest, n),
    decreases m,
{
    if n < m {
        ended_lines_count(store, digest, n, (m - 1) as nat);
        ancestors_end(store, digest, n, (m - 1) as nat);
    }
}

/// A line counts at most as far as one looks.
proof fn counts_are_bounded(store: Store, digest: EnvelopeDigest, n: nat)
    ensures
        generations(store, digest, n) <= n,
    decreases n,
{
    if n > 0 {
        counts_are_bounded(store, digest, (n - 1) as nat);
    }
}

/// A child's line is a generation longer than its parent's.
proof fn a_child_is_one_more(store: Store, child: EnvelopeDigest, parent: EnvelopeDigest, n: nat)
    requires
        store.follows(child, parent),
    ensures
        ancestor(store, child, n + 1) == ancestor(store, parent, n),
        generations(store, child, n + 1) == generations(store, parent, n) + 1,
    decreases n,
{
    assert(ancestor(store, child, 1) == Some(parent)) by {
        assert(ancestor(store, child, 0) == Some(child));
    }
    generations_add(store, child, 1, n);
    if n > 0 {
        a_child_is_one_more(store, child, parent, (n - 1) as nat);
    } else {
        assert(generations(store, child, 1) == generations(store, child, 0) + 1);
    }
}

/// Lines that end do so within some number of generations.
proof fn ends_are_bounded(store: Store, digests: Seq<EnvelopeDigest>, k: nat) -> (bound: nat)
    requires
        k <= digests.len(),
        forall|i: int| 0 <= i < digests.len() ==> ends(store, #[trigger] digests[i]),
    ensures
        forall|i: int| 0 <= i < k ==> ancestor(store, #[trigger] digests[i], bound) is None,
    decreases k,
{
    if k == 0 {
        0
    } else {
        let before = ends_are_bounded(store, digests, (k - 1) as nat);
        let last = digests[k - 1];
        assert(ends(store, last));
        let n = choose|n: nat| #[trigger] ancestor(store, last, n) is None;
        let bound = if before < n {
            n
        } else {
            before
        };
        assert forall|i: int| 0 <= i < k implies ancestor(
            store,
            #[trigger] digests[i],
            bound,
        ) is None by {
            if i < k - 1 {
                ancestors_end(store, digests[i], before, bound);
            } else {
                ancestors_end(store, last, n, bound);
            }
        }
        bound
    }
}

/// Where every line ends, no envelope is its own ancestor.
proof fn ending_layers(store: Store, digests: Seq<EnvelopeDigest>)
    requires
        forall|d: EnvelopeDigest|
            #![trigger store.log.contains_key(d)]
            #![trigger digests.contains(d)]
            store.log.contains_key(d) <==> digests.contains(d),
        forall|i: int| 0 <= i < digests.len() ==> ends(store, #[trigger] digests[i]),
    ensures
        layered(store),
{
    let bound = ends_are_bounded(store, digests, digests.len());
    let depth = |d: EnvelopeDigest| generations(store, d, bound + 1);
    let height = |d: EnvelopeDigest| (bound + 2 - generations(store, d, bound + 1)) as nat;
    assert forall|child: EnvelopeDigest, parent: EnvelopeDigest| #[trigger]
        store.follows(child, parent) implies depth(parent) < depth(child) && height(child)
        < height(parent) by {
        assert(digests.contains(child));
        let i = choose|i: int| 0 <= i < digests.len() && digests[i] == child;
        assert(ancestor(store, digests[i], bound) is None);
        a_child_is_one_more(store, child, parent, bound);
        ancestors_end(store, child, bound, bound + 1);
        ended_lines_count(store, child, bound, bound + 1);
        ended_lines_count(store, parent, bound, bound + 1);
        counts_are_bounded(store, child, bound + 1);
        counts_are_bounded(store, parent, bound + 1);
    }
    assert(layered_by(store, depth, height));
}

/// The first `n` of a line.
spec fn first_of(store: Store, digest: EnvelopeDigest, n: nat) -> Seq<EnvelopeDigest> {
    Seq::new(n, |x: int| ancestor(store, digest, x as nat)->0)
}

/// A line longer than the log leads round in a circle.
proof fn a_long_line_circles(store: Store, digests: Seq<EnvelopeDigest>, digest: EnvelopeDigest)
    requires
        forall|d: EnvelopeDigest|
            #![trigger store.log.contains_key(d)]
            #![trigger digests.contains(d)]
            store.log.contains_key(d) <==> digests.contains(d),
        ancestor(store, digest, digests.len() + 1) is Some,
    ensures
        !layered(store),
{
    if layered(store) {
        let n = digests.len() + 1;
        let line = first_of(store, digest, n);
        assert forall|x: int| 0 <= x < n implies digests.contains(#[trigger] line[x]) by {
            lines_are_unbroken(store, digest, (x + 1) as nat, n);
            lines_are_unbroken(store, digest, x as nat, n);
            assert(store.log.contains_key(line[x]));
        }
        assert(line.no_duplicates()) by {
            assert forall|x: int, y: int| 0 <= x < line.len() && 0 <= y < line.len() && x
                != y implies line[x] != line[y] by {
                if line[x] == line[y] {
                    lines_are_unbroken(store, digest, x as nat, n);
                    lines_are_unbroken(store, digest, y as nat, n);
                    one_generation(store, digest, x as nat, y as nat);
                }
            }
        }
        line.unique_seq_to_set();
        digests.lemma_cardinality_of_set();
        assert(line.to_set().subset_of(digests.to_set()));
        vstd::seq_lib::seq_to_set_is_finite(digests);
        vstd::set_lib::lemma_len_subset(line.to_set(), digests.to_set());
    }
}

/// Whether a log, all of whose digests are given, can be walked.
fn can_walk<R: Rows>(storage: &SqliteStorage<R>, digests: &Vec<EnvelopeDigest>) -> (walks: Result<
    bool,
    RowError<R::Error>,
>)
    requires
        storage.wf(),
        forall|d: EnvelopeDigest|
            #![trigger storage.store().log.contains_key(d)]
            #![trigger digests@.contains(d)]
            storage.store().log.contains_key(d) <==> digests@.contains(d),
    ensures
        walks matches Err(e) ==> e is Rows,
        walks matches Ok(walks) ==> walks == walkable(storage.store()),
{
    let ghost store = storage.store();
    let n: usize = digests.len();
    // The digests whose lines are known to end.
    let mut known: SortedSet<EnvelopeDigest> = SortedSet::new();
    let mut i: usize = 0;
    while i < n
        invariant
            i <= n == digests@.len(),
            storage.wf(),
            store == storage.store(),
            forall|d: EnvelopeDigest|
                #![trigger store.log.contains_key(d)]
                #![trigger digests@.contains(d)]
                store.log.contains_key(d) <==> digests@.contains(d),
            known.wf(),
            forall|d: EnvelopeDigest| #[trigger] known@.contains(d) ==> ends(store, d),
            forall|j: int|
                0 <= j < i ==> ends(store, #[trigger] digests@[j])
                    && store.log[digests@[j]].envelope.digest == Some(digests@[j]),
        decreases n - i,
    {
        let digest = digests[i];
        assert(digests@.contains(digests@[i as int]));
        match storage.rows.envelope(&digest) {
            Ok(Some(row)) => {
                let own: bool = match row.envelope.digest() {
                    Ok(own) => own == digest,
                    Err(_) => false,
                };
                if !own {
                    assert(!filed_soundly(store));
                    return Ok(false);
                }
            },
            Ok(None) => {
                assert(false);
            },
            Err(error) => {
                return Err(RowError::Rows(error));
            },
        }
        let mut line: Vec<EnvelopeDigest> = Vec::new();
        let mut cursor = Some(digest);
        let mut steps: usize = 0;
        let mut ended: bool = false;
        while !ended
            invariant
                n == digests@.len(),
                steps <= n,
                storage.wf(),
                store == storage.store(),
                forall|d: EnvelopeDigest|
                    #![trigger store.log.contains_key(d)]
                    #![trigger digests@.contains(d)]
                    store.log.contains_key(d) <==> digests@.contains(d),
                known.wf(),
                forall|d: EnvelopeDigest| #[trigger] known@.contains(d) ==> ends(store, d),
                cursor == ancestor(store, digest, steps as nat),
                line@.len() == steps,
                forall|x: int|
                    0 <= x < steps ==> ancestor(store, digest, x as nat) == Some(
                        #[trigger] line@[x],
                    ),
                ended ==> ends(store, digest),
            decreases n + 2 - steps + if ended {
                0int
            } else {
                1
            },
        {
            match cursor {
                None => {
                    ended = true;
                },
                Some(at) => {
                    if known.contains(&at) {
                        proof {
                            assert(ends(store, at));
                            let m = choose|m: nat| #[trigger] ancestor(store, at, m) is None;
                            generations_add(store, digest, steps as nat, m);
                            assert(ancestor(store, digest, steps as nat + m) is None);
                        }
                        ended = true;
                    } else {
                        let parent = match storage.parent(at) {
                            Ok(parent) => parent,
                            Err(error) => {
                                return Err(error);
                            },
                        };
                        assert(parent == ancestor(store, digest, steps as nat + 1));
                        if steps < n {
                            cursor = parent;
                            line.push(at);
                            steps += 1;
                        } else if parent.is_some() {
                            proof {
                                a_long_line_circles(store, digests@, digest);
                            }
                            return Ok(false);
                        } else {
                            ended = true;
                        }
                    }
                },
            }
        }
        let mut j: usize = 0;
        while j < line.len()
            invariant
                j <= line@.len(),
                known.wf(),
                forall|d: EnvelopeDigest| #[trigger] known@.contains(d) ==> ends(store, d),
                ends(store, digest),
                forall|x: int|
                    0 <= x < line@.len() ==> ancestor(store, digest, x as nat) == Some(
                        #[trigger] line@[x],
                    ),
            decreases line@.len() - j,
        {
            proof {
                let at = line@[j as int];
                let m = choose|m: nat| #[trigger] ancestor(store, digest, m) is None;
                if m <= j {
                    ancestors_end(store, digest, m, j as nat);
                }
                generations_add(store, digest, j as nat, (m - j) as nat);
                assert(ancestor(store, at, (m - j) as nat) is None);
            }
            known.insert(line[j]);
            j += 1;
        }
        i += 1;
    }
    proof {
        ending_layers(store, digests@);
        assert forall|d: EnvelopeDigest| #[trigger]
            store.log.contains_key(d) implies store.log[d].envelope.digest == Some(d) by {
            assert(digests@.contains(d));
            let j = choose|j: int| 0 <= j < digests@.len() && digests@[j] == d;
            assert(ends(store, digests@[j]));
        }
    }
    Ok(true)
}

impl<R: Rows> SqliteStorage<R> {
    /// Whether the log can be walked: every envelope under its own digest,
    /// none its own ancestor.
    pub fn walks(&self) -> (walks: Result<bool, RowError<R::Error>>)
        requires
            self.wf(),
        ensures
            walks matches Ok(walks) ==> walks == walkable(self.store()),
            walks matches Err(e) ==> e is Rows,
    {
        let digests = match self.rows.all_logged() {
            Ok(digests) => digests,
            Err(e) => {
                return Err(RowError::Rows(e));
            },
        };
        proof {
            assert forall|d: EnvelopeDigest|
                #![trigger self.store().log.contains_key(d)]
                #![trigger digests@.contains(d)]
                self.store().log.contains_key(d) <==> digests@.contains(d) by {
                assert(self.rows.db().log.contains_key(d) <==> digests@.contains(d));
            }
        }
        can_walk(self, &digests)
    }
}

} // verus!
