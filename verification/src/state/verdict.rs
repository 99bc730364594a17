//! What is let through, what is refused, and what is left behind.

use vstd::prelude::*;

use crate::digest::{hex_of, EnvelopeDigest, KeyId};
use crate::envelope::{Letter, Status};
use crate::msg::{an_increment_keeps_its_bounds, steps_of, Amendment, Condition, Deed};
use crate::state::error::{Fault, Refusal};
use crate::state::judge::{
    amend_judged, amend_judged_fits, bad_namespace, committed, failing, judged, opening_refusal,
    replayed, set_judged, set_judged_fits, trusted_at, verified, weight_of, write_of,
};
use crate::state::rules::{
    bad_key, fault_of, first_is, is_first, same_spelling, MIN_ENVELOPE_SIGNATURES_KEY,
    MIN_ENVELOPE_WEIGHT_KEY, TRUSTED_KEYS_KEY,
};
use crate::state::untouched::found;
use crate::storage::laws::{
    amended_reads_back, removed_is_gone, removed_items_close_up, set_reads_back,
};
use crate::storage::value::{kind_of, resolved};
use crate::storage::{NodeKind, Resolution, Store, Version, Write};
use crate::subkey::Step;
use crate::text::text_lt;
use crate::tree::{child, walked, walked_last};
use crate::value::{Key, Tree};

verus! {

/// Whether a step is none that what is there could have: a name where there
/// is no table, or an index where there is no array.
pub open spec fn astray(tree: Tree, step: Step) -> bool {
    match step {
        Step::Key(_) => !(tree is Table),
        Step::Index(_) => !(tree is Array),
    }
}

/// A walk reports where it stopped: at the first step that leads nowhere, and
/// whether that step went astray or only found nothing.
proof fn a_walk_stops_once(tree: Tree, path: Seq<Step>, depth: int)
    requires
        0 <= depth,
        depth + path.len() <= usize::MAX,
    ensures
        match resolved(tree, path, depth) {
            Resolution::Node(kind) => walked(tree, path) is Some && kind == kind_of(
                walked(tree, path)->0,
            ),
            Resolution::Missing { depth: stopped, at } => {
                let n = stopped - depth;
                &&& 0 <= n < path.len()
                &&& walked(tree, path) is None
                &&& walked(tree, path.take(n)) is Some
                &&& child(walked(tree, path.take(n))->0, path[n]) is None
                &&& kind_of(walked(tree, path.take(n))->0) == at
                &&& !astray(walked(tree, path.take(n))->0, path[n])
            },
            Resolution::Mismatch { depth: stopped } => {
                let n = stopped - depth;
                &&& 0 <= n < path.len()
                &&& walked(tree, path) is None
                &&& walked(tree, path.take(n)) is Some
                &&& astray(walked(tree, path.take(n))->0, path[n])
            },
        },
    decreases path.len(),
{
    if path.len() > 0 {
        assert(path.take(0).len() == 0);
        match child(tree, path[0]) {
            Some(below) => {
                let rest = path.skip(1);
                a_walk_stops_once(below, rest, depth + 1);
                let stopped: int = match resolved(tree, path, depth) {
                    Resolution::Node(_) => depth + 1,
                    Resolution::Missing { depth: stopped, .. } => stopped as int,
                    Resolution::Mismatch { depth: stopped } => stopped as int,
                };
                let n = stopped - depth;
                if 0 < n < path.len() {
                    assert(path.take(n)[0] == path[0]);
                    assert(path.take(n).skip(1) =~= rest.take(n - 1));
                    assert(rest[n - 1] == path[n]);
                }
            },
            None => {},
        }
    }
}

/// Past where a walk stops, it leads nowhere.
proof fn nothing_past_a_stop(tree: Tree, path: Seq<Step>, n: int, m: int)
    requires
        0 <= n < m <= path.len(),
        match walked(tree, path.take(n)) {
            Some(at) => child(at, path[n]) is None,
            None => true,
        },
    ensures
        walked(tree, path.take(m)) is None,
    decreases m,
{
    walked_last(tree, path.take(m));
    assert(path.take(m).drop_last() =~= path.take(m - 1));
    assert(path.take(m).last() == path[m - 1]);
    if m - 1 > n {
        nothing_past_a_stop(tree, path, n, m - 1);
    }
}

/// Whether a path goes astray on the way: some step of it, all before which
/// lead somewhere, is none that what is there could have.
pub open spec fn strays(tree: Tree, path: Seq<Step>) -> bool {
    exists|n: int|
        0 <= n < path.len() && walked(tree, path.take(n)) is Some && #[trigger] astray(
            walked(tree, path.take(n))->0,
            path[n],
        )
}

/// A walk is reported astray just where its path goes astray.
proof fn straying_is_reported(tree: Tree, path: Seq<Step>)
    requires
        path.len() <= usize::MAX,
    ensures
        resolved(tree, path, 0) is Mismatch <==> strays(tree, path),
{
    a_walk_stops_once(tree, path, 0);
    match resolved(tree, path, 0) {
        Resolution::Mismatch { depth } => {
            assert(astray(walked(tree, path.take(depth as int))->0, path[depth as int]));
        },
        Resolution::Node(_) => {
            if strays(tree, path) {
                let n = choose|n: int|
                    0 <= n < path.len() && walked(tree, path.take(n)) is Some && #[trigger] astray(
                        walked(tree, path.take(n))->0,
                        path[n],
                    );
                nothing_past_a_stop(tree, path, n, path.len() as int);
                assert(path.take(path.len() as int) =~= path);
            }
        },
        Resolution::Missing { depth, .. } => {
            if strays(tree, path) {
                let n = choose|n: int|
                    0 <= n < path.len() && walked(tree, path.take(n)) is Some && #[trigger] astray(
                        walked(tree, path.take(n))->0,
                        path[n],
                    );
                if n < depth {
                    nothing_past_a_stop(tree, path, n, depth as int);
                } else if n > depth {
                    nothing_past_a_stop(tree, path, depth as int, n);
                }
            }
        },
    }
}

/// Whether a path names a field that a table there does not have yet.
pub open spec fn fresh(tree: Tree, path: Seq<Step>) -> bool {
    &&& path.len() > 0
    &&& path.last() is Key
    &&& walked(tree, path) is None
    &&& walked(tree, path.drop_last()) is Some
    &&& walked(tree, path.drop_last())->0 is Table
}

/// A walk misses a field of a table on its last step just where the path
/// names a fresh one.
proof fn freshness_is_reported(tree: Tree, path: Seq<Step>)
    requires
        path.len() <= usize::MAX,
    ensures
        fresh(tree, path) <==> (resolved(tree, path, 0) matches Resolution::Missing { depth, at }
            && at == NodeKind::Table && depth == path.len() - 1),
{
    a_walk_stops_once(tree, path, 0);
    if path.len() > 0 {
        walked_last(tree, path);
        assert(path.take(path.len() - 1) =~= path.drop_last());
        if fresh(tree, path) {
            match resolved(tree, path, 0) {
                Resolution::Node(_) => {},
                Resolution::Missing { depth, .. } => {
                    if depth < path.len() - 1 {
                        nothing_past_a_stop(tree, path, depth as int, path.len() - 1);
                    }
                },
                Resolution::Mismatch { depth } => {
                    if depth < path.len() - 1 {
                        nothing_past_a_stop(tree, path, depth as int, path.len() - 1);
                    }
                },
            }
        }
    }
}

/// A write at a path is let through just where the namespace is there and the
/// path leads to something, of whatever kind, or names a fresh field that is
/// being set. What is let through is what was asked for, and what is not is
/// refused for the namespace, for a path that goes astray, or for one that
/// leads nowhere.
pub proof fn what_can_be_set_is(
    version: Version,
    key: Seq<char>,
    path: Seq<Step>,
    value: Option<Tree>,
)
    requires
        0 < path.len() <= usize::MAX,
    ensures
        set_judged(version, key, path, value) == if !version.contains_key(key) {
            Err::<Write, Refusal>(Refusal::UnknownNamespace { key })
        } else if walked(version[key], path) is Some || (value is Some && fresh(
            version[key],
            path,
        )) {
            Ok(Write::SetAt { key, path, value })
        } else if strays(version[key], path) {
            Err(Refusal::PathTypeMismatch { key, path })
        } else {
            Err(Refusal::UnknownPath { key, path })
        },
{
    if version.contains_key(key) {
        a_walk_stops_once(version[key], path, 0);
        straying_is_reported(version[key], path);
        freshness_is_reported(version[key], path);
    }
}

/// An append is let through on any array and on a fresh field; an increment on
/// any integer, with bounds that do not exclude each other and a result that
/// fits; a deletion on any table or array. Nothing else is, and it is said
/// which of these was wanting.
pub proof fn what_can_be_amended_is(
    version: Version,
    key: Seq<char>,
    path: Option<Seq<Step>>,
    op: Amendment,
)
    requires
        steps_of(path).len() <= usize::MAX,
    ensures
        ({
            let steps = steps_of(path);
            let tree = version[key];
            let target = walked(tree, steps);
            let leaf = target is Some && !(target->0 is Table) && !(target->0 is Array);
            let inverted = op is Increment && op->Increment_0.min is Some
                && op->Increment_0.max is Some && op->Increment_0.min->0 > op->Increment_0.max->0;
            amend_judged(version, key, path, op) == if !version.contains_key(key) {
                Err::<Write, Refusal>(Refusal::UnknownNamespace { key })
            } else if target is Some {
                let can = match op {
                    Amendment::Append(_) => target->0 is Array,
                    Amendment::Increment(_) => target->0 is Int,
                    Amendment::DeleteMatching(_) => !leaf,
                };
                if leaf && inverted {
                    Err(Refusal::InvalidBounds { key, path })
                } else if !can {
                    Err(Refusal::AmendTypeMismatch { key, path })
                } else if op is Increment && op->Increment_0.applied(target->0->Int_0) is None {
                    Err(Refusal::Overflow { key, path })
                } else {
                    Ok(Write::AmendAt { key, path: steps, op })
                }
            } else if op is Append && fresh(tree, steps) {
                Ok(Write::AmendAt { key, path: steps, op })
            } else if strays(tree, steps) {
                Err(Refusal::PathTypeMismatch { key, path: steps })
            } else {
                Err(Refusal::UnknownPath { key, path: steps })
            }
        }),
{
    if version.contains_key(key) {
        a_walk_stops_once(version[key], steps_of(path), 0);
        straying_is_reported(version[key], steps_of(path));
        freshness_is_reported(version[key], steps_of(path));
    }
}

/// Signatures are worth what they are worth one by one: taking them together
/// adds up, one alone is worth its key, and none is worth nothing.
pub proof fn weights_add_up(
    keys: Map<KeyId, Key>,
    a: Seq<(KeyId, bool)>,
    b: Seq<(KeyId, bool)>,
    one: (KeyId, bool),
)
    ensures
        weight_of(keys, a + b) == weight_of(keys, a) + weight_of(keys, b),
        weight_of(keys, seq![one]) == keys[one.0].weight,
        weight_of(keys, Seq::empty()) == 0,
    decreases b.len(),
{
    reveal_with_fuel(weight_of, 2);
    assert(seq![one].drop_last() =~= Seq::empty());
    if b.len() == 0 {
        assert(a + b =~= a);
    } else {
        assert((a + b).drop_last() =~= a + b.drop_last());
        weights_add_up(keys, a, b.drop_last(), one);
    }
}

/// A signature more is worth its key more, wherever in the list it stands.
pub proof fn a_signature_more_weighs_more(
    keys: Map<KeyId, Key>,
    signatures: Seq<(KeyId, bool)>,
    i: int,
)
    requires
        0 <= i < signatures.len(),
    ensures
        weight_of(keys, signatures) == weight_of(keys, signatures.remove(i))
            + keys[signatures[i].0].weight,
{
    let before = signatures.take(i);
    let after = signatures.skip(i + 1);
    let one = signatures[i];
    weights_add_up(keys, before, seq![one] + after, one);
    weights_add_up(keys, seq![one], after, one);
    weights_add_up(keys, before, after, one);
    assert(signatures =~= before + (seq![one] + after));
    assert(signatures.remove(i) =~= before + after);
}

/// A key is trusted just where the namespace of trusted keys files it under
/// its own id; without that namespace none is.
pub proof fn the_keys_on_file_are_trusted(version: Version, id: KeyId)
    requires
        trusted_at(version) is Ok,
    ensures
        ({
            let keys = trusted_at(version)->Ok_0;
            let filed = version[TRUSTED_KEYS_KEY@];
            &&& version.contains_key(TRUSTED_KEYS_KEY@) ==> filed is Table
            &&& keys.contains_key(id) <==> version.contains_key(TRUSTED_KEYS_KEY@)
                && filed->Table_0.contains_key(hex_of(id.bytes@))
            &&& keys.contains_key(id) ==> {
                &&& filed->Table_0[hex_of(id.bytes@)] == Tree::Key(keys[id])
                &&& keys[id].id == id
            }
        }),
{
    if version.contains_key(TRUSTED_KEYS_KEY@) {
        let filed = version[TRUSTED_KEYS_KEY@];
        let fields = filed->Table_0;
        let name = hex_of(id.bytes@);
        if fields.contains_key(name) {
            assert(!bad_key(fields)(name));
            same_spelling(id, fields[name]->Key_0.id);
        }
    }
}

/// Whether a signature counts for nothing: its key is not trusted, or it does
/// not verify.
pub open spec fn void(keys: Map<KeyId, Key>, signature: (KeyId, bool)) -> bool {
    !keys.contains_key(signature.0) || !signature.1
}

/// An envelope scores by every signature it carries: where one is void it
/// fails, and names just those whose signatures are; where none is, it is
/// worth all their keys together, as far as a number can say. One that opens a
/// chain or follows the head is scored, and no other.
pub proof fn every_signature_is_scored(version: Version, head: EnvelopeDigest, letter: Letter)
    requires
        letter.payload.prev() == Some(head) || (letter.payload.prev() is None && letter.digest
            == Some(head)),
    ensures
        letter.signatures.len() == 0 ==> verified(version, head, letter) == Ok::<Status, Refusal>(
            Status::AllMatched(0),
        ),
        letter.signatures.len() > 0 && trusted_at(version) is Ok && letter.signable ==> ({
            let keys = trusted_at(version)->Ok_0;
            let total = weight_of(keys, letter.signatures);
            let clean = forall|i: int|
                0 <= i < letter.signatures.len() ==> !void(keys, #[trigger] letter.signatures[i]);
            &&& verified(version, head, letter) is Ok
            &&& clean ==> verified(version, head, letter)->Ok_0 == Status::AllMatched(
                if total <= u32::MAX {
                    total as u32
                } else {
                    u32::MAX
                },
            )
            &&& !clean ==> {
                &&& verified(version, head, letter)->Ok_0 is Failed
                &&& forall|id: KeyId| #[trigger]
                    verified(version, head, letter)->Ok_0->Failed_0.contains(id) <==> exists|i: int|
                        0 <= i < letter.signatures.len() && letter.signatures[i].0 == id && void(
                            keys,
                            #[trigger] letter.signatures[i],
                        )
            }
        }),
        letter.signatures.len() > 0 && trusted_at(version) is Ok && !letter.signable ==> verified(
            version,
            head,
            letter,
        ) == Err::<Status, Refusal>(Refusal::Wire),
        letter.signatures.len() > 0 && trusted_at(version) is Err ==> verified(
            version,
            head,
            letter,
        ) == Err::<Status, Refusal>(trusted_at(version)->Err_0),
{
    if letter.signatures.len() > 0 && trusted_at(version) is Ok && letter.signable {
        let keys = trusted_at(version)->Ok_0;
        let bad = failing(keys, letter.signatures);
        if exists|i: int|
            0 <= i < letter.signatures.len() && void(keys, #[trigger] letter.signatures[i]) {
            let i = choose|i: int|
                0 <= i < letter.signatures.len() && void(keys, #[trigger] letter.signatures[i]);
            assert(bad.contains(letter.signatures[i].0));
        } else {
            assert(bad =~= Set::<KeyId>::empty());
        }
        assert forall|id: KeyId| #[trigger] bad.contains(id) <==> exists|i: int|
            0 <= i < letter.signatures.len() && letter.signatures[i].0 == id && void(
                keys,
                #[trigger] letter.signatures[i],
            ) by {
            if bad.contains(id) {
                let i = choose|i: int|
                    0 <= i < letter.signatures.len() && (#[trigger] letter.signatures[i]).0 == id
                        && crate::state::judge::fails(keys, letter.signatures[i]);
                assert(void(keys, letter.signatures[i]));
            }
        }
    }
}

/// An envelope for another place than the head is never scored.
pub proof fn only_the_head_is_scored(version: Version, head: EnvelopeDigest, letter: Letter)
    requires
        match letter.payload.prev() {
            Some(prev) => prev != head,
            None => letter.digest is Some && letter.digest->0 != head,
        },
    ensures
        verified(version, head, letter) == Err::<Status, Refusal>(
            Refusal::ChainMismatch {
                expected: head,
                found: match letter.payload.prev() {
                    Some(prev) => prev,
                    None => letter.digest->0,
                },
            },
        ),
{
}

/// Whether a namespace sets a threshold that `reached` does not reach.
pub open spec fn short_of(version: Version, key: Seq<char>, reached: int) -> bool {
    version.contains_key(key) && version[key] is Int && reached < version[key]->Int_0
}

/// Whether a namespace that sets a threshold sets one that can be.
pub open spec fn threshold_stands(version: Version, key: Seq<char>) -> bool {
    version.contains_key(key) ==> version[key] is Int && 0 <= version[key]->Int_0 <= u32::MAX
}

/// How many signatures an envelope counts for: all it carries, where they were
/// found to match.
pub open spec fn counted(letter: Letter) -> int {
    if letter.status is AllMatched {
        letter.signatures.len() as int
    } else {
        0
    }
}

/// An envelope applies just where it follows the head, has a digest, its
/// signatures did not fail, it is worth as much and signed by as many as is
/// asked for, and what it says may be written; it then leads to its digest.
pub proof fn what_may_apply_does(version: Version, head: EnvelopeDigest, letter: Letter)
    requires
        threshold_stands(version, MIN_ENVELOPE_WEIGHT_KEY@),
        threshold_stands(version, MIN_ENVELOPE_SIGNATURES_KEY@),
    ensures
        judged(version, head, letter) is Ok <==> {
            &&& letter.payload.prev() == Some(head)
            &&& letter.digest is Some
            &&& !(letter.status is Failed)
            &&& !short_of(
                version,
                MIN_ENVELOPE_WEIGHT_KEY@,
                if letter.status is AllMatched {
                    letter.status->AllMatched_0 as int
                } else {
                    0
                },
            )
            &&& !short_of(version, MIN_ENVELOPE_SIGNATURES_KEY@, counted(letter))
            &&& write_of(version, letter.payload) is Ok
        },
        judged(version, head, letter) is Ok ==> judged(version, head, letter)->Ok_0 == (
            letter.digest->0,
            write_of(version, letter.payload)->Ok_0,
        ),
{
}

/// A threshold that is wanting is named with what was asked for and what was
/// found, the weight before the number of signers.
pub proof fn what_is_wanting_is_named(version: Version, head: EnvelopeDigest, letter: Letter)
    requires
        threshold_stands(version, MIN_ENVELOPE_WEIGHT_KEY@),
        threshold_stands(version, MIN_ENVELOPE_SIGNATURES_KEY@),
        letter.payload.prev() == Some(head),
        letter.digest is Some,
    ensures
        ({
            let weight = if letter.status is AllMatched {
                letter.status->AllMatched_0
            } else {
                0
            };
            let verdict = judged(version, head, letter);
            &&& letter.status is Failed ==> verdict == Err::<(EnvelopeDigest, Write), Refusal>(
                Refusal::InvalidSignatures { failing: letter.status->Failed_0 },
            )
            &&& !(letter.status is Failed) && short_of(
                version,
                MIN_ENVELOPE_WEIGHT_KEY@,
                weight as int,
            ) ==> verdict == Err::<(EnvelopeDigest, Write), Refusal>(
                Refusal::InsufficientWeight {
                    required: version[MIN_ENVELOPE_WEIGHT_KEY@]->Int_0 as u32,
                    found: weight,
                },
            )
            &&& !(letter.status is Failed) && !short_of(
                version,
                MIN_ENVELOPE_WEIGHT_KEY@,
                weight as int,
            ) && short_of(version, MIN_ENVELOPE_SIGNATURES_KEY@, counted(letter)) ==> {
                &&& verdict matches Err(Refusal::InsufficientSignatures { required, found })
                &&& required == version[MIN_ENVELOPE_SIGNATURES_KEY@]->Int_0
                &&& found == counted(letter)
            }
        }),
{
}

/// What an envelope may write is what its namespace may hold afterwards: a
/// namespace written whole or at a path must keep its rule, one that is
/// deleted must be there, and nothing opens a chain twice.
pub proof fn what_may_be_written_is(version: Version, deed: Deed)
    ensures
        match deed {
            Deed::Init { .. } => write_of(version, deed) == Err::<Write, Refusal>(
                Refusal::UnexpectedInit,
            ),
            Deed::SetNamespace { key, value, .. } => {
                &&& fault_of(key, value) is None ==> write_of(version, deed) == Ok::<
                    Write,
                    Refusal,
                >(Write::Put { key, value })
                &&& fault_of(key, value) is Some ==> write_of(version, deed) == Err::<
                    Write,
                    Refusal,
                >(Refusal::InvalidValue { key, fault: fault_of(key, value)->0 })
            },
            Deed::DeleteNamespace { key, .. } => write_of(version, deed)
                == if version.contains_key(key) {
                Ok::<Write, Refusal>(Write::Delete { key })
            } else {
                Err(Refusal::UnknownNamespace { key })
            },
            Deed::SetNamespaceKey { key, path, value, .. } => match set_judged(
                version,
                key,
                path,
                value,
            ) {
                Err(refusal) => write_of(version, deed) == Err::<Write, Refusal>(refusal),
                Ok(write) => {
                    let after = write.applied(version)[key];
                    write_of(version, deed) == match fault_of(key, after) {
                        None => Ok::<Write, Refusal>(write),
                        Some(fault) => Err(Refusal::InvalidValue { key, fault }),
                    }
                },
            },
            Deed::AmendNamespaceKey { key, path, op, .. } => match amend_judged(
                version,
                key,
                path,
                op,
            ) {
                Err(refusal) => write_of(version, deed) == Err::<Write, Refusal>(refusal),
                Ok(write) => {
                    let after = write.applied(version)[key];
                    write_of(version, deed) == match fault_of(key, after) {
                        None => Ok::<Write, Refusal>(write),
                        Some(fault) => Err(Refusal::InvalidValue { key, fault }),
                    }
                },
            },
        },
{
    match deed {
        Deed::SetNamespace { key, value, .. } => {
            assert((Write::Put { key, value }).applied(version)[key] == value);
        },
        _ => {},
    }
}

/// Whether an entry meets every condition: what each asks for is found where
/// it asks for it.
pub open spec fn meets_all(conditions: Seq<Condition>, entry: Tree) -> bool {
    forall|i: int|
        0 <= i < conditions.len() ==> walked(entry, steps_of((#[trigger] conditions[i]).path))
            == Some(conditions[i].value)
}

/// What an envelope that applied said is what is read afterwards: a namespace
/// written is what was written, one deleted is gone, a value set is read at
/// its path, a field cleared is gone, and an entry cleared is taken out of its
/// array, those behind it moving up.
pub proof fn what_was_set_is_read(version: Version, head: EnvelopeDigest, letter: Letter)
    requires
        judged(version, head, letter) is Ok,
        letter.payload matches Deed::SetNamespaceKey { path, .. } ==> 0 < path.len() <= usize::MAX,
    ensures
        ({
            let after = judged(version, head, letter)->Ok_0.1.applied(version);
            match letter.payload {
                Deed::SetNamespace { key, value, .. } => after.contains_key(key) && after[key]
                    == value,
                Deed::DeleteNamespace { key, .. } => !after.contains_key(key),
                Deed::SetNamespaceKey { key, path, value, .. } => {
                    &&& value is Some ==> found(after, key, Some(path)) == value
                    &&& value is None && path.last() is Key ==> found(after, key, Some(path))
                        is None
                    &&& value is None && path.last() is Index ==> {
                        let index = path.last()->Index_0;
                        let was = found(version, key, Some(path.drop_last()));
                        &&& was is Some && was->0 is Array && index < was->0->Array_0.len()
                        &&& found(after, key, Some(path.drop_last())) == Some(
                            Tree::Array(
                                was->0->Array_0.take(index as int) + was->0->Array_0.skip(
                                    index + 1,
                                ),
                            ),
                        )
                    }
                },
                _ => true,
            }
        }),
{
    match letter.payload {
        Deed::SetNamespaceKey { key, path, value, .. } => {
            set_judged_fits(version, key, path, value);
            let tree = version[key];
            match value {
                Some(value) => {
                    set_reads_back(tree, path, value);
                },
                None => {
                    if path.last() is Key {
                        removed_is_gone(tree, path);
                    } else {
                        let items = walked(tree, path.drop_last())->0->Array_0;
                        let index = path.last()->Index_0;
                        removed_items_close_up(tree, path, items, index);
                        assert(items.remove(index as int) =~= items.take(index as int)
                            + items.skip(index + 1));
                    }
                },
            }
        },
        _ => {},
    }
}

/// What an amendment that applied did is what is read afterwards: an entry
/// stands last in the array it was appended to, alone where there was none; an
/// integer is what adding to it within its bounds gives; and of a table or an
/// array just the entries that meet every condition are gone, the others in
/// their order.
pub proof fn what_was_amended_is_read(version: Version, head: EnvelopeDigest, letter: Letter)
    requires
        judged(version, head, letter) is Ok,
        letter.payload is AmendNamespaceKey,
        steps_of(letter.payload->AmendNamespaceKey_path).len() <= usize::MAX,
    ensures
        ({
            let after = judged(version, head, letter)->Ok_0.1.applied(version);
            let key = letter.payload->AmendNamespaceKey_key;
            let path = letter.payload->AmendNamespaceKey_path;
            let was = found(version, key, path);
            let is = found(after, key, path);
            &&& is is Some
            &&& match letter.payload->op {
                Amendment::Append(entry) => {
                    &&& is->0 is Array
                    &&& is->0->Array_0.len() > 0
                    &&& is->0->Array_0.last() == entry
                    &&& was is Some ==> was->0 is Array && is->0->Array_0.drop_last()
                        == was->0->Array_0
                    &&& was is None ==> is->0->Array_0.len() == 1
                },
                Amendment::Increment(op) => {
                    &&& was is Some && was->0 is Int
                    &&& is->0 is Int
                    &&& op.min is Some ==> op.min->0 <= is->0->Int_0
                    &&& op.max is Some ==> is->0->Int_0 <= op.max->0
                    &&& {
                        let sum = was->0->Int_0 + op.delta;
                        (op.min is None || op.min->0 <= sum) && (op.max is None || sum
                            <= op.max->0) ==> is->0->Int_0 == sum
                    }
                },
                Amendment::DeleteMatching(conditions) => {
                    &&& was is Some
                    &&& was->0 is Table ==> is->0 is Table && forall|name: Seq<char>| #[trigger]
                        is->0->Table_0.contains_key(name) <==> was->0->Table_0.contains_key(name)
                            && !meets_all(conditions, was->0->Table_0[name])
                    &&& was->0 is Table ==> forall|name: Seq<char>| #[trigger]
                        is->0->Table_0.contains_key(name) ==> is->0->Table_0[name]
                            == was->0->Table_0[name]
                    &&& !(was->0 is Table) ==> was->0 is Array && is->0 == Tree::Array(
                        was->0->Array_0.filter(|entry: Tree| !meets_all(conditions, entry)),
                    )
                },
            }
        }),
{
    let key = letter.payload->AmendNamespaceKey_key;
    let path = letter.payload->AmendNamespaceKey_path;
    let op = letter.payload->op;
    amend_judged_fits(version, key, path, op);
    what_can_be_amended_is(version, key, path, op);
    amended_reads_back(version[key], steps_of(path), op);
    match op {
        Amendment::Append(entry) => {
            match walked(version[key], steps_of(path)) {
                Some(Tree::Array(items)) => {
                    assert(items.push(entry).drop_last() =~= items);
                },
                _ => {},
            }
        },
        Amendment::Increment(inc) => {
            an_increment_keeps_its_bounds(inc, walked(version[key], steps_of(path))->0->Int_0);
        },
        Amendment::DeleteMatching(conditions) => {
            let kept = crate::storage::value::spared(conditions);
            let want = |entry: Tree| !meets_all(conditions, entry);
            assert forall|entry: Tree| #[trigger] kept(entry) == want(entry) by {
                assert(crate::msg::all_hold(conditions, entry) == meets_all(conditions, entry)) by {
                    if crate::msg::all_hold(conditions, entry) {
                        assert forall|i: int| 0 <= i < conditions.len() implies walked(
                            entry,
                            steps_of((#[trigger] conditions[i]).path),
                        ) == Some(conditions[i].value) by {
                            assert(conditions[i].holds(entry));
                        }
                    }
                    if meets_all(conditions, entry) {
                        assert forall|i: int| 0 <= i < conditions.len() implies (
                        #[trigger] conditions[i]).holds(entry) by {}
                    }
                }
            }
            assert(kept =~= want);
            assert forall|entry: Tree| #[trigger] kept(entry) == !meets_all(conditions, entry) by {}
        },
    }
}

/// A chain replayed in two goes is a chain replayed in one: what comes after
/// starts where what came before ended, and a refusal ends it.
pub proof fn replaying_goes_on(store: Store, head: EnvelopeDigest, a: Seq<Letter>, b: Seq<Letter>)
    ensures
        replayed(store, head, a + b) == match replayed(store, head, a) {
            (after, Ok(to)) => replayed(after, to, b),
            (after, Err(refusal)) => (after, Err::<EnvelopeDigest, Refusal>(refusal)),
        },
    decreases a.len(),
{
    if a.len() == 0 {
        assert(a + b =~= b);
    } else {
        assert((a + b)[0] == a[0]);
        assert((a + b).skip(1) =~= a.skip(1) + b);
        match verified(store.versions[head], head, a[0]) {
            Ok(status) => {
                match judged(store.versions[head], head, Letter { status, ..a[0] }) {
                    Ok((to, write)) => {
                        replaying_goes_on(committed(store, head, to, write), to, a.skip(1), b);
                    },
                    Err(_) => {},
                }
            },
            Err(_) => {},
        }
    }
}

/// An envelope replayed is verified, and then applied with the status that
/// gave it: its own claim about its signatures counts for nothing.
pub proof fn replaying_verifies_first(
    store: Store,
    head: EnvelopeDigest,
    letter: Letter,
    claimed: Status,
)
    ensures
        replayed(store, head, seq![letter]) == match verified(
            store.versions[head],
            head,
            letter,
        ) {
            Err(refusal) => (store, Err::<EnvelopeDigest, Refusal>(refusal)),
            Ok(status) => match judged(store.versions[head], head, Letter { status, ..letter }) {
                Err(refusal) => (store, Err(refusal)),
                Ok((to, write)) => (committed(store, head, to, write), Ok(to)),
            },
        },
        replayed(store, head, seq![Letter { status: claimed, ..letter }]) == replayed(
            store,
            head,
            seq![letter],
        ),
{
    let one = seq![letter];
    let other = seq![Letter { status: claimed, ..letter }];
    assert(one.skip(1) =~= Seq::<Letter>::empty());
    assert(other.skip(1) =~= Seq::<Letter>::empty());
    reveal_with_fuel(replayed, 2);
}

/// An envelope that opens a chain, that follows another than the head or
/// that has no digest is refused for just that, in this order, whatever it
/// says and however it is signed.
pub proof fn what_is_out_of_place_is_refused(version: Version, head: EnvelopeDigest, letter: Letter)
    ensures
        letter.payload is Init ==> judged(version, head, letter) == Err::<
            (EnvelopeDigest, Write),
            Refusal,
        >(Refusal::UnexpectedInit),
        letter.payload.prev() matches Some(prev) ==> prev != head ==> judged(version, head, letter)
            == Err::<(EnvelopeDigest, Write), Refusal>(
            Refusal::ChainMismatch { expected: head, found: prev },
        ),
        letter.payload.prev() == Some(head) && letter.digest is None ==> judged(
            version,
            head,
            letter,
        ) == Err::<(EnvelopeDigest, Write), Refusal>(Refusal::Wire),
        letter.payload.prev() is None <==> letter.payload is Init,
{
}

/// A threshold that cannot be read is named with its namespace, the one on
/// weight before the one on signers.
pub proof fn a_bad_threshold_is_named(version: Version, head: EnvelopeDigest, letter: Letter)
    requires
        letter.payload.prev() == Some(head),
        letter.digest is Some,
        !(letter.status is Failed),
    ensures
        !threshold_stands(version, MIN_ENVELOPE_WEIGHT_KEY@) ==> judged(version, head, letter)
            == Err::<(EnvelopeDigest, Write), Refusal>(
            Refusal::InvalidValue {
                key: MIN_ENVELOPE_WEIGHT_KEY@,
                fault: Fault::MinEnvelopeWeight,
            },
        ),
        !threshold_stands(version, MIN_ENVELOPE_SIGNATURES_KEY@) && !version.contains_key(
            MIN_ENVELOPE_WEIGHT_KEY@,
        ) ==> judged(version, head, letter) == Err::<(EnvelopeDigest, Write), Refusal>(
            Refusal::InvalidValue {
                key: MIN_ENVELOPE_SIGNATURES_KEY@,
                fault: Fault::MinEnvelopeSignatures,
            },
        ),
{
}

/// A checkpoint that breaks rules is refused for the first namespace by name
/// that breaks its own, and for how it does.
pub proof fn the_first_unlawful_is_named(version: Version, name: Seq<char>)
    requires
        version.contains_key(name),
        fault_of(name, version[name]) is Some,
        forall|other: Seq<char>|
            #[trigger] version.contains_key(other) && fault_of(other, version[other]) is Some
                ==> !text_lt(other, name),
    ensures
        opening_refusal(version) == Some(
            Refusal::InvalidValue { key: name, fault: fault_of(name, version[name])->0 },
        ),
{
    let bad = bad_namespace(version);
    assert(bad(name));
    assert forall|other: Seq<char>| #[trigger] bad(other) implies !text_lt(other, name) by {
        assert(version.contains_key(other));
    }
    assert(is_first(bad, name));
    first_is(bad, name);
}

/// A message that opens a chain follows nothing; every other follows the
/// envelope it names.
pub proof fn every_message_follows_what_it_names(deed: Deed)
    ensures
        deed.prev() == match deed {
            Deed::Init { .. } => None::<EnvelopeDigest>,
            Deed::SetNamespace { prev, .. } => Some(prev),
            Deed::SetNamespaceKey { prev, .. } => Some(prev),
            Deed::AmendNamespaceKey { prev, .. } => Some(prev),
            Deed::DeleteNamespace { prev, .. } => Some(prev),
        },
{
}

/// A write is legal on a state exactly where it is let through there: a
/// namespace can be put anywhere, and deleted where it is; a value can be
/// set where a path leads to something or names a fresh field, and cleared
/// where it leads to something.
pub proof fn what_is_legal_is_let_through(
    version: Version,
    key: Seq<char>,
    path: Seq<Step>,
    value: Option<Tree>,
    whole: Tree,
)
    requires
        0 < path.len() <= usize::MAX,
    ensures
        (Write::SetAt { key, path, value }).fits(version) <==> set_judged(
            version,
            key,
            path,
            value,
        ) is Ok,
        (Write::SetAt { key, path, value }).fits(version) <==> version.contains_key(key) && (walked(
            version[key],
            path,
        ) is Some || (value is Some && fresh(version[key], path))),
        (Write::Put { key, value: whole }).fits(version),
        (Write::Delete { key }).fits(version) <==> version.contains_key(key),
{
    what_can_be_set_is(version, key, path, value);
    if set_judged(version, key, path, value) is Ok {
        set_judged_fits(version, key, path, value);
    }
    if version.contains_key(key) {
        walked_last(version[key], path);
    }
}

/// A change in place is legal on a state exactly where it is let through
/// there; bounds that exclude each other are refused all the same.
pub proof fn what_can_legally_be_amended_is_let_through(
    version: Version,
    key: Seq<char>,
    path: Option<Seq<Step>>,
    op: Amendment,
)
    requires
        steps_of(path).len() <= usize::MAX,
        !(op is Increment && op->Increment_0.min is Some && op->Increment_0.max is Some
            && op->Increment_0.min->0 > op->Increment_0.max->0),
    ensures
        (Write::AmendAt { key, path: steps_of(path), op }).fits(version) <==> amend_judged(
            version,
            key,
            path,
            op,
        ) is Ok,
{
    what_can_be_amended_is(version, key, path, op);
    if amend_judged(version, key, path, op) is Ok {
        amend_judged_fits(version, key, path, op);
    }
}

} // verus!
