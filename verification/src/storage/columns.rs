//! What stands in the columns of a row, and how it is read back.

use vstd::prelude::*;

use crate::digest::{EnvelopeDigest, KeyId};
use crate::envelope::{Status, VerificationStatus};
use crate::msg::NamespaceKey;
use crate::order::{Ordered, SortedSet};
use crate::storage::graph::RowError;

verus! {

/// The number an unchecked status is marked with.
pub const UNCHECKED: i64 = 0;

/// The number a failed status is marked with.
pub const FAILED: i64 = 1;

/// The number a status that all signatures matched for is marked with.
pub const ALL_MATCHED: i64 = 2;

/// The columns a verification status stands in.
#[derive(Debug, PartialEq, Eq)]
pub struct StatusColumns {
    pub status: i64,
    pub weight: Option<i64>,
    pub bad_keys: Option<Vec<u8>>,
}

/// Ids one after another.
pub open spec fn ids_blob(ids: Seq<KeyId>) -> Seq<u8>
    decreases ids.len(),
{
    if ids.len() == 0 {
        Seq::empty()
    } else {
        ids_blob(ids.drop_last()) + ids.last().bytes@
    }
}

/// Whether `id` is the one at `i` of the ids in `blob`.
pub open spec fn id_at(blob: Seq<u8>, i: int, id: KeyId) -> bool {
    0 <= i < blob.len() as int / 32 && id.bytes@ == blob.subrange(32 * i, 32 * i + 32)
}

/// The ids in `blob`, each of 32 bytes.
pub open spec fn ids_in(blob: Seq<u8>) -> Set<KeyId> {
    Set::new(|id: KeyId| exists|i: int| id_at(blob, i, id))
}

/// The status that columns stand for, or what is wrong with them.
pub open spec fn status_read(code: i64, weight: Option<i64>, bad_keys: Option<Seq<u8>>) -> Result<
    Status,
    Seq<char>,
> {
    if code == UNCHECKED {
        Ok(Status::Unchecked)
    } else if code == FAILED {
        match bad_keys {
            None => Err("failed status without its keys"@),
            Some(blob) => if blob.len() % 32 == 0 {
                Ok(Status::Failed(ids_in(blob)))
            } else {
                Err("failing key ids are not whole ids"@)
            },
        }
    } else if code == ALL_MATCHED {
        match weight {
            None => Err("all-matched status without a weight"@),
            Some(weight) => if 0 <= weight <= u32::MAX {
                Ok(Status::AllMatched(weight as u32))
            } else {
                Err("verification weight out of range"@)
            },
        }
    } else {
        Err("unknown verification status"@)
    }
}

/// Whether a failure says that the rows are corrupt, in these words.
pub open spec fn says<E>(e: RowError<E>, why: Seq<char>) -> bool {
    e matches RowError::Corrupt(said) && said@ == why
}

/// The 32 bytes of `blob` from `from` on.
fn chunk(blob: &Vec<u8>, from: usize) -> (bytes: [u8; 32])
    requires
        from + 32 <= blob@.len(),
    ensures
        bytes@ == blob@.subrange(from as int, from + 32),
{
    let n: usize = blob.len();
    let mut bytes: [u8; 32] = [0u8; 32];
    let mut i: usize = 0;
    while i < 32
        invariant
            i <= 32,
            from + 32 <= n == blob@.len(),
            forall|j: int| 0 <= j < i ==> #[trigger] bytes@[j] == blob@[from + j],
        decreases 32 - i,
    {
        bytes[i] = blob[from + i];
        i += 1;
    }
    assert(bytes@ =~= blob@.subrange(from as int, from + 32));
    bytes
}

/// Ids with the same bytes are the same.
proof fn same_bytes_same_id(a: KeyId, b: KeyId)
    requires
        a.bytes@ == b.bytes@,
    ensures
        a == b,
{
    KeyId::lt_total(a, b);
    KeyId::lt_irreflexive(a);
}

/// Reads ids that stand one after another.
pub fn key_ids_from<E>(blob: &Vec<u8>) -> (ids: Result<SortedSet<KeyId>, RowError<E>>)
    ensures
        match ids {
            Ok(ids) => ids.wf() && blob@.len() % 32 == 0 && ids@ == ids_in(blob@),
            Err(e) => blob@.len() % 32 != 0 && says(e, "failing key ids are not whole ids"@),
        },
{
    let n: usize = blob.len();
    if n % 32 != 0 {
        return Err(RowError::Corrupt("failing key ids are not whole ids"));
    }
    let mut ids: SortedSet<KeyId> = SortedSet::new();
    let mut i: usize = 0;
    while i < n / 32
        invariant
            i <= n / 32,
            n == blob@.len(),
            n % 32 == 0,
            ids.wf(),
            forall|id: KeyId| #[trigger]
                ids@.contains(id) <==> exists|j: int| 0 <= j < i && id_at(blob@, j, id),
        decreases n / 32 - i,
    {
        let ghost before = ids@;
        let bytes = chunk(blob, 32 * i);
        let id = KeyId::from_bytes(bytes);
        ids.insert(id);
        proof {
            assert(id_at(blob@, i as int, id));
            assert forall|k: KeyId| #[trigger] ids@.contains(k) <==> exists|j: int|
                0 <= j < i + 1 && id_at(blob@, j, k) by {
                if k == id {
                    assert(id_at(blob@, i as int, k));
                }
                if before.contains(k) {
                    let j = choose|j: int| 0 <= j < i && id_at(blob@, j, k);
                    assert(id_at(blob@, j, k));
                }
                if exists|j: int| 0 <= j < i + 1 && id_at(blob@, j, k) {
                    let j = choose|j: int| 0 <= j < i + 1 && id_at(blob@, j, k);
                    if j == i {
                        same_bytes_same_id(k, id);
                    } else {
                        assert(before.contains(k));
                    }
                }
            }
        }
        i += 1;
    }
    proof {
        assert forall|id: KeyId| #[trigger] ids@.contains(id) <==> ids_in(blob@).contains(id) by {
            if ids_in(blob@).contains(id) {
                let j = choose|j: int| id_at(blob@, j, id);
                assert(0 <= j < i && id_at(blob@, j, id));
            }
        }
        assert(ids@ =~= ids_in(blob@));
    }
    Ok(ids)
}

/// The columns a verification status is stored in.
pub fn status_columns(status: &VerificationStatus) -> (columns: StatusColumns)
    requires
        status.wf(),
    ensures
        match status@ {
            Status::Unchecked => columns == (StatusColumns {
                status: UNCHECKED,
                weight: None,
                bad_keys: None,
            }),
            Status::Failed(_) => {
                &&& columns.status == FAILED
                &&& columns.weight is None
                &&& columns.bad_keys is Some
                &&& status matches VerificationStatus::Failed { failing_key_ids }
                    && columns.bad_keys->0@ == ids_blob(failing_key_ids.keys())
            },
            Status::AllMatched(weight) => columns == (StatusColumns {
                status: ALL_MATCHED,
                weight: Some(weight as i64),
                bad_keys: None,
            }),
        },
        status_read(
            columns.status,
            columns.weight,
            crate::storage::rows::blob_view(columns.bad_keys),
        ) == Ok::<Status, Seq<char>>(status@),
{
    match status {
        VerificationStatus::Unchecked => StatusColumns {
            status: UNCHECKED,
            weight: None,
            bad_keys: None,
        },
        VerificationStatus::Failed { failing_key_ids } => {
            let ids = &failing_key_ids.map.entries;
            let ghost keys = failing_key_ids.keys();
            let mut blob: Vec<u8> = Vec::new();
            let mut i: usize = 0;
            assert(keys.take(0).len() == 0);
            while i < ids.len()
                invariant
                    i <= ids@.len(),
                    keys == failing_key_ids.keys(),
                    ids@ == failing_key_ids.map.entries@,
                    blob@ == ids_blob(keys.take(i as int)),
                decreases ids@.len() - i,
            {
                let ghost so_far = blob@;
                let bytes = ids[i].0.bytes;
                let mut k: usize = 0;
                while k < 32
                    invariant
                        k <= 32,
                        blob@ == so_far + bytes@.take(k as int),
                    decreases 32 - k,
                {
                    blob.push(bytes[k]);
                    k += 1;
                    assert(blob@ =~= so_far + bytes@.take(k as int));
                }
                i += 1;
                proof {
                    let now = keys.take(i as int);
                    assert(now.drop_last() =~= keys.take(i - 1));
                    assert(now.last() == ids@[i - 1].0);
                    assert(bytes@.take(32) =~= bytes@);
                }
            }
            proof {
                assert(keys.take(i as int) =~= keys);
                blob_holds_its_ids(keys);
                assert(ids_in(blob@) =~= failing_key_ids@) by {
                    assert forall|id: KeyId| ids_in(blob@).contains(id)
                        == failing_key_ids@.contains(id) by {
                        if failing_key_ids@.contains(id) {
                            failing_key_ids.map.filed_somewhere(id);
                            assert(keys[failing_key_ids.map.index_of(id)] == id);
                            assert(keys.contains(id));
                        }
                        if keys.contains(id) {
                            let j = choose|j: int| 0 <= j < keys.len() && keys[j] == id;
                            assert(failing_key_ids.map.filed(j, id));
                            failing_key_ids.map.filed_once(j, id);
                        }
                    }
                }
            }
            StatusColumns { status: FAILED, weight: None, bad_keys: Some(blob) }
        },
        VerificationStatus::AllMatched { total_weight } => StatusColumns {
            status: ALL_MATCHED,
            weight: Some(*total_weight as i64),
            bad_keys: None,
        },
    }
}

/// Ids one after another are read back as the same ids.
pub proof fn blob_holds_its_ids(ids: Seq<KeyId>)
    ensures
        ids_blob(ids).len() == 32 * ids.len(),
        forall|i: int|
            0 <= i < ids.len() ==> ids_blob(ids).subrange(32 * i, 32 * i + 32) == (
            #[trigger] ids[i]).bytes@,
        forall|id: KeyId| #[trigger] ids_in(ids_blob(ids)).contains(id) <==> ids.contains(id),
    decreases ids.len(),
{
    let blob = ids_blob(ids);
    if ids.len() > 0 {
        let front = ids.drop_last();
        blob_holds_its_ids(front);
        let before = ids_blob(front);
        assert forall|i: int| 0 <= i < ids.len() implies blob.subrange(32 * i, 32 * i + 32) == (
        #[trigger] ids[i]).bytes@ by {
            if i < front.len() {
                assert(before.subrange(32 * i, 32 * i + 32) == front[i].bytes@);
                assert(blob.subrange(32 * i, 32 * i + 32) =~= before.subrange(32 * i, 32 * i + 32));
            } else {
                assert(blob.subrange(32 * i, 32 * i + 32) =~= ids[i].bytes@);
            }
        }
    }
    assert forall|id: KeyId| #[trigger] ids_in(blob).contains(id) <==> ids.contains(id) by {
        if ids_in(blob).contains(id) {
            let i = choose|i: int| id_at(blob, i, id);
            assert(0 <= i < ids.len());
            assert(ids[i].bytes@ == id.bytes@);
            same_bytes_same_id(ids[i], id);
        }
        if ids.contains(id) {
            let i = choose|i: int| 0 <= i < ids.len() && ids[i] == id;
            assert(id_at(blob, i, id));
        }
    }
}

/// Reads a verification status back from its columns.
pub fn status_from<E>(code: i64, weight: Option<i64>, bad_keys: Option<Vec<u8>>) -> (status: Result<
    VerificationStatus,
    RowError<E>,
>)
    ensures
        match (
            status,
            status_read(code, weight, crate::storage::rows::blob_view(bad_keys)),
        ) {
            (Ok(status), Ok(read)) => status.wf() && status@ == read,
            (Err(e), Err(why)) => says(e, why),
            _ => false,
        },
{
    if code == UNCHECKED {
        Ok(VerificationStatus::Unchecked)
    } else if code == FAILED {
        match bad_keys {
            Some(blob) => match key_ids_from(&blob) {
                Ok(failing_key_ids) => Ok(VerificationStatus::Failed { failing_key_ids }),
                Err(e) => Err(e),
            },
            None => Err(RowError::Corrupt("failed status without its keys")),
        }
    } else if code == ALL_MATCHED {
        match weight {
            Some(weight) => if 0 <= weight && weight <= u32::MAX as i64 {
                Ok(VerificationStatus::AllMatched { total_weight: weight as u32 })
            } else {
                Err(RowError::Corrupt("verification weight out of range"))
            },
            None => Err(RowError::Corrupt("all-matched status without a weight")),
        }
    } else {
        Err(RowError::Corrupt("unknown verification status"))
    }
}

/// Reads a digest back from its bytes.
pub fn digest_from<E>(blob: &Vec<u8>) -> (digest: Result<EnvelopeDigest, RowError<E>>)
    ensures
        match digest {
            Ok(digest) => digest.bytes@ == blob@,
            Err(e) => blob@.len() != 32 && says(e, "stored digest is not 32 bytes"@),
        },
{
    if blob.len() != 32 {
        return Err(RowError::Corrupt("stored digest is not 32 bytes"));
    }
    let bytes = chunk(blob, 0);
    assert(blob@.subrange(0, 32) =~= blob@);
    Ok(EnvelopeDigest::from_bytes(bytes))
}

/// Reads a namespace's name back.
pub fn key_from<E>(key: String) -> (named: Result<NamespaceKey, RowError<E>>)
    ensures
        match named {
            Ok(named) => key@.len() > 0 && named@ == key@,
            Err(e) => key@.len() == 0 && says(e, "stored namespace key is empty"@),
        },
{
    match NamespaceKey::try_new(key.as_str()) {
        Ok(named) => Ok(named),
        Err(_) => Err(RowError::Corrupt("stored namespace key is empty")),
    }
}

} // verus!
