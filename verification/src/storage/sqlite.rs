//! The backend that keeps its versions and its log as rows.

use vstd::prelude::*;

use crate::digest::{same_bytes_same_digest, EnvelopeDigest};
use crate::envelope::{Envelope, Letter, VerificationStatus};
use crate::msg::{
    namespaces_view, namespaces_wf, path_view, steps_of, Namespace, NamespaceKey, Namespaces,
};
use crate::order::{Ordered, SortedMap};
use crate::storage::columns::{
    digest_from, key_from, says, status_columns, status_from, status_read,
};
use crate::storage::graph::{
    adding_nothing, amend_node, amend_size, child_of, insert_value, node_kind, outgrows, overlong,
    set_node, set_size, size, value_of, RowError,
};
use crate::storage::log::{datetime_holds, LogEntry, Logged, StoredAt};
use crate::storage::rows::{
    fewer_stay_acyclic, growing_keeps_trees, ranks_fall, reaching_goes_on, shared_means_the_same,
    Db, EnvelopeRow, Filed, Rows,
};
use crate::storage::value::resolved;
use crate::storage::{NamespaceOp, NodeKind, Resolution, Storage, Store, Version};
use crate::subkey::{steps, Step, Subkey};
use crate::tree::walked;
use crate::value::{Tree, Value};

verus! {

/// The schema this build speaks.
pub const SCHEMA_VERSION: i64 = 1;

/// What a database of ours is stamped with, so it can be told from any
/// other.
pub const APPLICATION_ID: i64 = 0x4c4f5453;

/// The most a journal file may keep after a checkpoint, in bytes.
pub const JOURNAL_SIZE_LIMIT: i64 = 33_554_432;

/// Why a database was not opened.
#[derive(Debug, Clone, Copy, PartialEq, Eq, Structural)]
pub enum OpenError {
    /// The file was created by a schema this build doesn't speak.
    SchemaVersion(i64),
    /// The file is a database, but not one of ours.
    ApplicationId(i64),
}

/// What opening a database takes.
#[derive(Debug, Clone, Copy, PartialEq, Eq, Structural)]
pub struct Setup {
    /// Whether it is to be stamped as ours.
    pub stamp: bool,
    /// Whether its vacuum mode is to be chosen, before anything is written.
    pub vacuum: bool,
    /// Whether its tables are to be created.
    pub create: bool,
}

/// What opening a database takes, by the schema version and the stamp it
/// has. One without a stamp is fresh, or from before there were stamps;
/// one that is not ours is refused before anything is written.
pub fn setup(version: i64, application_id: i64) -> (setup: Result<Setup, OpenError>)
    ensures
        setup == if version != 0 && version != SCHEMA_VERSION {
            Err::<Setup, OpenError>(OpenError::SchemaVersion(version))
        } else if application_id != 0 && application_id != APPLICATION_ID {
            Err(OpenError::ApplicationId(application_id))
        } else {
            Ok(
                Setup {
                    stamp: application_id == 0,
                    vacuum: application_id == 0 && version == 0,
                    create: version == 0,
                },
            )
        },
{
    if version != 0 && version != SCHEMA_VERSION {
        Err(OpenError::SchemaVersion(version))
    } else if application_id != 0 && application_id != APPLICATION_ID {
        Err(OpenError::ApplicationId(application_id))
    } else {
        let fresh: bool = version == 0;
        let stamp: bool = application_id == 0;
        Ok(Setup { stamp, vacuum: stamp && fresh, create: fresh })
    }
}

impl Filed {
    /// Whether the row can be read back.
    pub open spec fn readable(self) -> bool {
        &&& status_read(self.status, self.weight, self.bad_keys) is Ok
        &&& datetime_holds(self.stored_at as int)
    }

    /// Whether reading the row back ends in `entry`: in an entry just where
    /// it can be read, and otherwise in what is wrong with it, unless the
    /// rows fail.
    pub open spec fn told<E>(self, entry: Result<Option<LogEntry>, RowError<E>>) -> bool {
        match entry {
            Ok(_) => self.readable(),
            Err(RowError::Rows(_)) => true,
            Err(error) => match status_read(self.status, self.weight, self.bad_keys) {
                Err(why) => says(error, why),
                Ok(_) => !datetime_holds(self.stored_at as int) && error == RowError::<E>::Corrupt(
                    "stored-at is not a time",
                ),
            },
        }
    }

    /// What the log records by this row, where it can be read back; what it
    /// says of the verification is not known where it cannot.
    pub open spec fn logged(self) -> Logged {
        Logged {
            envelope: Letter {
                status: status_read(self.status, self.weight, self.bad_keys)->Ok_0,
                ..self.letter
            },
            stored_at: StoredAt { millis: self.stored_at },
        }
    }
}

impl Db {
    /// What each namespace of the version at `head` holds.
    pub open spec fn version(self, head: EnvelopeDigest) -> Version {
        Map::new(
            |k: Seq<char>| self.roots.contains_key((head, k)),
            |k: Seq<char>| self.tree(self.roots[(head, k)]),
        )
    }

    /// What the rows stand for.
    pub open spec fn store(self) -> Store {
        Store {
            versions: Map::new(
                |head: EnvelopeDigest| self.versions.contains(head),
                |head: EnvelopeDigest| self.version(head),
            ),
            log: Map::new(
                |digest: EnvelopeDigest| self.log.contains_key(digest),
                |digest: EnvelopeDigest| self.log[digest].logged(),
            ),
        }
    }
}

/// The same nodes and edges mean the same, whatever points at them.
proof fn nodes_alone_matter(a: Db, b: Db, id: i64)
    requires
        a.sound(),
        b.nodes == a.nodes,
        b.fields == a.fields,
        b.items == a.items,
        a.nodes.contains_key(id),
    ensures
        b.tree(id) == a.tree(id),
{
    assert(a.shares(b, a.nodes.dom()));
    fewer_stay_acyclic(a, b);
    shared_means_the_same(a, b, a.nodes.dom(), id);
}

/// Versions stay what they are, as nodes are added.
proof fn growing_keeps_versions(a: Db, b: Db)
    requires
        a.sound(),
        b.acyclic(),
        a.grows(b),
    ensures
        forall|head: EnvelopeDigest| #[trigger] b.version(head) == a.version(head),
{
    assert forall|head: EnvelopeDigest| #[trigger] b.version(head) == a.version(head) by {
        let left = a.version(head);
        let right = b.version(head);
        assert forall|k: Seq<char>|
            #![trigger left.dom().contains(k)]
            #![trigger right.dom().contains(k)]
            #![trigger left[k]]
            #![trigger right[k]]
            left.dom().contains(k) == right.dom().contains(k) && (left.dom().contains(k) ==> left[k]
                == right[k]) by {
            if a.roots.contains_key((head, k)) {
                growing_keeps_trees(a, b, a.roots[(head, k)]);
            }
        }
        assert(left =~= right);
    }
}

/// Pointing a namespace at a root puts that root's value there.
proof fn a_root_set(a: Db, b: Db, head: EnvelopeDigest, name: Seq<char>, root: i64)
    requires
        a.sound(),
        a.versions.contains(head),
        a.nodes.contains_key(root),
        b == (Db { roots: a.roots.insert((head, name), root), ..a }),
    ensures
        b.sound(),
        b.version(head) == a.version(head).insert(name, a.tree(root)),
        forall|other: EnvelopeDigest|
            other != head ==> #[trigger] b.version(other) == a.version(other),
{
    assert(b.sound()) by {
        same_nodes_sound(a, b);
    }
    roots_alone_changed(a, b);
    let have = b.version(head);
    let want = a.version(head).insert(name, a.tree(root));
    assert forall|k: Seq<char>|
        #![trigger have.dom().contains(k)]
        #![trigger want.dom().contains(k)]
        #![trigger have[k]]
        #![trigger want[k]]
        have.dom().contains(k) == want.dom().contains(k) && (have.dom().contains(k) ==> have[k]
            == want[k]) by {
        if k == name {
            nodes_alone_matter(a, b, root);
        } else if a.roots.contains_key((head, k)) {
            nodes_alone_matter(a, b, a.roots[(head, k)]);
        }
    }
    assert(have =~= want);
    assert forall|other: EnvelopeDigest| other != head implies #[trigger] b.version(other)
        == a.version(other) by {
        assert(b.version(other) =~= a.version(other)) by {
            assert forall|k: Seq<char>| #[trigger] a.roots.contains_key((other, k)) implies b.tree(
                a.roots[(other, k)],
            ) == a.tree(a.roots[(other, k)]) by {
                nodes_alone_matter(a, b, a.roots[(other, k)]);
            }
        }
    }
}

/// Nodes and edges that are sound stay so, whatever else changes, as long
/// as every root is one of them.
proof fn same_nodes_sound(a: Db, b: Db)
    requires
        a.sound(),
        b.nodes == a.nodes,
        b.fields == a.fields,
        b.items == a.items,
        forall|head: EnvelopeDigest, k: Seq<char>| #[trigger]
            b.roots.contains_key((head, k)) ==> b.versions.contains(head) && b.nodes.contains_key(
                b.roots[(head, k)],
            ),
    ensures
        b.sound(),
{
    fewer_stay_acyclic(a, b);
    ranks_fall(b);
    assert forall|id: i64| #[trigger] b.nodes.contains_key(id) implies b.node_sound(id) by {
        assert(a.node_sound(id));
        if a.nodes[id].code == 2 {
            let n = choose|n: nat| a.spans(id, n) && n <= i64::MAX;
            assert(b.spans(id, n));
        }
    }
}

/// Nothing but roots changed, so the nodes mean what they meant.
proof fn roots_alone_changed(a: Db, b: Db)
    requires
        a.sound(),
        b.nodes == a.nodes,
        b.fields == a.fields,
        b.items == a.items,
    ensures
        forall|id: i64| #[trigger] a.nodes.contains_key(id) ==> b.tree(id) == a.tree(id),
{
    assert forall|id: i64| #[trigger] a.nodes.contains_key(id) implies b.tree(id) == a.tree(id) by {
        nodes_alone_matter(a, b, id);
    }
}

/// A sweep takes nothing that a version holds, and leaves nothing that no
/// version does.
pub proof fn sweeping_keeps_versions(db: Db)
    requires
        db.sound(),
    ensures
        db.swept().sound(),
        forall|head: EnvelopeDigest| #[trigger] db.swept().version(head) == db.version(head),
        db.swept().versions == db.versions,
        db.swept().log == db.log,
        forall|id: i64| #[trigger] db.swept().nodes.contains_key(id) ==> db.reached(id),
{
    let after = db.swept();
    let live = db.live();
    fewer_stay_acyclic(db, after);
    ranks_fall(after);
    assert(db.shares(after, live)) by {
        assert forall|id: i64, k: Seq<char>|
            #![trigger db.fields.contains_key((id, k))]
            #![trigger after.fields.contains_key((id, k))]
            live.contains(id) implies {
            &&& db.fields.contains_key((id, k)) == after.fields.contains_key((id, k))
            &&& db.fields.contains_key((id, k)) ==> {
                &&& after.fields[(id, k)] == db.fields[(id, k)]
                &&& live.contains(db.fields[(id, k)])
            }
        } by {
            if db.fields.contains_key((id, k)) {
                assert(db.edge(id, db.fields[(id, k)]));
                reaching_goes_on(db, id, db.fields[(id, k)]);
            }
        }
        assert forall|id: i64, i: i64|
            #![trigger db.items.contains_key((id, i))]
            #![trigger after.items.contains_key((id, i))]
            live.contains(id) implies {
            &&& db.items.contains_key((id, i)) == after.items.contains_key((id, i))
            &&& db.items.contains_key((id, i)) ==> {
                &&& after.items[(id, i)] == db.items[(id, i)]
                &&& live.contains(db.items[(id, i)])
            }
        } by {
            if db.items.contains_key((id, i)) {
                assert(db.edge(id, db.items[(id, i)]));
                reaching_goes_on(db, id, db.items[(id, i)]);
            }
        }
    }
    assert forall|head: EnvelopeDigest, k: Seq<char>| #[trigger]
        db.roots.contains_key((head, k)) implies live.contains(db.roots[(head, k)]) by {
        assert(db.is_root(db.roots[(head, k)]));
        assert(db.reached_in(db.roots[(head, k)], 0));
    }
    assert forall|id: i64| #[trigger] after.nodes.contains_key(id) implies after.node_sound(id) by {
        assert(db.node_sound(id));
        if db.nodes[id].code == 2 {
            let n = choose|n: nat| db.spans(id, n) && n <= i64::MAX;
            assert(after.spans(id, n)) by {
                assert forall|i: i64| #[trigger] after.items.contains_key((id, i)) <==> 0 <= i
                    < n by {
                    assert(db.items.contains_key((id, i)) == after.items.contains_key((id, i)));
                }
            }
        }
    }
    assert forall|id: i64, k: Seq<char>| #[trigger] after.fields.contains_key((id, k)) implies {
        &&& after.nodes.contains_key(id)
        &&& after.nodes[id].code == crate::storage::rows::TABLE
        &&& after.nodes.contains_key(after.fields[(id, k)])
        &&& after.rank(after.fields[(id, k)]) < after.rank(id)
    } by {
        assert(db.fields.contains_key((id, k)));
        assert(live.contains(db.fields[(id, k)]));
    }
    assert forall|id: i64, i: i64| #[trigger] after.items.contains_key((id, i)) implies {
        &&& after.nodes.contains_key(id)
        &&& after.nodes[id].code == crate::storage::rows::ARRAY
        &&& after.nodes.contains_key(after.items[(id, i)])
        &&& after.rank(after.items[(id, i)]) < after.rank(id)
    } by {
        assert(db.items.contains_key((id, i)));
        assert(live.contains(db.items[(id, i)]));
    }
    assert forall|head: EnvelopeDigest| #[trigger] after.version(head) == db.version(head) by {
        assert(after.version(head) =~= db.version(head)) by {
            assert forall|k: Seq<char>| #[trigger] db.roots.contains_key((head, k)) implies after.tree(
                db.roots[(head, k)],
            ) == db.tree(db.roots[(head, k)]) by {
                shared_means_the_same(db, after, live, db.roots[(head, k)]);
            }
        }
    }
}

/// A [`Storage`] that keeps its versions and its log as rows.
#[derive(Debug, PartialEq, Eq)]
pub struct SqliteStorage<R> {
    pub rows: R,
}

impl<R: Rows> SqliteStorage<R> {
    /// Whether the rows hold together and no transaction is under way.
    pub open spec fn sound(&self) -> bool {
        &&& self.rows.wf()
        &&& !self.rows.open()
        &&& self.rows.db().sound()
    }

    /// The store that `rows` keep.
    pub fn new(rows: R) -> (storage: Self)
        requires
            rows.wf(),
            !rows.open(),
            rows.db().sound(),
        ensures
            storage.sound(),
            storage.rows == rows,
    {
        SqliteStorage { rows }
    }
}

/// The root of a namespace in a version that is there.
fn root_of<R: Rows>(rows: &R, head: EnvelopeDigest, key: &NamespaceKey) -> (root: Result<
    Option<i64>,
    RowError<R::Error>,
>)
    requires
        rows.wf(),
        rows.db().sound(),
    ensures
        root matches Err(e) ==> e is Rows,
        root matches Ok(root) ==> match root {
            Some(id) => {
                &&& rows.db().nodes.contains_key(id)
                &&& rows.db().roots.contains_key((head, key@))
                &&& rows.db().roots[(head, key@)] == id
                &&& rows.db().version(head).contains_key(key@)
                &&& rows.db().version(head)[key@] == rows.db().tree(id)
            },
            None => !rows.db().version(head).contains_key(key@),
        },
{
    match rows.root(&head, key) {
        Ok(root) => Ok(root),
        Err(e) => Err(RowError::Rows(e)),
    }
}

/// Whether `db` holds what `first` held, and at `head` the version
/// `version`.
spec fn derived(first: Db, db: Db, head: EnvelopeDigest, version: Version) -> bool {
    &&& db.sound()
    &&& db.log == first.log
    &&& db.versions == first.versions.insert(head)
    &&& db.version(head) == version
    &&& forall|other: EnvelopeDigest|
        other != head ==> #[trigger] db.version(other) == first.version(other)
}

/// A version registered, as yet without namespaces.
fn register<R: Rows>(rows: &mut R, head: EnvelopeDigest) -> (done: Result<(), RowError<R::Error>>)
    requires
        old(rows).wf(),
        old(rows).open(),
        old(rows).db().sound(),
    ensures
        done matches Err(e) ==> e is Rows,
        final(rows).wf(),
        final(rows).open(),
        final(rows).kept() == old(rows).kept(),
        done is Ok ==> derived(old(rows).db(), final(rows).db(), head, Map::empty()) && (forall|
            k: Seq<char>,
        | !#[trigger] final(rows).db().roots.contains_key((head, k))) && (forall|
            other: EnvelopeDigest,
            k: Seq<char>,
        |
            other != head ==> #[trigger] final(rows).db().roots.contains_key((other, k)) == old(
                rows,
            ).db().roots.contains_key((other, k)) && (old(rows).db().roots.contains_key((other, k))
                ==> final(rows).db().roots[(other, k)] == old(rows).db().roots[(other, k)]))
            && final(rows).db().nodes == old(rows).db().nodes && final(rows).db().fields == old(
            rows,
        ).db().fields && final(rows).db().items == old(rows).db().items,
{
    let ghost first = rows.db();
    match rows.replace_version(&head) {
        Ok(_) => {
            proof {
                let db = rows.db();
                same_nodes_sound(first, db);
                roots_alone_changed(first, db);
                assert(db.version(head) =~= Map::<Seq<char>, Tree>::empty());
                assert forall|other: EnvelopeDigest| other != head implies #[trigger] db.version(
                    other,
                ) == first.version(other) by {
                    assert(db.version(other) =~= first.version(other));
                }
            }
            Ok(())
        },
        Err(e) => Err(RowError::Rows(e)),
    }
}

/// The version at `head` made the same as the one at `parent`.
fn branch<R: Rows>(rows: &mut R, parent: EnvelopeDigest, head: EnvelopeDigest) -> (done: Result<
    (),
    RowError<R::Error>,
>)
    requires
        old(rows).wf(),
        old(rows).open(),
        old(rows).db().sound(),
        old(rows).db().versions.contains(parent),
    ensures
        done matches Err(e) ==> e is Rows,
        final(rows).wf(),
        final(rows).open(),
        final(rows).kept() == old(rows).kept(),
        done is Ok ==> derived(
            old(rows).db(),
            final(rows).db(),
            head,
            old(rows).db().version(parent),
        ) && final(rows).db().nodes == old(rows).db().nodes,
{
    let ghost first = rows.db();
    if head == parent {
        assert(first.versions =~= first.versions.insert(head));
        return Ok(());
    }
    match register(rows, head) {
        Ok(_) => {},
        Err(e) => {
            return Err(e);
        },
    }
    let ghost bare = rows.db();
    match rows.copy_roots(&head, &parent) {
        Ok(_) => {
            proof {
                let db = rows.db();
                assert forall|h: EnvelopeDigest, k: Seq<char>| #[trigger]
                    db.roots.contains_key((h, k)) implies db.versions.contains(h)
                    && db.nodes.contains_key(db.roots[(h, k)]) by {
                    if h == head {
                        assert(bare.roots.contains_key((parent, k)));
                    } else {
                        assert(bare.roots.contains_key((h, k)));
                    }
                }
                same_nodes_sound(bare, db);
                roots_alone_changed(bare, db);
                assert forall|k: Seq<char>| #[trigger] db.roots.contains_key((head, k))
                    == first.roots.contains_key((parent, k)) by {
                    assert(bare.roots.contains_key((parent, k)) == first.roots.contains_key(
                        (parent, k),
                    ));
                }
                roots_alone_changed(first, bare);
                assert(db.version(head) =~= first.version(parent)) by {
                    assert forall|k: Seq<char>| #[trigger] first.roots.contains_key(
                        (parent, k),
                    ) implies db.tree(db.roots[(head, k)]) == first.tree(first.roots[(parent, k)]) by {
                        assert(bare.roots.contains_key((parent, k)));
                        assert(first.nodes.contains_key(first.roots[(parent, k)]));
                    }
                }
                assert forall|other: EnvelopeDigest| other != head implies #[trigger] db.version(
                    other,
                ) == first.version(other) by {
                    assert(bare.version(other) == first.version(other));
                    assert(db.version(other) =~= bare.version(other)) by {
                        assert forall|k: Seq<char>| #[trigger] db.roots.contains_key((other, k))
                            == bare.roots.contains_key((other, k)) by {}
                        assert forall|k: Seq<char>| #[trigger] bare.roots.contains_key(
                            (other, k),
                        ) implies db.tree(db.roots[(other, k)]) == bare.tree(
                            bare.roots[(other, k)],
                        ) by {
                            assert(bare.nodes.contains_key(bare.roots[(other, k)]));
                        }
                    }
                }
            }
            Ok(())
        },
        Err(e) => Err(RowError::Rows(e)),
    }
}

/// Points a namespace of the version at `head` at a root newly grown.
fn plant<R: Rows>(
    rows: &mut R,
    head: EnvelopeDigest,
    key: &NamespaceKey,
    root: i64,
    first: Ghost<Db>,
    before: Ghost<Db>,
    version: Ghost<Version>,
) -> (done: Result<(), RowError<R::Error>>)
    requires
        old(rows).wf(),
        old(rows).open(),
        derived(first@, before@, head, version@),
        old(rows).db().sound(),
        before@.grows(old(rows).db()),
        old(rows).db().nodes.contains_key(root),
    ensures
        done matches Err(e) ==> e is Rows,
        final(rows).wf(),
        final(rows).open(),
        final(rows).kept() == old(rows).kept(),
        done is Ok ==> derived(
            first@,
            final(rows).db(),
            head,
            version@.insert(key@, old(rows).db().tree(root)),
        ) && final(rows).db().nodes == old(rows).db().nodes,
{
    let ghost grown = rows.db();
    proof {
        growing_keeps_versions(before@, grown);
        assert(grown.version(head) == before@.version(head));
        assert(before@.versions.contains(head));
    }
    match rows.set_root(&head, key, root) {
        Ok(_) => {
            proof {
                a_root_set(grown, rows.db(), head, key@, root);
                assert forall|other: EnvelopeDigest| other != head implies #[trigger] rows.db().version(
                    other,
                ) == first@.version(other) by {
                    assert(grown.version(other) == before@.version(other));
                }
            }
            Ok(())
        },
        Err(e) => Err(RowError::Rows(e)),
    }
}

/// Whether applying `op` to `version` writes an array too long for its
/// places to be numbered.
pub open spec fn overflows(op: NamespaceOp, version: Version) -> bool {
    match op {
        NamespaceOp::Put(_, namespace) => overlong(namespace.value),
        NamespaceOp::Delete(_) => false,
        NamespaceOp::SetAt { value, .. } => value is Some && overlong(value->0),
        NamespaceOp::AmendAt { key, path, op } => outgrows(
            version[key@],
            steps_of(path_view(path)),
            op,
        ),
    }
}

/// Whether one of `namespaces` holds such an array.
pub open spec fn holds_overlong(namespaces: Namespaces) -> bool {
    exists|i: int|
        0 <= i < namespaces.entries@.len() && overlong(
            (#[trigger] namespaces.entries@[i]).1.value,
        )
}

/// How many nodes applying `op` takes: those on the path it goes, and those
/// of the value it writes. Everything else is shared.
pub open spec fn commit_size(op: NamespaceOp) -> nat {
    match op {
        NamespaceOp::Put(_, namespace) => size(namespace.value),
        NamespaceOp::Delete(_) => 0,
        NamespaceOp::SetAt { path, value, .. } => path@.len() + set_size(value),
        NamespaceOp::AmendAt { path, op, .. } => steps_of(path_view(path)).len() + amend_size(op),
    }
}

/// Derives the version at `head` by applying `op` to the one at `parent`,
/// inside a transaction.
fn derive<R: Rows>(
    rows: &mut R,
    parent: EnvelopeDigest,
    head: EnvelopeDigest,
    op: NamespaceOp,
) -> (done: Result<(), RowError<R::Error>>)
    requires
        old(rows).wf(),
        old(rows).open(),
        old(rows).db().sound(),
        old(rows).db().versions.contains(parent),
        op.wf(),
        op@.fits(old(rows).db().version(parent)),
    ensures
        done matches Err(e) ==> e is Rows || !old(rows).db().whole() || (e.unnumbered() && overflows(
            op,
            old(rows).db().version(parent),
        )),
        final(rows).wf(),
        final(rows).open(),
        final(rows).kept() == old(rows).kept(),
        done is Ok ==> derived(
            old(rows).db(),
            final(rows).db(),
            head,
            op@.applied(old(rows).db().version(parent)),
        ) && old(rows).db().adds(final(rows).db(), commit_size(op)),
{
    let ghost first = rows.db();
    let ghost version = first.version(parent);
    match branch(rows, parent, head) {
        Ok(_) => {},
        Err(e) => {
            return Err(e);
        },
    }
    let ghost before = rows.db();
    proof {
        adding_nothing(first, before);
    }
    match op {
        NamespaceOp::Put(key, namespace) => match insert_value(rows, &namespace.value) {
            Ok(root) => plant(rows, head, &key, root, Ghost(first), Ghost(before), Ghost(version)),
            Err(e) => Err(e),
        },
        NamespaceOp::Delete(key) => match rows.remove_root(&head, &key) {
            Ok(_) => {
                proof {
                    let db = rows.db();
                    adding_nothing(first, db);
                    same_nodes_sound(before, db);
                    roots_alone_changed(before, db);
                    assert(db.version(head) =~= version.remove(key@)) by {
                        assert forall|k: Seq<char>| #[trigger] before.roots.contains_key(
                            (head, k),
                        ) implies db.tree(before.roots[(head, k)]) == before.tree(
                            before.roots[(head, k)],
                        ) by {
                            assert(before.nodes.contains_key(before.roots[(head, k)]));
                        }
                    }
                    assert forall|other: EnvelopeDigest| other != head implies #[trigger] db.version(
                        other,
                    ) == first.version(other) by {
                        assert(before.version(other) == first.version(other));
                        assert(db.version(other) =~= before.version(other)) by {
                            assert forall|k: Seq<char>| #[trigger] before.roots.contains_key(
                                (other, k),
                            ) implies db.tree(before.roots[(other, k)]) == before.tree(
                                before.roots[(other, k)],
                            ) by {
                                assert(before.nodes.contains_key(before.roots[(other, k)]));
                            }
                        }
                    }
                }
                Ok(())
            },
            Err(e) => Err(RowError::Rows(e)),
        },
        NamespaceOp::SetAt { key, path, value } => {
            let root: i64 = match root_of(rows, head, &key) {
                Ok(Some(root)) => root,
                Ok(None) => {
                    return Err(RowError::Corrupt("the namespace exists"));
                },
                Err(e) => {
                    return Err(e);
                },
            };
            assert(path@.skip(0) =~= path@);
            match set_node(rows, root, &path.segments, 0, &value) {
                Ok(root) => plant(
                    rows,
                    head,
                    &key,
                    root,
                    Ghost(first),
                    Ghost(before),
                    Ghost(version),
                ),
                Err(e) => Err(e),
            }
        },
        NamespaceOp::AmendAt { key, path, op } => {
            let root: i64 = match root_of(rows, head, &key) {
                Ok(Some(root)) => root,
                Ok(None) => {
                    return Err(RowError::Corrupt("the namespace exists"));
                },
                Err(e) => {
                    return Err(e);
                },
            };
            let amended = match &path {
                Some(path) => {
                    assert(path@.skip(0) =~= path@);
                    amend_node(rows, root, &path.segments, 0, &op)
                },
                None => {
                    let nowhere: Vec<Subkey> = Vec::new();
                    assert(steps(nowhere@).skip(0) =~= Seq::<Step>::empty());
                    amend_node(rows, root, &nowhere, 0, &op)
                },
            };
            match amended {
                Ok(root) => plant(
                    rows,
                    head,
                    &key,
                    root,
                    Ghost(first),
                    Ghost(before),
                    Ghost(version),
                ),
                Err(e) => Err(e),
            }
        },
    }
}

/// Makes `namespaces` the version at `head`, inside a transaction.
fn fill<R: Rows>(rows: &mut R, head: EnvelopeDigest, namespaces: &Namespaces) -> (done: Result<
    (),
    RowError<R::Error>,
>)
    requires
        old(rows).wf(),
        old(rows).open(),
        old(rows).db().sound(),
        namespaces_wf(*namespaces),
    ensures
        done matches Err(e) ==> e is Rows || (e.unnumbered() && holds_overlong(*namespaces)),
        final(rows).wf(),
        final(rows).open(),
        final(rows).kept() == old(rows).kept(),
        done is Ok ==> derived(
            old(rows).db(),
            final(rows).db(),
            head,
            namespaces_view(*namespaces),
        ),
{
    let ghost first = rows.db();
    match register(rows, head) {
        Ok(_) => {},
        Err(e) => {
            return Err(e);
        },
    }
    let n: usize = namespaces.entries.len();
    let mut i: usize = 0;
    let ghost mut version: Version = Map::empty();
    while i < n
        invariant
            i <= n == namespaces.entries@.len(),
            namespaces_wf(*namespaces),
            rows.wf(),
            rows.open(),
            rows.kept() == old(rows).kept(),
            derived(first, rows.db(), head, version),
            forall|j: int|
                0 <= j < i ==> version.contains_key((#[trigger] namespaces.entries@[j]).0@)
                    && version[namespaces.entries@[j].0@] == namespaces.entries@[j].1@,
            forall|k: Seq<char>| #[trigger]
                version.contains_key(k) ==> exists|j: int|
                    0 <= j < i && (#[trigger] namespaces.entries@[j]).0@ == k,
        decreases n - i,
    {
        let ghost before = rows.db();
        let ghost was = version;
        let entry = &namespaces.entries[i];
        assert(namespaces.entries@[i as int].1.wf());
        let root: i64 = match insert_value(rows, &entry.1.value) {
            Ok(root) => root,
            Err(e) => {
                return Err(e);
            },
        };
        match plant(rows, head, &entry.0, root, Ghost(first), Ghost(before), Ghost(version)) {
            Ok(_) => {},
            Err(e) => {
                return Err(e);
            },
        }
        proof {
            let name = namespaces.entries@[i as int].0@;
            version = version.insert(name, namespaces.entries@[i as int].1@);
            assert forall|j: int| 0 <= j < i + 1 implies version.contains_key(
                (#[trigger] namespaces.entries@[j]).0@,
            ) && version[namespaces.entries@[j].0@] == namespaces.entries@[j].1@ by {
                if j < i && namespaces.entries@[j].0@ == name {
                    namespaces.filed_once(j, name);
                    namespaces.filed_once(i as int, name);
                }
            }
            assert forall|k: Seq<char>| #[trigger] version.contains_key(k) implies exists|j: int|
                0 <= j < i + 1 && (#[trigger] namespaces.entries@[j]).0@ == k by {
                if k == name {
                    assert(namespaces.entries@[i as int].0@ == k);
                } else {
                    assert(was.contains_key(k));
                }
            }
        }
        i += 1;
    }
    proof {
        let want = namespaces_view(*namespaces);
        assert forall|k: Seq<char>|
            #![trigger version.dom().contains(k)]
            #![trigger want.dom().contains(k)]
            #![trigger version[k]]
            #![trigger want[k]]
            version.dom().contains(k) == want.dom().contains(k) && (version.dom().contains(k)
                ==> version[k] == want[k]) by {
            if version.contains_key(k) {
                let j = choose|j: int| 0 <= j < n && (#[trigger] namespaces.entries@[j]).0@ == k;
                namespaces.filed_once(j, k);
            }
            if namespaces@.contains_key(k) {
                namespaces.filed_somewhere(k);
                assert(version.contains_key(namespaces.entries@[namespaces.index_of(k)].0@));
            }
        }
        assert(version =~= want);
    }
    Ok(())
}

/// Drops every version not in `keep` and every node that none of the rest
/// holds, inside a transaction.
fn prune<R: Rows>(rows: &mut R, keep: &Vec<EnvelopeDigest>) -> (done: Result<
    (),
    RowError<R::Error>,
>)
    requires
        old(rows).wf(),
        old(rows).open(),
        old(rows).db().sound(),
    ensures
        done matches Err(e) ==> e is Rows,
        final(rows).wf(),
        final(rows).open(),
        final(rows).kept() == old(rows).kept(),
        done is Ok ==> {
            let db = final(rows).db();
            &&& db.sound()
            &&& db.log == old(rows).db().log
            &&& db.versions == old(rows).db().versions.intersect(keep@.to_set())
            &&& forall|head: EnvelopeDigest|
                keep@.contains(head) ==> #[trigger] db.version(head) == old(rows).db().version(head)
            &&& forall|id: i64| #[trigger] db.nodes.contains_key(id) ==> db.reached(id)
        },
{
    let ghost first = rows.db();
    match rows.keep_versions(keep) {
        Ok(_) => {},
        Err(e) => {
            return Err(RowError::Rows(e));
        },
    }
    let ghost kept = rows.db();
    proof {
        same_nodes_sound(first, kept);
        roots_alone_changed(first, kept);
        assert forall|head: EnvelopeDigest| keep@.contains(head) implies #[trigger] kept.version(
            head,
        ) == first.version(head) by {
            assert(keep@.to_set().contains(head));
            assert(kept.version(head) =~= first.version(head)) by {
                assert forall|k: Seq<char>| #[trigger] first.roots.contains_key(
                    (head, k),
                ) implies kept.tree(first.roots[(head, k)]) == first.tree(first.roots[(head, k)]) by {
                    assert(first.nodes.contains_key(first.roots[(head, k)]));
                }
            }
        }
        sweeping_keeps_versions(kept);
    }
    match rows.sweep() {
        Ok(_) => {
            proof {
                swept_is_reached(kept);
                assert forall|head: EnvelopeDigest| keep@.contains(head) implies #[trigger] rows.db().version(
                    head,
                ) == first.version(head) by {
                    assert(kept.swept().version(head) == kept.version(head));
                }
            }
            Ok(())
        },
        Err(e) => Err(RowError::Rows(e)),
    }
}

/// What a sweep leaves is reached over what it leaves.
proof fn swept_is_reached(db: Db)
    requires
        db.sound(),
    ensures
        forall|id: i64| #[trigger] db.swept().nodes.contains_key(id) ==> db.swept().reached(id),
{
    assert forall|id: i64| #[trigger] db.swept().nodes.contains_key(id) implies db.swept().reached(
        id,
    ) by {
        let n = choose|n: nat| db.reached_in(id, n);
        swept_is_reached_in(db, id, n);
    }
}

proof fn swept_is_reached_in(db: Db, id: i64, n: nat)
    requires
        db.sound(),
        db.nodes.contains_key(id),
        db.reached_in(id, n),
    ensures
        db.swept().reached_in(id, n),
    decreases n,
{
    let after = db.swept();
    if db.is_root(id) {
        let (head, k) = choose|head: EnvelopeDigest, k: Seq<char>| #[trigger]
            db.roots.contains_key((head, k)) && db.roots[(head, k)] == id;
        assert(after.roots.contains_key((head, k)));
    } else {
        let parent = choose|parent: i64| #[trigger]
            db.edge(parent, id) && db.reached_in(parent, (n - 1) as nat);
        assert(db.nodes.contains_key(parent));
        swept_is_reached_in(db, parent, (n - 1) as nat);
        assert(db.reached(parent));
        assert(db.live().contains(parent));
        assert(after.edge(parent, id)) by {
            if exists|k: Seq<char>| #[trigger]
                db.fields.contains_key((parent, k)) && db.fields[(parent, k)] == id {
                let k = choose|k: Seq<char>| #[trigger]
                    db.fields.contains_key((parent, k)) && db.fields[(parent, k)] == id;
                assert(after.fields.contains_key((parent, k)));
            } else {
                let i = choose|i: i64| #[trigger]
                    db.items.contains_key((parent, i)) && db.items[(parent, i)] == id;
                assert(after.items.contains_key((parent, i)));
            }
        }
    }
}

/// The versions that rows stand for, once one is derived.
proof fn derived_is_inserted(first: Db, db: Db, head: EnvelopeDigest, version: Version)
    requires
        derived(first, db, head, version),
    ensures
        db.store().versions == first.store().versions.insert(head, version),
        db.store().log == first.store().log,
{
    let have = db.store().versions;
    let want = first.store().versions.insert(head, version);
    assert forall|h: EnvelopeDigest|
        #![trigger have.dom().contains(h)]
        #![trigger want.dom().contains(h)]
        #![trigger have[h]]
        #![trigger want[h]]
        have.dom().contains(h) == want.dom().contains(h) && (have.dom().contains(h) ==> have[h]
            == want[h]) by {
        if h != head {
            assert(db.version(h) == first.version(h));
        }
    }
    assert(have =~= want);
    assert(db.store().log =~= first.store().log);
}

impl<R: Rows> Storage for SqliteStorage<R> {
    type Error = RowError<R::Error>;

    open spec fn fails() -> bool {
        true
    }

    open spec fn store(&self) -> Store {
        self.rows.db().store()
    }

    open spec fn wf(&self) -> bool {
        self.sound()
    }

    fn contains_version(&self, head: EnvelopeDigest) -> (held: Result<bool, Self::Error>)
        ensures
            held matches Err(e) ==> e is Rows,
    {
        match self.rows.has_version(&head) {
            Ok(held) => Ok(held),
            Err(e) => Err(RowError::Rows(e)),
        }
    }

    fn resolve(&self, head: EnvelopeDigest, key: &NamespaceKey, path: &Vec<Subkey>) -> (resolution:
        Result<Option<Resolution>, Self::Error>)
        ensures
            resolution matches Err(e) ==> e is Rows || !self.rows.db().whole(),
    {
        let rows = &self.rows;
        let root: i64 = match root_of(rows, head, key) {
            Ok(Some(root)) => root,
            Ok(None) => {
                return Ok(None);
            },
            Err(e) => {
                return Err(e);
            },
        };
        let ghost db = rows.db();
        let mut current: i64 = root;
        let mut depth: usize = 0;
        assert(steps(path@).skip(0) =~= steps(path@));
        while depth < path.len()
            invariant
                depth <= path@.len(),
                rows.wf(),
                db == rows.db(),
                db.sound(),
                db.nodes.contains_key(current),
                db == self.rows.db(),
                db.versions.contains(head),
                db.version(head).contains_key(key@),
                resolved(db.version(head)[key@], steps(path@), 0) == resolved(
                    db.tree(current),
                    steps(path@).skip(depth as int),
                    depth as int,
                ),
            decreases path@.len() - depth,
        {
            let ghost rest = steps(path@).skip(depth as int);
            proof {
                assert(rest[0] == path@[depth as int]@);
                assert(rest.skip(1) =~= steps(path@).skip(depth + 1));
            }
            let kind = match node_kind(rows, current) {
                Ok(kind) => kind,
                Err(e) => {
                    return Err(e);
                },
            };
            let fits: bool = match (kind, &path[depth]) {
                (NodeKind::Table, Subkey::Key(_)) => true,
                (NodeKind::Array, Subkey::Index(_)) => true,
                _ => false,
            };
            if !fits {
                return Ok(Some(Resolution::Mismatch { depth }));
            }
            match child_of(rows, current, &path[depth]) {
                Ok(Some(below)) => {
                    current = below;
                },
                Ok(None) => {
                    return Ok(Some(Resolution::Missing { depth, at: kind }));
                },
                Err(e) => {
                    return Err(e);
                },
            }
            depth += 1;
        }
        match node_kind(rows, current) {
            Ok(kind) => Ok(Some(Resolution::Node(kind))),
            Err(e) => Err(e),
        }
    }

    fn value_at(&self, head: EnvelopeDigest, key: &NamespaceKey, path: &Vec<Subkey>) -> (found:
        Result<Option<Value>, Self::Error>)
        ensures
            found matches Err(e) ==> e is Rows || !self.rows.db().whole(),
    {
        let rows = &self.rows;
        let root: i64 = match root_of(rows, head, key) {
            Ok(Some(root)) => root,
            Ok(None) => {
                return Ok(None);
            },
            Err(e) => {
                return Err(e);
            },
        };
        let ghost db = rows.db();
        let mut current: i64 = root;
        let mut depth: usize = 0;
        assert(steps(path@).skip(0) =~= steps(path@));
        while depth < path.len()
            invariant
                depth <= path@.len(),
                rows.wf(),
                db == rows.db(),
                db.sound(),
                db.nodes.contains_key(current),
                db == self.rows.db(),
                db.versions.contains(head),
                db.version(head).contains_key(key@),
                walked(db.version(head)[key@], steps(path@)) == walked(
                    db.tree(current),
                    steps(path@).skip(depth as int),
                ),
            decreases path@.len() - depth,
        {
            let ghost rest = steps(path@).skip(depth as int);
            proof {
                assert(rest[0] == path@[depth as int]@);
                assert(rest.skip(1) =~= steps(path@).skip(depth + 1));
            }
            match child_of(rows, current, &path[depth]) {
                Ok(Some(below)) => {
                    current = below;
                },
                Ok(None) => {
                    return Ok(None);
                },
                Err(e) => {
                    return Err(e);
                },
            }
            depth += 1;
        }
        match value_of(rows, current) {
            Ok(value) => Ok(Some(value)),
            Err(e) => Err(e),
        }
    }

    fn namespace(&self, head: EnvelopeDigest, key: &NamespaceKey) -> (namespace: Result<
        Option<Namespace>,
        Self::Error,
    >)
        ensures
            namespace matches Err(e) ==> e is Rows || !self.rows.db().whole(),
    {
        match root_of(&self.rows, head, key) {
            Ok(Some(root)) => match value_of(&self.rows, root) {
                Ok(value) => Ok(Some(Namespace { value })),
                Err(e) => Err(e),
            },
            Ok(None) => Ok(None),
            Err(e) => Err(e),
        }
    }

    fn namespaces(&self, head: EnvelopeDigest) -> (namespaces: Result<Namespaces, Self::Error>)
        ensures
            namespaces matches Err(e) ==> e is Rows || !self.rows.db().whole()
                || self.store().versions[head].contains_key(Seq::<char>::empty()),
    {
        let rows = &self.rows;
        let ghost db = rows.db();
        let roots = match rows.roots(&head) {
            Ok(roots) => roots,
            Err(e) => {
                return Err(RowError::Rows(e));
            },
        };
        let n: usize = roots.len();
        let mut entries: Vec<(NamespaceKey, Namespace)> = Vec::new();
        let mut i: usize = 0;
        while i < n
            invariant
                i <= n == roots@.len(),
                rows.wf(),
                rows == &self.rows,
                db == rows.db(),
                db.sound(),
                self.store().versions.contains_key(head),
                forall|j: int|
                    0 <= j < n ==> db.roots.contains_key((head, (#[trigger] roots@[j]).0@))
                        && db.roots[(head, roots@[j].0@)] == roots@[j].1,
                entries@.len() == i,
                forall|j: int|
                    0 <= j < i ==> (#[trigger] entries@[j]).0@ == roots@[j].0@
                        && entries@[j].1.wf() && entries@[j].1@ == db.tree(roots@[j].1),
            decreases n - i,
        {
            assert(db.roots.contains_key((head, roots@[i as int].0@)));
            let key = match key_from(roots[i].0.clone()) {
                Ok(key) => key,
                Err(e) => {
                    assert(roots@[i as int].0@ =~= Seq::<char>::empty());
                    assert(db.version(head).contains_key(Seq::<char>::empty()));
                    return Err(e);
                },
            };
            match value_of(rows, roots[i].1) {
                Ok(value) => {
                    entries.push((key, Namespace { value }));
                },
                Err(e) => {
                    return Err(e);
                },
            }
            i += 1;
        }
        let namespaces: Namespaces = SortedMap { entries };
        proof {
            assert(namespaces.wf()) by {
                assert forall|a: int, b: int| 0 <= a < b < n implies <NamespaceKey as Ordered>::lt(
                    (#[trigger] namespaces.entries@[a]).0@,
                    (#[trigger] namespaces.entries@[b]).0@,
                ) by {
                    assert(entries@[a].0@ == roots@[a].0@);
                    assert(entries@[b].0@ == roots@[b].0@);
                }
            }
            let have = namespaces_view(namespaces);
            let want = db.version(head);
            assert forall|k: Seq<char>|
                #![trigger have.dom().contains(k)]
                #![trigger want.dom().contains(k)]
                #![trigger have[k]]
                #![trigger want[k]]
                have.dom().contains(k) == want.dom().contains(k) && (have.dom().contains(k)
                    ==> have[k] == want[k]) by {
                if namespaces@.contains_key(k) {
                    namespaces.filed_somewhere(k);
                    let j = namespaces.index_of(k);
                    assert(entries@[j].0@ == roots@[j].0@);
                }
                if db.roots.contains_key((head, k)) {
                    let j = choose|j: int| 0 <= j < n && (#[trigger] roots@[j]).0@ == k;
                    assert(entries@[j].0@ == k);
                    assert(namespaces.filed(j, k));
                    namespaces.filed_once(j, k);
                }
            }
            assert(have =~= want);
        }
        Ok(namespaces)
    }

    fn commit(&mut self, parent: EnvelopeDigest, head: EnvelopeDigest, op: NamespaceOp) -> (done:
        Result<(), Self::Error>)
        ensures
            done matches Err(e) ==> e is Rows || !old(self).rows.db().whole() || (e.unnumbered() && overflows(
                op,
                old(self).store().versions[parent],
            )),
            done is Ok ==> old(self).rows.db().adds(final(self).rows.db(), commit_size(op)),
    {
        let ghost first = self.rows.db();
        match self.rows.begin() {
            Ok(_) => {},
            Err(e) => {
                return Err(RowError::Rows(e));
            },
        }
        match derive(&mut self.rows, parent, head, op) {
            Ok(_) => {
                let ghost derived_db = self.rows.db();
                proof {
                    derived_is_inserted(
                        first,
                        derived_db,
                        head,
                        op@.applied(first.version(parent)),
                    );
                }
                match self.rows.commit() {
                    Ok(_) => Ok(()),
                    Err(e) => Err(RowError::Rows(e)),
                }
            },
            Err(e) => {
                self.rows.rollback();
                Err(e)
            },
        }
    }

    fn install(&mut self, head: EnvelopeDigest, namespaces: Namespaces) -> (done: Result<
        (),
        Self::Error,
    >)
        ensures
            done matches Err(e) ==> e is Rows || (e.unnumbered() && holds_overlong(namespaces)),
            done is Err ==> final(self).store() == old(self).store(),
    {
        let ghost first = self.rows.db();
        match self.rows.begin() {
            Ok(_) => {},
            Err(e) => {
                return Err(RowError::Rows(e));
            },
        }
        match fill(&mut self.rows, head, &namespaces) {
            Ok(_) => {
                proof {
                    derived_is_inserted(
                        first,
                        self.rows.db(),
                        head,
                        namespaces_view(namespaces),
                    );
                }
                match self.rows.commit() {
                    Ok(_) => Ok(()),
                    Err(e) => Err(RowError::Rows(e)),
                }
            },
            Err(e) => {
                self.rows.rollback();
                Err(e)
            },
        }
    }

    fn retain(&mut self, keep: &Vec<EnvelopeDigest>) -> (done: Result<(), Self::Error>)
        ensures
            done matches Err(e) ==> e is Rows,
            done is Err ==> final(self).store() == old(self).store() || final(self).store() == (Store {
                versions: old(self).store().versions.restrict(keep@.to_set()),
                log: old(self).store().log,
            }),
            done is Ok ==> forall|id: i64| #[trigger]
                final(self).rows.db().nodes.contains_key(id) ==> final(self).rows.db().reached(id),
    {
        let ghost first = self.rows.db();
        match self.rows.begin() {
            Ok(_) => {},
            Err(e) => {
                return Err(RowError::Rows(e));
            },
        }
        match prune(&mut self.rows, keep) {
            Ok(_) => {
                proof {
                    let db = self.rows.db();
                    let have = db.store().versions;
                    let want = first.store().versions.restrict(keep@.to_set());
                    assert forall|h: EnvelopeDigest|
                        #![trigger have.dom().contains(h)]
                        #![trigger want.dom().contains(h)]
                        #![trigger have[h]]
                        #![trigger want[h]]
                        have.dom().contains(h) == want.dom().contains(h) && (have.dom().contains(h)
                            ==> have[h] == want[h]) by {
                        if have.dom().contains(h) {
                            assert(keep@.contains(h));
                            assert(db.version(h) == first.version(h));
                        }
                    }
                    assert(have =~= want);
                    assert(db.store().log =~= first.store().log);
                }
                match self.rows.commit() {
                    Ok(_) => {},
                    Err(e) => {
                        return Err(RowError::Rows(e));
                    },
                }
            },
            Err(e) => {
                self.rows.rollback();
                return Err(e);
            },
        }
        match self.rows.release() {
            Ok(_) => Ok(()),
            Err(e) => Err(RowError::Rows(e)),
        }
    }

    fn put_envelope(&mut self, digest: EnvelopeDigest, envelope: Envelope) -> (done: Result<
        (),
        Self::Error,
    >)
        ensures
            done matches Err(e) ==> e is Rows,
            done is Err ==> final(self).store() == old(self).store(),
    {
        let ghost first = self.rows.db();
        let ghost letter = envelope@;
        let columns = status_columns(&envelope.status);
        let mut bare = envelope;
        bare.set_verification_status(VerificationStatus::Unchecked);
        let row = EnvelopeRow {
            envelope: bare,
            status: columns.status,
            weight: columns.weight,
            bad_keys: columns.bad_keys,
            stored_at: StoredAt::now().timestamp_millis(),
        };
        let ghost filed = row@;
        let done = self.rows.put_envelope(&digest, row);
        proof {
            let db = self.rows.db();
            if done is Ok {
                assert(filed.readable());
                assert(filed.logged().envelope == letter);
                same_nodes_sound(first, db);
                same_versions(first, db);
                assert(db.store().log.remove(digest) =~= first.store().log.remove(digest));
            } else {
                assert(db == first);
            }
        }
        match done {
            Ok(_) => Ok(()),
            Err(e) => Err(RowError::Rows(e)),
        }
    }

    fn logged_envelope(&self, digest: EnvelopeDigest) -> (entry: Result<
        Option<LogEntry>,
        Self::Error,
    >)
        ensures
            entry matches Err(e) ==> e is Rows || self.rows.db().log.contains_key(digest),
            self.rows.db().log.contains_key(digest) ==> self.rows.db().log[digest].told(entry),
    {
        match self.rows.envelope(&digest) {
            Ok(Some(row)) => {
                let status = match status_from(row.status, row.weight, row.bad_keys) {
                    Ok(status) => status,
                    Err(e) => {
                        return Err(e);
                    },
                };
                let mut envelope = row.envelope;
                envelope.set_verification_status(status);
                match StoredAt::from_timestamp_millis(row.stored_at) {
                    Some(stored_at) => Ok(Some(LogEntry { envelope, stored_at })),
                    None => Err(RowError::Corrupt("stored-at is not a time")),
                }
            },
            Ok(None) => Ok(None),
            Err(e) => Err(RowError::Rows(e)),
        }
    }

    fn parent(&self, digest: EnvelopeDigest) -> (parent: Result<
        Option<EnvelopeDigest>,
        Self::Error,
    >)
        ensures
            parent matches Err(e) ==> e is Rows,
    {
        match self.rows.prev(&digest) {
            Ok(Some(blob)) => match digest_from(&blob) {
                Ok(parent) => {
                    proof {
                        let row = self.rows.db().log[digest];
                        same_bytes_same_digest(parent, row.letter.payload.prev()->0);
                    }
                    Ok(Some(parent))
                },
                Err(e) => Err(e),
            },
            Ok(None) => Ok(None),
            Err(e) => Err(RowError::Rows(e)),
        }
    }

    fn remove_envelope(&mut self, digest: EnvelopeDigest) -> (done: Result<(), Self::Error>)
        ensures
            done matches Err(e) ==> e is Rows,
            done is Err ==> final(self).store() == old(self).store(),
    {
        let ghost first = self.rows.db();
        let done = self.rows.remove_envelope(&digest);
        proof {
            let db = self.rows.db();
            same_nodes_sound(first, db);
            same_versions(first, db);
            if done is Ok {
                assert(db.store().log =~= first.store().log.remove(digest));
            }
        }
        match done {
            Ok(_) => Ok(()),
            Err(e) => Err(RowError::Rows(e)),
        }
    }

    fn children(&self, parent: EnvelopeDigest) -> (children: Result<
        Vec<EnvelopeDigest>,
        Self::Error,
    >)
        ensures
            children matches Err(e) ==> e is Rows,
    {
        let rows = &self.rows;
        let ghost db = rows.db();
        let blobs = match rows.followers(&parent) {
            Ok(blobs) => blobs,
            Err(e) => {
                return Err(RowError::Rows(e));
            },
        };
        let n: usize = blobs.len();
        proof {
            assert forall|j: int| 0 <= j < n implies (#[trigger] blobs@[j])@.len() == 32 by {
                assert(db.lists_follower(blobs@[j]@, parent.bytes@));
            }
        }
        let mut children: Vec<EnvelopeDigest> = Vec::new();
        let mut i: usize = 0;
        while i < n
            invariant
                i <= n == blobs@.len(),
                forall|j: int| 0 <= j < n ==> (#[trigger] blobs@[j])@.len() == 32,
                children@.len() == i,
                forall|j: int| 0 <= j < i ==> (#[trigger] children@[j]).bytes@ == blobs@[j]@,
            decreases n - i,
        {
            match digest_from(&blobs[i]) {
                Ok(digest) => {
                    children.push(digest);
                },
                Err(e) => {
                    return Err(e);
                },
            }
            i += 1;
        }
        proof {
            assert forall|a: int, b: int| 0 <= a < b < n implies <EnvelopeDigest as Ordered>::lt(
                #[trigger] children@[a],
                #[trigger] children@[b],
            ) by {
                assert(children@[a].bytes@ == blobs@[a]@);
                assert(children@[b].bytes@ == blobs@[b]@);
            }
            assert forall|digest: EnvelopeDigest| #[trigger] children@.contains(digest)
                <==> self.store().follows(digest, parent) by {
                if children@.contains(digest) {
                    let j = choose|j: int| 0 <= j < n && children@[j] == digest;
                    assert(db.lists_follower(blobs@[j]@, parent.bytes@));
                    let d = choose|d: EnvelopeDigest|
                        blobs@[j]@ == d.bytes@ && #[trigger] db.follows(d, parent.bytes@);
                    same_bytes_same_digest(digest, d);
                    same_bytes_same_digest(db.log[d].letter.payload.prev()->0, parent);
                }
                if self.store().follows(digest, parent) {
                    assert(db.log.contains_key(digest));
                    assert(db.follows(digest, parent.bytes@));
                    assert(crate::storage::rows::listed(blobs@, digest.bytes@));
                    let j = choose|j: int|
                        0 <= j < n && (#[trigger] blobs@[j])@ == digest.bytes@;
                    same_bytes_same_digest(children@[j], digest);
                }
            }
        }
        Ok(children)
    }
}

/// Versions are what they are, whatever the log holds.
proof fn same_versions(a: Db, b: Db)
    requires
        a.sound(),
        b == (Db { log: b.log, ..a }),
    ensures
        b.store().versions == a.store().versions,
{
    roots_alone_changed(a, b);
    assert forall|head: EnvelopeDigest| #[trigger] b.version(head) == a.version(head) by {
        assert(b.version(head) =~= a.version(head)) by {
            assert forall|k: Seq<char>| #[trigger] a.roots.contains_key((head, k)) implies b.tree(
                a.roots[(head, k)],
            ) == a.tree(a.roots[(head, k)]) by {
                assert(a.nodes.contains_key(a.roots[(head, k)]));
            }
        }
    }
    assert(b.store().versions =~= a.store().versions);
}

} // verus!
