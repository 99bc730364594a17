//! Versions kept as rows.
//!
//! Versioned state lives in three layers, each a pointer into the next: the
//! versions there are; for each, a pointer from every namespace to the root
//! node of its value; and the nodes. A leaf's row carries its value; tables
//! and arrays carry nothing, their entries being edges to other nodes.
//!
//! A node that is added refers only to nodes that are there already, so no
//! node comes to hold itself. A node is never owned by a version and never updated in place: every
//! write only inserts, and ownership is exactly to be reachable from a
//! surviving root. A commit copies the nodes on a path and shares the rest.

use vstd::prelude::*;

use crate::digest::EnvelopeDigest;
use crate::envelope::{Envelope, Letter};
use crate::msg::NamespaceKey;
use crate::storage::value::kind_of;
use crate::storage::NodeKind;
use crate::value::{Tree, Value};

verus! {

/// The number a leaf's row is marked with.
pub const LEAF: i64 = 0;

/// The number a table's row is marked with.
pub const TABLE: i64 = 1;

/// The number an array's row is marked with.
pub const ARRAY: i64 = 2;

/// A node's row.
#[derive(Debug, PartialEq, Eq)]
pub struct NodeRow {
    /// Which kind of node it is.
    pub code: i64,
    /// What a leaf holds.
    pub leaf: Option<Value>,
}

/// What a node's row holds.
pub struct Node {
    pub code: i64,
    pub leaf: Option<Tree>,
}

/// An envelope's row in the log. The envelope itself carries no
/// verification status; that stands beside it.
#[derive(Debug, PartialEq, Eq)]
pub struct EnvelopeRow {
    pub envelope: Envelope,
    pub status: i64,
    pub weight: Option<i64>,
    /// The ids of the keys whose signatures did not verify, one after
    /// another, for a failed status and nothing else.
    pub bad_keys: Option<Vec<u8>>,
    /// Milliseconds since the unix epoch, off this node's clock.
    pub stored_at: i64,
}

/// What an envelope's row holds.
pub struct Filed {
    pub letter: Letter,
    pub status: i64,
    pub weight: Option<i64>,
    pub bad_keys: Option<Seq<u8>>,
    pub stored_at: i64,
}

/// Bytes, where there are some.
pub open spec fn blob_view(blob: Option<Vec<u8>>) -> Option<Seq<u8>> {
    match blob {
        Some(bytes) => Some(bytes@),
        None => None,
    }
}

/// What an envelope follows, as bytes.
pub open spec fn prev_blob(prev: Option<EnvelopeDigest>) -> Option<Seq<u8>> {
    match prev {
        Some(digest) => Some(digest.bytes@),
        None => None,
    }
}

impl View for EnvelopeRow {
    type V = Filed;

    open spec fn view(&self) -> Filed {
        Filed {
            letter: self.envelope@,
            status: self.status,
            weight: self.weight,
            bad_keys: blob_view(self.bad_keys),
            stored_at: self.stored_at,
        }
    }
}

/// What stands for a leaf that cannot be read.
pub open spec fn unread() -> Tree {
    Tree::Text(Seq::empty())
}

/// What the rows hold.
pub struct Db {
    pub nodes: Map<i64, Node>,
    /// The child under each name of each table.
    pub fields: Map<(i64, Seq<char>), i64>,
    /// The child at each place of each array.
    pub items: Map<(i64, i64), i64>,
    pub versions: Set<EnvelopeDigest>,
    /// The root of each namespace of each version.
    pub roots: Map<(EnvelopeDigest, Seq<char>), i64>,
    pub log: Map<EnvelopeDigest, Filed>,
}

impl Db {
    /// Whether the places of the array `id` are the first `n`.
    pub open spec fn spans(self, id: i64, n: nat) -> bool {
        forall|i: i64| #[trigger] self.items.contains_key((id, i)) <==> 0 <= i < n
    }

    /// How many items the array `id` has.
    pub open spec fn len(self, id: i64) -> nat {
        choose|n: nat| self.spans(id, n)
    }

    /// Whether `rank` falls along every edge, and is below `bound` at every
    /// node.
    pub open spec fn ranked_by(self, rank: spec_fn(i64) -> nat, bound: nat) -> bool {
        &&& forall|id: i64| #[trigger] self.nodes.contains_key(id) ==> rank(id) < bound
        &&& forall|id: i64, k: Seq<char>| #[trigger]
            self.fields.contains_key((id, k)) ==> rank(self.fields[(id, k)]) < rank(id)
        &&& forall|id: i64, i: i64| #[trigger]
            self.items.contains_key((id, i)) ==> rank(self.items[(id, i)]) < rank(id)
    }

    /// Whether no node holds itself, however far down one looks.
    pub open spec fn acyclic(self) -> bool {
        exists|rank: spec_fn(i64) -> nat, bound: nat| #[trigger] self.ranked_by(rank, bound)
    }

    /// A rank that falls along every edge, where there is one, and what it
    /// is below.
    pub open spec fn ranking(self) -> (spec_fn(i64) -> nat, nat) {
        choose|rank: spec_fn(i64) -> nat, bound: nat| #[trigger] self.ranked_by(rank, bound)
    }

    /// The rank of the node `id`.
    pub open spec fn rank(self, id: i64) -> nat {
        (self.ranking().0)(id)
    }

    /// The value that the node `id` is the root of.
    pub open spec fn tree(self, id: i64) -> Tree
        decreases self.rank(id),
    {
        if self.nodes[id].code == TABLE {
            Tree::Table(
                Map::new(
                    |k: Seq<char>| self.fields.contains_key((id, k)),
                    |k: Seq<char>|
                        if self.rank(self.fields[(id, k)]) < self.rank(id) {
                            self.tree(self.fields[(id, k)])
                        } else {
                            arbitrary()
                        },
                ),
            )
        } else if self.nodes[id].code == ARRAY {
            Tree::Array(
                Seq::new(
                    self.len(id),
                    |i: int|
                        if self.rank(self.items[(id, i as i64)]) < self.rank(id) {
                            self.tree(self.items[(id, i as i64)])
                        } else {
                            arbitrary()
                        },
                ),
            )
        } else if self.legible(id) {
            self.nodes[id].leaf->0
        } else {
            unread()
        }
    }

    /// Whether the row of the node `id` can be read: it is of a known kind,
    /// and a leaf's carries a value that is one.
    pub open spec fn legible(self, id: i64) -> bool {
        match self.nodes[id].code {
            0 => self.nodes[id].leaf is Some && kind_of(self.nodes[id].leaf->0) == NodeKind::Leaf,
            1 => true,
            2 => true,
            _ => false,
        }
    }

    /// Whether the row of every node can be read.
    pub open spec fn whole(self) -> bool {
        forall|id: i64| #[trigger] self.nodes.contains_key(id) ==> self.legible(id)
    }

    /// Whether the places of an array run from the first on.
    pub open spec fn node_sound(self, id: i64) -> bool {
        self.nodes[id].code == ARRAY ==> exists|n: nat| self.spans(id, n) && n <= i64::MAX
    }

    /// Whether the rows hold together: every edge runs from a node of its
    /// kind to another, the places of every array run from the first on, no
    /// node holds itself, and every root is a node of a version there is.
    /// What a row carries may still not be legible.
    pub open spec fn sound(self) -> bool {
        &&& self.acyclic()
        &&& forall|id: i64| #[trigger] self.nodes.contains_key(id) ==> self.node_sound(id)
        &&& forall|id: i64, k: Seq<char>| #[trigger]
            self.fields.contains_key((id, k)) ==> {
                &&& self.nodes.contains_key(id)
                &&& self.nodes[id].code == TABLE
                &&& self.nodes.contains_key(self.fields[(id, k)])
                &&& self.rank(self.fields[(id, k)]) < self.rank(id)
            }
        &&& forall|id: i64, i: i64| #[trigger]
            self.items.contains_key((id, i)) ==> {
                &&& self.nodes.contains_key(id)
                &&& self.nodes[id].code == ARRAY
                &&& self.nodes.contains_key(self.items[(id, i)])
                &&& self.rank(self.items[(id, i)]) < self.rank(id)
            }
        &&& forall|head: EnvelopeDigest, k: Seq<char>| #[trigger]
            self.roots.contains_key((head, k)) ==> {
                &&& self.versions.contains(head)
                &&& self.nodes.contains_key(self.roots[(head, k)])
            }
    }

    /// Whether `other` has the nodes in `some` with all that is below them,
    /// just as this has.
    pub open spec fn shares(self, other: Db, some: Set<i64>) -> bool {
        &&& forall|id: i64| #[trigger]
            some.contains(id) ==> self.nodes.contains_key(id) && other.nodes.contains_key(id)
                && other.nodes[id] == self.nodes[id]
        &&& forall|id: i64, k: Seq<char>|
            #![trigger self.fields.contains_key((id, k))]
            #![trigger other.fields.contains_key((id, k))]
            some.contains(id) ==> {
                &&& self.fields.contains_key((id, k)) == other.fields.contains_key((id, k))
                &&& self.fields.contains_key((id, k)) ==> {
                    &&& other.fields[(id, k)] == self.fields[(id, k)]
                    &&& some.contains(self.fields[(id, k)])
                }
            }
        &&& forall|id: i64, i: i64|
            #![trigger self.items.contains_key((id, i))]
            #![trigger other.items.contains_key((id, i))]
            some.contains(id) ==> {
                &&& self.items.contains_key((id, i)) == other.items.contains_key((id, i))
                &&& self.items.contains_key((id, i)) ==> {
                    &&& other.items[(id, i)] == self.items[(id, i)]
                    &&& some.contains(self.items[(id, i)])
                }
            }
    }

    /// Whether the row filed under `digest` names `parent` as what it
    /// follows.
    pub open spec fn follows(self, digest: EnvelopeDigest, parent: Seq<u8>) -> bool {
        self.log.contains_key(digest) && prev_blob(self.log[digest].letter.payload.prev()) == Some(
            parent,
        )
    }

    /// Whether `blob` is the digest of a row that follows `parent`.
    pub open spec fn lists_follower(self, blob: Seq<u8>, parent: Seq<u8>) -> bool {
        exists|digest: EnvelopeDigest| blob == digest.bytes@ && #[trigger]
            self.follows(digest, parent)
    }

    /// Whether `after` has every node this has, and the same versions and
    /// log: nothing but nodes was added.
    pub open spec fn grows(self, after: Db) -> bool {
        &&& self.shares(after, self.nodes.dom())
        &&& after.versions == self.versions
        &&& after.roots == self.roots
        &&& after.log == self.log
    }
}

impl Db {
    /// Whether `nodes` are the nodes, each with its kind.
    pub open spec fn lists_nodes(self, nodes: Seq<(i64, i64)>) -> bool {
        &&& forall|i: int|
            0 <= i < nodes.len() ==> self.nodes.contains_key((#[trigger] nodes[i]).0)
                && self.nodes[nodes[i].0].code == nodes[i].1
        &&& forall|id: i64| #[trigger]
            self.nodes.contains_key(id) ==> exists|i: int|
                0 <= i < nodes.len() && (#[trigger] nodes[i]).0 == id
    }

    /// Whether `edges` are the edges of tables.
    pub open spec fn lists_fields(self, edges: Seq<(i64, String, i64)>) -> bool {
        &&& forall|i: int|
            0 <= i < edges.len() ==> self.fields.contains_key(
                ((#[trigger] edges[i]).0, edges[i].1@),
            ) && self.fields[(edges[i].0, edges[i].1@)] == edges[i].2
        &&& forall|p: i64, k: Seq<char>| #[trigger]
            self.fields.contains_key((p, k)) ==> exists|i: int|
                0 <= i < edges.len() && (#[trigger] edges[i]).0 == p && edges[i].1@ == k
    }

    /// Whether `edges` are the edges of arrays.
    pub open spec fn lists_items(self, edges: Seq<(i64, i64, i64)>) -> bool {
        &&& forall|i: int|
            0 <= i < edges.len() ==> self.items.contains_key(
                ((#[trigger] edges[i]).0, edges[i].1),
            ) && self.items[(edges[i].0, edges[i].1)] == edges[i].2
        &&& forall|p: i64, k: i64| #[trigger]
            self.items.contains_key((p, k)) ==> exists|i: int|
                0 <= i < edges.len() && (#[trigger] edges[i]).0 == p && edges[i].1 == k
    }

    /// Whether `roots` are the roots of versions.
    pub open spec fn lists_roots(self, roots: Seq<(EnvelopeDigest, String, i64)>) -> bool {
        &&& forall|i: int|
            0 <= i < roots.len() ==> self.roots.contains_key(
                ((#[trigger] roots[i]).0, roots[i].1@),
            ) && self.roots[(roots[i].0, roots[i].1@)] == roots[i].2
        &&& forall|h: EnvelopeDigest, k: Seq<char>| #[trigger]
            self.roots.contains_key((h, k)) ==> exists|i: int|
                0 <= i < roots.len() && (#[trigger] roots[i]).0 == h && roots[i].1@ == k
    }
}

/// Whether edges come in the order of where from, and then of places.
pub open spec fn in_places(edges: Seq<(i64, i64, i64)>) -> bool {
    forall|a: int, b: int|
        0 <= a < b < edges.len() ==> (#[trigger] edges[a]).0 < (#[trigger] edges[b]).0 || (
        edges[a].0 == edges[b].0 && edges[a].1 < edges[b].1)
}

/// What a root reaches, it reaches all the way down.
pub proof fn reaching_goes_on(db: Db, parent: i64, id: i64)
    requires
        db.reached(parent),
        db.edge(parent, id),
    ensures
        db.reached(id),
{
    let n = choose|n: nat| db.reached_in(parent, n);
    assert(db.reached_in(id, n + 1)) by {
        assert(db.edge(parent, id) && db.reached_in(parent, ((n + 1) - 1) as nat));
    }
}

/// An array has one length.
pub proof fn one_length(db: Db, id: i64, n: nat)
    requires
        db.spans(id, n),
        n <= i64::MAX,
    ensures
        db.len(id) == n,
        db.spans(id, db.len(id)),
{
    let m = db.len(id);
    assert(db.spans(id, m));
    if m < n {
        assert(!db.items.contains_key((id, m as i64)));
        assert(db.items.contains_key((id, m as i64)));
    }
    if n < m {
        assert(!db.items.contains_key((id, n as i64)));
        assert(db.items.contains_key((id, n as i64)));
    }
}

/// Where no node holds itself, the rank falls along every edge.
pub proof fn ranks_fall(db: Db)
    requires
        db.acyclic(),
    ensures
        db.ranked_by(db.ranking().0, db.ranking().1),
        forall|id: i64, k: Seq<char>| #[trigger]
            db.fields.contains_key((id, k)) ==> db.rank(db.fields[(id, k)]) < db.rank(id),
        forall|id: i64, i: i64| #[trigger]
            db.items.contains_key((id, i)) ==> db.rank(db.items[(id, i)]) < db.rank(id),
{
}

/// With no edge and no node more, no node comes to hold itself.
pub proof fn fewer_stay_acyclic(a: Db, b: Db)
    requires
        a.acyclic(),
        forall|id: i64| #[trigger] b.nodes.contains_key(id) ==> a.nodes.contains_key(id),
        forall|id: i64, k: Seq<char>| #[trigger]
            b.fields.contains_key((id, k)) ==> a.fields.contains_key((id, k)) && a.fields[(id, k)]
                == b.fields[(id, k)],
        forall|id: i64, i: i64| #[trigger]
            b.items.contains_key((id, i)) ==> a.items.contains_key((id, i)) && a.items[(id, i)]
                == b.items[(id, i)],
    ensures
        b.acyclic(),
{
    let (rank, bound) = a.ranking();
    assert(a.ranked_by(rank, bound));
    assert(b.ranked_by(rank, bound));
}

/// What two stores share means the same in both.
pub proof fn shared_means_the_same(a: Db, b: Db, some: Set<i64>, id: i64)
    requires
        a.sound(),
        b.acyclic(),
        a.shares(b, some),
        some.contains(id),
    ensures
        b.tree(id) == a.tree(id),
    decreases a.rank(id),
{
    ranks_fall(b);
    assert(a.nodes.contains_key(id));
    assert(a.node_sound(id));
    if a.nodes[id].code == TABLE {
        let left = a.tree(id)->Table_0;
        let right = b.tree(id)->Table_0;
        assert forall|k: Seq<char>|
            #![trigger left.dom().contains(k)]
            #![trigger right.dom().contains(k)]
            #![trigger left[k]]
            #![trigger right[k]]
            left.dom().contains(k) == right.dom().contains(k) && (left.dom().contains(k) ==> left[k]
                == right[k]) by {
            assert(a.fields.contains_key((id, k)) == b.fields.contains_key((id, k)));
            if a.fields.contains_key((id, k)) {
                shared_means_the_same(a, b, some, a.fields[(id, k)]);
            }
        }
        assert(left =~= right);
    } else if a.nodes[id].code == ARRAY {
        let n = choose|n: nat| a.spans(id, n) && n <= i64::MAX;
        assert(b.spans(id, n)) by {
            assert forall|i: i64| #[trigger] b.items.contains_key((id, i)) <==> 0 <= i < n by {
                assert(a.items.contains_key((id, i)) == b.items.contains_key((id, i)));
            }
        }
        one_length(a, id, n);
        one_length(b, id, n);
        let left = a.tree(id)->Array_0;
        let right = b.tree(id)->Array_0;
        assert forall|i: int| 0 <= i < n implies #[trigger] left[i] == right[i] by {
            assert(a.items.contains_key((id, i as i64)));
            shared_means_the_same(a, b, some, a.items[(id, i as i64)]);
        }
        assert(left =~= right);
    }
}

/// What is there stays what it is, as more is added.
pub proof fn growing_keeps_trees(a: Db, b: Db, id: i64)
    requires
        a.sound(),
        b.acyclic(),
        a.grows(b),
        a.nodes.contains_key(id),
    ensures
        b.nodes.contains_key(id),
        b.tree(id) == a.tree(id),
{
    shared_means_the_same(a, b, a.nodes.dom(), id);
}

/// To grow twice is to grow.
pub proof fn growing_twice(a: Db, b: Db, c: Db)
    requires
        a.sound(),
        a.grows(b),
        b.grows(c),
    ensures
        a.grows(c),
{
    let some = a.nodes.dom();
    assert forall|id: i64| #[trigger] some.contains(id) implies a.nodes.contains_key(id)
        && c.nodes.contains_key(id) && c.nodes[id] == a.nodes[id] by {
        assert(b.nodes.dom().contains(id));
    }
    assert forall|id: i64, k: Seq<char>|
        #![trigger a.fields.contains_key((id, k))]
        #![trigger c.fields.contains_key((id, k))]
        some.contains(id) implies {
        &&& a.fields.contains_key((id, k)) == c.fields.contains_key((id, k))
        &&& a.fields.contains_key((id, k)) ==> {
            &&& c.fields[(id, k)] == a.fields[(id, k)]
            &&& some.contains(a.fields[(id, k)])
        }
    } by {
        assert(b.nodes.dom().contains(id));
        assert(a.fields.contains_key((id, k)) == b.fields.contains_key((id, k)));
        assert(b.fields.contains_key((id, k)) == c.fields.contains_key((id, k)));
    }
    assert forall|id: i64, i: i64|
        #![trigger a.items.contains_key((id, i))]
        #![trigger c.items.contains_key((id, i))]
        some.contains(id) implies {
        &&& a.items.contains_key((id, i)) == c.items.contains_key((id, i))
        &&& a.items.contains_key((id, i)) ==> {
            &&& c.items[(id, i)] == a.items[(id, i)]
            &&& some.contains(a.items[(id, i)])
        }
    } by {
        assert(b.nodes.dom().contains(id));
        assert(a.items.contains_key((id, i)) == b.items.contains_key((id, i)));
        assert(b.items.contains_key((id, i)) == c.items.contains_key((id, i)));
    }
}

/// A store grows by nothing.
pub proof fn growing_by_nothing(a: Db)
    requires
        a.sound(),
    ensures
        a.grows(a),
{
}

/// Whether one of `blobs` holds `bytes`.
pub open spec fn listed(blobs: Seq<Vec<u8>>, bytes: Seq<u8>) -> bool {
    exists|i: int| 0 <= i < blobs.len() && (#[trigger] blobs[i])@ == bytes
}

/// The edges of tables once `to` has those of `from`, but for the one under
/// `except`.
pub open spec fn fields_copied(
    fields: Map<(i64, Seq<char>), i64>,
    to: i64,
    from: i64,
    except: Seq<char>,
) -> Map<(i64, Seq<char>), i64> {
    Map::new(
        |e: (i64, Seq<char>)|
            if e.0 == to {
                e.1 != except && fields.contains_key((from, e.1))
            } else {
                fields.contains_key(e)
            },
        |e: (i64, Seq<char>)|
            if e.0 == to {
                fields[(from, e.1)]
            } else {
                fields[e]
            },
    )
}

/// The edges of arrays once `to` has those of `from`, but for the one at
/// `except`.
pub open spec fn items_copied(
    items: Map<(i64, i64), i64>,
    to: i64,
    from: i64,
    except: i64,
) -> Map<(i64, i64), i64> {
    Map::new(
        |e: (i64, i64)|
            if e.0 == to {
                e.1 != except && items.contains_key((from, e.1))
            } else {
                items.contains_key(e)
            },
        |e: (i64, i64)|
            if e.0 == to {
                items[(from, e.1)]
            } else {
                items[e]
            },
    )
}

/// Where the item that ends up at `i` was, before the one at `gap` was
/// taken out.
pub open spec fn before_gap(i: i64, gap: i64) -> i64 {
    if i < gap {
        i
    } else {
        (i + 1) as i64
    }
}

/// The edges of arrays once `to` has those of `from`, but for the one at
/// `gap`, later ones moved down.
pub open spec fn items_closed(
    items: Map<(i64, i64), i64>,
    to: i64,
    from: i64,
    gap: i64,
) -> Map<(i64, i64), i64> {
    Map::new(
        |e: (i64, i64)|
            if e.0 == to {
                e.1 < i64::MAX && items.contains_key((from, before_gap(e.1, gap)))
            } else {
                items.contains_key(e)
            },
        |e: (i64, i64)|
            if e.0 == to {
                items[(from, before_gap(e.1, gap))]
            } else {
                items[e]
            },
    )
}

/// The roots of all versions once `to` has those of `from`, and no other.
pub open spec fn roots_copied(
    roots: Map<(EnvelopeDigest, Seq<char>), i64>,
    to: EnvelopeDigest,
    from: EnvelopeDigest,
) -> Map<(EnvelopeDigest, Seq<char>), i64> {
    Map::new(
        |e: (EnvelopeDigest, Seq<char>)|
            if e.0 == to {
                roots.contains_key((from, e.1))
            } else {
                roots.contains_key(e)
            },
        |e: (EnvelopeDigest, Seq<char>)|
            if e.0 == to {
                roots[(from, e.1)]
            } else {
                roots[e]
            },
    )
}

/// The roots of the versions in `keep`.
pub open spec fn roots_kept(
    roots: Map<(EnvelopeDigest, Seq<char>), i64>,
    keep: Set<EnvelopeDigest>,
) -> Map<(EnvelopeDigest, Seq<char>), i64> {
    Map::new(
        |e: (EnvelopeDigest, Seq<char>)| roots.contains_key(e) && keep.contains(e.0),
        |e: (EnvelopeDigest, Seq<char>)| roots[e],
    )
}

impl Db {
    /// Whether the node `id` is the root of a namespace.
    pub open spec fn is_root(self, id: i64) -> bool {
        exists|head: EnvelopeDigest, k: Seq<char>| #[trigger]
            self.roots.contains_key((head, k)) && self.roots[(head, k)] == id
    }

    /// Whether an edge runs from `parent` to `id`.
    pub open spec fn edge(self, parent: i64, id: i64) -> bool {
        ||| exists|k: Seq<char>| #[trigger]
            self.fields.contains_key((parent, k)) && self.fields[(parent, k)] == id
        ||| exists|i: i64| #[trigger]
            self.items.contains_key((parent, i)) && self.items[(parent, i)] == id
    }

    /// Whether some root reaches the node `id` over at most `steps` edges.
    pub open spec fn reached_in(self, id: i64, steps: nat) -> bool
        decreases steps,
    {
        self.is_root(id) || (steps > 0 && exists|parent: i64| #[trigger]
            self.edge(parent, id) && self.reached_in(parent, (steps - 1) as nat))
    }

    /// Whether some root reaches the node `id`.
    pub open spec fn reached(self, id: i64) -> bool {
        exists|steps: nat| self.reached_in(id, steps)
    }

    /// The nodes that some root reaches.
    pub open spec fn live(self) -> Set<i64> {
        Set::new(|id: i64| self.nodes.contains_key(id) && self.reached(id))
    }

    /// The same with nothing but the nodes that some root reaches.
    pub open spec fn swept(self) -> Db {
        Db {
            nodes: self.nodes.restrict(self.live()),
            fields: Map::new(
                |e: (i64, Seq<char>)| self.fields.contains_key(e) && self.live().contains(e.0),
                |e: (i64, Seq<char>)| self.fields[e],
            ),
            items: Map::new(
                |e: (i64, i64)| self.items.contains_key(e) && self.live().contains(e.0),
                |e: (i64, i64)| self.items[e],
            ),
            ..self
        }
    }
}

/// Tables of rows that a transaction changes all together or not at all.
///
/// What a failed change did is not known until the transaction it was part
/// of is given up.
pub trait Rows: Sized {
    type Error;

    /// What the rows hold, the changes of an open transaction with them.
    spec fn db(&self) -> Db;

    /// What the rows hold once an open transaction is given up.
    spec fn kept(&self) -> Db;

    /// Whether a transaction is open.
    spec fn open(&self) -> bool;

    /// Whether the tables' own structure is sound.
    spec fn wf(&self) -> bool;

    /// Opens a transaction.
    fn begin(&mut self) -> (done: Result<(), Self::Error>)
        requires
            old(self).wf(),
            !old(self).open(),
        ensures
            final(self).wf(),
            final(self).db() == old(self).db(),
            final(self).open() == (done is Ok),
            done is Ok ==> final(self).kept() == old(self).db(),
    ;

    /// Makes what the transaction changed stand; gives it up, where that
    /// fails.
    fn commit(&mut self) -> (done: Result<(), Self::Error>)
        requires
            old(self).wf(),
            old(self).open(),
        ensures
            final(self).wf(),
            !final(self).open(),
            final(self).db() == match done {
                Ok(_) => old(self).db(),
                Err(_) => old(self).kept(),
            },
    ;

    /// Gives the transaction up.
    fn rollback(&mut self)
        requires
            old(self).wf(),
            old(self).open(),
        ensures
            final(self).wf(),
            !final(self).open(),
            final(self).db() == old(self).kept(),
    ;

    /// Whether there is a version at `head`.
    fn has_version(&self, head: &EnvelopeDigest) -> (held: Result<bool, Self::Error>)
        requires
            self.wf(),
        ensures
            held matches Ok(held) ==> held == self.db().versions.contains(*head),
    ;

    /// The root of a namespace in the version at `head`.
    fn root(&self, head: &EnvelopeDigest, key: &NamespaceKey) -> (root: Result<
        Option<i64>,
        Self::Error,
    >)
        requires
            self.wf(),
        ensures
            root matches Ok(root) ==> match root {
                Some(id) => self.db().roots.contains_key((*head, key@)) && self.db().roots[(
                    *head,
                    key@,
                )] == id,
                None => !self.db().roots.contains_key((*head, key@)),
            },
    ;

    /// The root of every namespace in the version at `head`, in the order
    /// of their names.
    fn roots(&self, head: &EnvelopeDigest) -> (roots: Result<Vec<(String, i64)>, Self::Error>)
        requires
            self.wf(),
        ensures
            roots matches Ok(roots) ==> {
                &&& forall|i: int, j: int|
                    0 <= i < j < roots@.len() ==> crate::text::text_lt(
                        (#[trigger] roots@[i]).0@,
                        (#[trigger] roots@[j]).0@,
                    )
                &&& forall|i: int|
                    0 <= i < roots@.len() ==> self.db().roots.contains_key(
                        (*head, (#[trigger] roots@[i]).0@),
                    ) && self.db().roots[(*head, roots@[i].0@)] == roots@[i].1
                &&& forall|k: Seq<char>| #[trigger]
                    self.db().roots.contains_key((*head, k)) ==> exists|i: int|
                        0 <= i < roots@.len() && (#[trigger] roots@[i]).0@ == k
            },
    ;

    /// The row of the node `id`.
    fn node(&self, id: i64) -> (node: Result<Option<NodeRow>, Self::Error>)
        requires
            self.wf(),
        ensures
            node matches Ok(node) ==> match node {
                Some(row) => {
                    &&& self.db().nodes.contains_key(id)
                    &&& self.db().nodes[id].code == row.code
                    &&& match (row.leaf, self.db().nodes[id].leaf) {
                        (Some(value), Some(tree)) => value.wf() && value.tree() == tree,
                        (None, None) => true,
                        _ => false,
                    }
                },
                None => !self.db().nodes.contains_key(id),
            },
    ;

    /// The child of the table `parent` under `name`.
    fn field(&self, parent: i64, name: &String) -> (child: Result<Option<i64>, Self::Error>)
        requires
            self.wf(),
        ensures
            child matches Ok(child) ==> match child {
                Some(id) => self.db().fields.contains_key((parent, name@)) && self.db().fields[(
                    parent,
                    name@,
                )] == id,
                None => !self.db().fields.contains_key((parent, name@)),
            },
    ;

    /// The child of the array `parent` at `index`.
    fn item(&self, parent: i64, index: u32) -> (child: Result<Option<i64>, Self::Error>)
        requires
            self.wf(),
        ensures
            child matches Ok(child) ==> match child {
                Some(id) => self.db().items.contains_key((parent, index as i64))
                    && self.db().items[(parent, index as i64)] == id,
                None => !self.db().items.contains_key((parent, index as i64)),
            },
    ;

    /// The children of the table `parent`, each under its name.
    fn fields(&self, parent: i64) -> (children: Result<Vec<(String, i64)>, Self::Error>)
        requires
            self.wf(),
        ensures
            children matches Ok(children) ==> {
                &&& forall|i: int|
                    0 <= i < children@.len() ==> self.db().fields.contains_key(
                        (parent, (#[trigger] children@[i]).0@),
                    ) && self.db().fields[(parent, children@[i].0@)] == children@[i].1
                &&& forall|k: Seq<char>| #[trigger]
                    self.db().fields.contains_key((parent, k)) ==> exists|i: int|
                        0 <= i < children@.len() && (#[trigger] children@[i]).0@ == k
            },
    ;

    /// The children of the array `parent`, in order.
    fn items(&self, parent: i64) -> (children: Result<Vec<i64>, Self::Error>)
        requires
            self.wf(),
            exists|n: nat| self.db().spans(parent, n) && n <= i64::MAX,
        ensures
            children matches Ok(children) ==> {
                &&& self.db().spans(parent, children@.len())
                &&& forall|i: int|
                    0 <= i < children@.len() ==> self.db().items[(parent, i as i64)]
                        == #[trigger] children@[i]
            },
    ;

    /// Inserts a node, and says which it is: newer than any other.
    fn insert_node(&mut self, code: i64, leaf: Option<&Value>) -> (id: Result<i64, Self::Error>)
        requires
            old(self).wf(),
            old(self).open(),
            leaf matches Some(value) ==> value.wf(),
        ensures
            final(self).wf(),
            final(self).open(),
            final(self).kept() == old(self).kept(),
            id matches Ok(id) ==> {
                &&& id > 0
                &&& forall|older: i64| #[trigger]
                    old(self).db().nodes.contains_key(older) ==> older < id
                &&& final(self).db() == (Db {
                    nodes: old(self).db().nodes.insert(
                        id,
                        Node {
                            code,
                            leaf: match leaf {
                                Some(value) => Some(value.tree()),
                                None => None,
                            },
                        },
                    ),
                    ..old(self).db()
                })
            },
    ;

    /// Inserts the edge from the table `parent` to `child` under `name`.
    fn insert_field(&mut self, parent: i64, name: &String, child: i64) -> (done: Result<
        (),
        Self::Error,
    >)
        requires
            old(self).wf(),
            old(self).open(),
            old(self).db().nodes.contains_key(parent),
            old(self).db().nodes[parent].code == TABLE,
            !old(self).db().fields.contains_key((parent, name@)),
        ensures
            final(self).wf(),
            final(self).open(),
            final(self).kept() == old(self).kept(),
            done is Ok ==> final(self).db() == (Db {
                fields: old(self).db().fields.insert((parent, name@), child),
                ..old(self).db()
            }),
    ;

    /// Inserts the edge from the array `parent` to `child`, behind those it
    /// has.
    fn insert_item(&mut self, parent: i64, index: i64, child: i64) -> (done: Result<
        (),
        Self::Error,
    >)
        requires
            old(self).wf(),
            old(self).open(),
            old(self).db().nodes.contains_key(parent),
            old(self).db().nodes[parent].code == ARRAY,
            0 <= index < i64::MAX,
            old(self).db().spans(parent, index as nat),
        ensures
            final(self).wf(),
            final(self).open(),
            final(self).kept() == old(self).kept(),
            done is Ok ==> final(self).db() == (Db {
                items: old(self).db().items.insert((parent, index), child),
                ..old(self).db()
            }),
    ;

    /// Gives the new table `to` the edges of `from`, but for the one under
    /// `except`.
    fn copy_fields(&mut self, to: i64, from: i64, except: &String) -> (done: Result<
        (),
        Self::Error,
    >)
        requires
            old(self).wf(),
            old(self).open(),
            to != from,
            old(self).db().nodes.contains_key(to),
            old(self).db().nodes[to].code == TABLE,
            forall|k: Seq<char>| !#[trigger] old(self).db().fields.contains_key((to, k)),
        ensures
            final(self).wf(),
            final(self).open(),
            final(self).kept() == old(self).kept(),
            done is Ok ==> final(self).db() == (Db {
                fields: fields_copied(old(self).db().fields, to, from, except@),
                ..old(self).db()
            }),
    ;

    /// Gives the new array `to` the edges of `from`, the one at `index`
    /// leading to `child` instead.
    fn copy_items_replacing(&mut self, to: i64, from: i64, index: u32, child: i64) -> (done: Result<
        (),
        Self::Error,
    >)
        requires
            old(self).wf(),
            old(self).open(),
            to != from,
            old(self).db().nodes.contains_key(to),
            old(self).db().nodes[to].code == ARRAY,
            old(self).db().spans(to, 0),
            old(self).db().items.contains_key((from, index as i64)),
            exists|n: nat| old(self).db().spans(from, n) && n <= i64::MAX,
        ensures
            final(self).wf(),
            final(self).open(),
            final(self).kept() == old(self).kept(),
            done is Ok ==> final(self).db() == (Db {
                items: items_copied(old(self).db().items, to, from, index as i64).insert(
                    (to, index as i64),
                    child,
                ),
                ..old(self).db()
            }),
    ;

    /// Gives the new array `to` the edges of `from`, but for the one at
    /// `index`, later ones moved down.
    fn copy_items_removing(&mut self, to: i64, from: i64, index: u32) -> (done: Result<
        (),
        Self::Error,
    >)
        requires
            old(self).wf(),
            old(self).open(),
            to != from,
            old(self).db().nodes.contains_key(to),
            old(self).db().nodes[to].code == ARRAY,
            old(self).db().spans(to, 0),
            old(self).db().items.contains_key((from, index as i64)),
            exists|n: nat| old(self).db().spans(from, n) && n <= i64::MAX,
        ensures
            final(self).wf(),
            final(self).open(),
            final(self).kept() == old(self).kept(),
            done is Ok ==> final(self).db() == (Db {
                items: items_closed(old(self).db().items, to, from, index as i64),
                ..old(self).db()
            }),
    ;

    /// Registers `head` as a version without namespaces, clearing whatever
    /// an earlier one under the same head left behind.
    fn replace_version(&mut self, head: &EnvelopeDigest) -> (done: Result<(), Self::Error>)
        requires
            old(self).wf(),
            old(self).open(),
        ensures
            final(self).wf(),
            final(self).open(),
            final(self).kept() == old(self).kept(),
            done is Ok ==> final(self).db() == (Db {
                versions: old(self).db().versions.insert(*head),
                roots: Map::new(
                    |e: (EnvelopeDigest, Seq<char>)|
                        old(self).db().roots.contains_key(e) && e.0 != *head,
                    |e: (EnvelopeDigest, Seq<char>)| old(self).db().roots[e],
                ),
                ..old(self).db()
            }),
    ;

    /// Gives the version at `to` the roots of the one at `from`.
    fn copy_roots(&mut self, to: &EnvelopeDigest, from: &EnvelopeDigest) -> (done: Result<
        (),
        Self::Error,
    >)
        requires
            old(self).wf(),
            old(self).open(),
            *to != *from,
            old(self).db().versions.contains(*to),
            forall|k: Seq<char>| !#[trigger] old(self).db().roots.contains_key((*to, k)),
        ensures
            final(self).wf(),
            final(self).open(),
            final(self).kept() == old(self).kept(),
            done is Ok ==> final(self).db() == (Db {
                roots: roots_copied(old(self).db().roots, *to, *from),
                ..old(self).db()
            }),
    ;

    /// Points a namespace of the version at `head` at a root.
    fn set_root(&mut self, head: &EnvelopeDigest, key: &NamespaceKey, root: i64) -> (done: Result<
        (),
        Self::Error,
    >)
        requires
            old(self).wf(),
            old(self).open(),
            old(self).db().versions.contains(*head),
        ensures
            final(self).wf(),
            final(self).open(),
            final(self).kept() == old(self).kept(),
            done is Ok ==> final(self).db() == (Db {
                roots: old(self).db().roots.insert((*head, key@), root),
                ..old(self).db()
            }),
    ;

    /// Takes a namespace out of the version at `head`.
    fn remove_root(&mut self, head: &EnvelopeDigest, key: &NamespaceKey) -> (done: Result<
        (),
        Self::Error,
    >)
        requires
            old(self).wf(),
            old(self).open(),
        ensures
            final(self).wf(),
            final(self).open(),
            final(self).kept() == old(self).kept(),
            done is Ok ==> final(self).db() == (Db {
                roots: old(self).db().roots.remove((*head, key@)),
                ..old(self).db()
            }),
    ;

    /// Drops every version that is not in `keep`, with its roots.
    fn keep_versions(&mut self, keep: &Vec<EnvelopeDigest>) -> (done: Result<(), Self::Error>)
        requires
            old(self).wf(),
            old(self).open(),
        ensures
            final(self).wf(),
            final(self).open(),
            final(self).kept() == old(self).kept(),
            done is Ok ==> final(self).db() == (Db {
                versions: old(self).db().versions.intersect(keep@.to_set()),
                roots: roots_kept(old(self).db().roots, keep@.to_set()),
                ..old(self).db()
            }),
    ;

    /// Drops every node that no root reaches, with its edges.
    fn sweep(&mut self) -> (done: Result<(), Self::Error>)
        requires
            old(self).wf(),
            old(self).open(),
            old(self).db().sound(),
        ensures
            final(self).wf(),
            final(self).open(),
            final(self).kept() == old(self).kept(),
            done is Ok ==> final(self).db() == old(self).db().swept(),
    ;

    /// Gives back the space that a sweep freed.
    fn release(&mut self) -> (done: Result<(), Self::Error>)
        requires
            old(self).wf(),
            !old(self).open(),
        ensures
            final(self).wf(),
            !final(self).open(),
            final(self).db() == old(self).db(),
    ;

    /// Files an envelope's row under `digest`. What was filed there before
    /// is replaced, except for when it was first stored.
    fn put_envelope(&mut self, digest: &EnvelopeDigest, row: EnvelopeRow) -> (done: Result<
        (),
        Self::Error,
    >)
        requires
            old(self).wf(),
            !old(self).open(),
            row.envelope.wf(),
            row.envelope@.status == crate::envelope::Status::Unchecked,
        ensures
            final(self).wf(),
            !final(self).open(),
            final(self).db() == match done {
                Ok(_) => Db {
                    log: old(self).db().log.insert(
                        *digest,
                        if old(self).db().log.contains_key(*digest) {
                            Filed { stored_at: old(self).db().log[*digest].stored_at, ..row@ }
                        } else {
                            row@
                        },
                    ),
                    ..old(self).db()
                },
                Err(_) => old(self).db(),
            },
    ;

    /// The row filed under `digest`.
    fn envelope(&self, digest: &EnvelopeDigest) -> (row: Result<Option<EnvelopeRow>, Self::Error>)
        requires
            self.wf(),
        ensures
            row matches Ok(row) ==> match row {
                Some(row) => row.envelope.wf() && self.db().log.contains_key(*digest)
                    && self.db().log[*digest] == row@,
                None => !self.db().log.contains_key(*digest),
            },
    ;

    /// What the envelope filed under `digest` follows, without reading the
    /// envelope.
    fn prev(&self, digest: &EnvelopeDigest) -> (prev: Result<Option<Vec<u8>>, Self::Error>)
        requires
            self.wf(),
        ensures
            prev matches Ok(prev) ==> blob_view(prev) == if self.db().log.contains_key(*digest) {
                prev_blob(self.db().log[*digest].letter.payload.prev())
            } else {
                None
            },
    ;

    /// Removes the row filed under `digest`, where there is one.
    fn remove_envelope(&mut self, digest: &EnvelopeDigest) -> (done: Result<(), Self::Error>)
        requires
            old(self).wf(),
            !old(self).open(),
        ensures
            final(self).wf(),
            !final(self).open(),
            final(self).db() == match done {
                Ok(_) => Db { log: old(self).db().log.remove(*digest), ..old(self).db() },
                Err(_) => old(self).db(),
            },
    ;

    /// The numbers of all nodes, and which kind each is.
    fn all_nodes(&self) -> (nodes: Result<Vec<(i64, i64)>, Self::Error>)
        requires
            self.wf(),
        ensures
            nodes matches Ok(nodes) ==> self.db().lists_nodes(nodes@),
    ;

    /// The edges of all tables: from where, under which name, to where.
    fn all_fields(&self) -> (edges: Result<Vec<(i64, String, i64)>, Self::Error>)
        requires
            self.wf(),
        ensures
            edges matches Ok(edges) ==> self.db().lists_fields(edges@),
    ;

    /// The edges of all arrays: from where, at which place, to where; in the
    /// order of where from, and then of places.
    fn all_items(&self) -> (edges: Result<Vec<(i64, i64, i64)>, Self::Error>)
        requires
            self.wf(),
        ensures
            edges matches Ok(edges) ==> self.db().lists_items(edges@) && in_places(edges@),
    ;

    /// The roots of all versions: of which, under which name, and where.
    fn all_roots(&self) -> (roots: Result<Vec<(EnvelopeDigest, String, i64)>, Self::Error>)
        requires
            self.wf(),
        ensures
            roots matches Ok(roots) ==> self.db().lists_roots(roots@),
    ;

    /// The digests of all rows of the log.
    fn all_logged(&self) -> (digests: Result<Vec<EnvelopeDigest>, Self::Error>)
        requires
            self.wf(),
        ensures
            digests matches Ok(digests) ==> forall|digest: EnvelopeDigest|
                #![trigger self.db().log.contains_key(digest)]
                #![trigger digests@.contains(digest)]
                self.db().log.contains_key(digest) <==> digests@.contains(digest),
    ;

    /// The digests of the rows that follow `parent`, in order.
    fn followers(&self, parent: &EnvelopeDigest) -> (digests: Result<Vec<Vec<u8>>, Self::Error>)
        requires
            self.wf(),
        ensures
            digests matches Ok(digests) ==> {
                &&& forall|i: int, j: int|
                    0 <= i < j < digests@.len() ==> crate::digest::bytes_lt(
                        (#[trigger] digests@[i])@,
                        (#[trigger] digests@[j])@,
                    )
                &&& forall|i: int|
                    0 <= i < digests@.len() ==> self.db().lists_follower(
                        (#[trigger] digests@[i])@,
                        parent.bytes@,
                    )
                &&& forall|d: EnvelopeDigest| #[trigger]
                    self.db().follows(d, parent.bytes@) ==> listed(digests@, d.bytes@)
            },
    ;
}

} // verus!
