//! Rows held in memory.

use vstd::prelude::*;

use crate::digest::{bytes_lt, same_bytes_same_digest, EnvelopeDigest};
use crate::msg::NamespaceKey;
use crate::order::{Ordered, SortedMap};
use crate::storage::rows::{
    blob_view, fields_copied, in_places, items_closed, items_copied, listed, reaching_goes_on,
    roots_copied, roots_kept, Db, EnvelopeRow, Filed, Node, NodeRow, Rows,
};
use crate::storage::log::Logged;
use crate::storage::sqlite::SqliteStorage;
use crate::storage::{Storage, Version};
use crate::value::{Tree, Value};

verus! {

/// A node with its edges.
#[derive(Debug, PartialEq, Eq)]
pub struct TableNode {
    pub code: i64,
    pub leaf: Option<Value>,
    pub fields: SortedMap<String, i64>,
    pub items: Vec<i64>,
}

/// The roots of one version.
pub type Roots = SortedMap<NamespaceKey, i64>;

/// All tables.
#[derive(Debug, PartialEq, Eq)]
pub struct Tables {
    pub nodes: SortedMap<i64, TableNode>,
    pub versions: SortedMap<EnvelopeDigest, Roots>,
    pub log: SortedMap<EnvelopeDigest, EnvelopeRow>,
}

/// What a leaf holds.
pub open spec fn leaf_view(leaf: Option<Value>) -> Option<Tree> {
    match leaf {
        Some(value) => Some(value.tree()),
        None => None,
    }
}

impl TableNode {
    pub open spec fn wf(&self) -> bool {
        &&& self.leaf matches Some(value) ==> value.wf()
        &&& self.fields.wf()
        &&& self.items@.len() <= i64::MAX
    }
}

impl Tables {
    pub open spec fn wf(&self) -> bool {
        &&& self.nodes.wf()
        &&& forall|id: i64| #[trigger]
            self.nodes@.contains_key(id) ==> id > 0 && self.nodes@[id].wf()
        &&& self.versions.wf()
        &&& forall|head: EnvelopeDigest| #[trigger]
            self.versions@.contains_key(head) ==> self.versions@[head].wf()
        &&& self.log.wf()
        &&& forall|digest: EnvelopeDigest| #[trigger]
            self.log@.contains_key(digest) ==> self.log@[digest].envelope.wf()
    }

    /// What the tables hold.
    pub open spec fn db(&self) -> Db {
        Db {
            nodes: nodes_view(self.nodes@),
            fields: edges_view(self.nodes@),
            items: places_view(self.nodes@),
            versions: self.versions@.dom(),
            roots: roots_view(self.versions@),
            log: Map::new(
                |digest: EnvelopeDigest| self.log@.contains_key(digest),
                |digest: EnvelopeDigest| self.log@[digest]@,
            ),
        }
    }
}

/// The rows of nodes.
pub open spec fn nodes_view(nodes: Map<i64, TableNode>) -> Map<i64, Node> {
    Map::new(
        |id: i64| nodes.contains_key(id),
        |id: i64| Node { code: nodes[id].code, leaf: leaf_view(nodes[id].leaf) },
    )
}

/// The edges of tables.
pub open spec fn edges_view(nodes: Map<i64, TableNode>) -> Map<(i64, Seq<char>), i64> {
    Map::new(
        |e: (i64, Seq<char>)| nodes.contains_key(e.0) && nodes[e.0].fields@.contains_key(e.1),
        |e: (i64, Seq<char>)| nodes[e.0].fields@[e.1],
    )
}

/// The edges of arrays.
pub open spec fn places_view(nodes: Map<i64, TableNode>) -> Map<(i64, i64), i64> {
    Map::new(
        |e: (i64, i64)| nodes.contains_key(e.0) && 0 <= e.1 < nodes[e.0].items@.len(),
        |e: (i64, i64)| nodes[e.0].items@[e.1 as int],
    )
}

/// The roots of all versions.
pub open spec fn roots_view(versions: Map<EnvelopeDigest, Roots>) -> Map<
    (EnvelopeDigest, Seq<char>),
    i64,
> {
    Map::new(
        |e: (EnvelopeDigest, Seq<char>)| versions.contains_key(e.0) && versions[e.0]@.contains_key(
            e.1,
        ),
        |e: (EnvelopeDigest, Seq<char>)| versions[e.0]@[e.1],
    )
}

/// The numbers of the nodes have run out.
#[derive(Debug, Clone, Copy, PartialEq, Eq, Structural)]
pub struct NoMoreNodes;

/// [`Rows`] held in memory: the tables, and what they were when the open
/// transaction began.
#[derive(Debug, PartialEq, Eq)]
pub struct MemRows {
    pub tables: Tables,
    pub saved: Option<Tables>,
}

/// The same fields again.
fn copy_edges(fields: &SortedMap<String, i64>) -> (copy: SortedMap<String, i64>)
    requires
        fields.wf(),
    ensures
        copy.wf(),
        copy@ == fields@,
{
    let mut copy: SortedMap<String, i64> = SortedMap::new();
    let mut i: usize = 0;
    while i < fields.entries.len()
        invariant
            i <= fields.entries@.len(),
            fields.wf(),
            copy.wf(),
            forall|k: Seq<char>| #[trigger]
                copy@.contains_key(k) ==> fields@.contains_key(k) && copy@[k] == fields@[k],
            forall|j: int|
                0 <= j < i ==> copy@.contains_key((#[trigger] fields.entries@[j]).0@),
        decreases fields.entries@.len() - i,
    {
        let entry = &fields.entries[i];
        proof {
            fields.filed_once(i as int, entry.0@);
        }
        copy.insert(entry.0.clone(), entry.1);
        i += 1;
    }
    proof {
        assert forall|k: Seq<char>| #[trigger] fields@.contains_key(k) implies copy@.contains_key(
            k,
        ) by {
            fields.filed_somewhere(k);
            assert(copy@.contains_key(fields.entries@[fields.index_of(k)].0@));
        }
        assert(copy@ =~= fields@);
    }
    copy
}

/// The same children again.
fn copy_children(items: &Vec<i64>) -> (copy: Vec<i64>)
    ensures
        copy@ == items@,
{
    let mut copy: Vec<i64> = Vec::new();
    let mut i: usize = 0;
    while i < items.len()
        invariant
            i <= items@.len(),
            copy@ == items@.take(i as int),
        decreases items@.len() - i,
    {
        copy.push(items[i]);
        i += 1;
        assert(copy@ =~= items@.take(i as int));
    }
    assert(copy@ =~= items@);
    copy
}

fn copy_leaf(leaf: &Option<Value>) -> (copy: Option<Value>)
    requires
        leaf matches Some(value) ==> value.wf(),
    ensures
        leaf_view(copy) == leaf_view(*leaf),
        copy matches Some(value) ==> value.wf(),
{
    match leaf {
        Some(value) => Some(value.clone()),
        None => None,
    }
}

/// Whether two nodes are the same row with the same edges.
pub open spec fn alike(a: TableNode, b: TableNode) -> bool {
    &&& a.code == b.code
    &&& leaf_view(a.leaf) == leaf_view(b.leaf)
    &&& a.fields@ == b.fields@
    &&& a.items@ == b.items@
}

fn copy_nodes(nodes: &SortedMap<i64, TableNode>) -> (copy: SortedMap<i64, TableNode>)
    requires
        nodes.wf(),
        forall|id: i64| #[trigger] nodes@.contains_key(id) ==> id > 0 && nodes@[id].wf(),
    ensures
        copy.wf(),
        forall|id: i64| #[trigger] copy@.contains_key(id) ==> id > 0 && copy@[id].wf(),
        nodes_view(copy@) == nodes_view(nodes@),
        edges_view(copy@) == edges_view(nodes@),
        places_view(copy@) == places_view(nodes@),
{
    let mut copy: SortedMap<i64, TableNode> = SortedMap::new();
    let mut i: usize = 0;
    while i < nodes.entries.len()
        invariant
            i <= nodes.entries@.len(),
            nodes.wf(),
            forall|id: i64| #[trigger] nodes@.contains_key(id) ==> id > 0 && nodes@[id].wf(),
            copy.wf(),
            forall|id: i64| #[trigger]
                copy@.contains_key(id) ==> nodes@.contains_key(id) && copy@[id].wf() && alike(
                    copy@[id],
                    nodes@[id],
                ),
            forall|j: int| 0 <= j < i ==> copy@.contains_key((#[trigger] nodes.entries@[j]).0),
        decreases nodes.entries@.len() - i,
    {
        let entry = &nodes.entries[i];
        proof {
            nodes.filed_once(i as int, entry.0);
            assert(nodes@.contains_key(entry.0));
        }
        let node = TableNode {
            code: entry.1.code,
            leaf: copy_leaf(&entry.1.leaf),
            fields: copy_edges(&entry.1.fields),
            items: copy_children(&entry.1.items),
        };
        copy.insert(entry.0, node);
        i += 1;
    }
    proof {
        assert forall|id: i64| #[trigger] nodes@.contains_key(id) implies copy@.contains_key(id) by {
            nodes.filed_somewhere(id);
            assert(copy@.contains_key(nodes.entries@[nodes.index_of(id)].0));
        }
        assert(nodes_view(copy@) =~= nodes_view(nodes@));
        assert(edges_view(copy@) =~= edges_view(nodes@));
        assert(places_view(copy@) =~= places_view(nodes@));
    }
    copy
}

fn copy_roots_of(roots: &Roots) -> (copy: Roots)
    requires
        roots.wf(),
    ensures
        copy.wf(),
        copy@ == roots@,
{
    let mut copy: Roots = SortedMap::new();
    let mut i: usize = 0;
    while i < roots.entries.len()
        invariant
            i <= roots.entries@.len(),
            roots.wf(),
            copy.wf(),
            forall|k: Seq<char>| #[trigger]
                copy@.contains_key(k) ==> roots@.contains_key(k) && copy@[k] == roots@[k],
            forall|j: int|
                0 <= j < i ==> copy@.contains_key((#[trigger] roots.entries@[j]).0@),
        decreases roots.entries@.len() - i,
    {
        let entry = &roots.entries[i];
        proof {
            roots.filed_once(i as int, entry.0@);
        }
        copy.insert(entry.0.clone(), entry.1);
        i += 1;
    }
    proof {
        assert forall|k: Seq<char>| #[trigger] roots@.contains_key(k) implies copy@.contains_key(
            k,
        ) by {
            roots.filed_somewhere(k);
            assert(copy@.contains_key(roots.entries@[roots.index_of(k)].0@));
        }
        assert(copy@ =~= roots@);
    }
    copy
}

fn copy_versions(versions: &SortedMap<EnvelopeDigest, Roots>) -> (copy: SortedMap<
    EnvelopeDigest,
    Roots,
>)
    requires
        versions.wf(),
        forall|head: EnvelopeDigest| #[trigger]
            versions@.contains_key(head) ==> versions@[head].wf(),
    ensures
        copy.wf(),
        forall|head: EnvelopeDigest| #[trigger] copy@.contains_key(head) ==> copy@[head].wf(),
        copy@.dom() == versions@.dom(),
        roots_view(copy@) == roots_view(versions@),
{
    let mut copy: SortedMap<EnvelopeDigest, Roots> = SortedMap::new();
    let mut i: usize = 0;
    while i < versions.entries.len()
        invariant
            i <= versions.entries@.len(),
            versions.wf(),
            forall|head: EnvelopeDigest| #[trigger]
                versions@.contains_key(head) ==> versions@[head].wf(),
            copy.wf(),
            forall|head: EnvelopeDigest| #[trigger]
                copy@.contains_key(head) ==> versions@.contains_key(head) && copy@[head].wf()
                    && copy@[head]@ == versions@[head]@,
            forall|j: int| 0 <= j < i ==> copy@.contains_key((#[trigger] versions.entries@[j]).0),
        decreases versions.entries@.len() - i,
    {
        let entry = &versions.entries[i];
        proof {
            versions.filed_once(i as int, entry.0);
            assert(versions@.contains_key(entry.0));
        }
        copy.insert(entry.0, copy_roots_of(&entry.1));
        i += 1;
    }
    proof {
        assert forall|head: EnvelopeDigest| #[trigger]
            versions@.contains_key(head) implies copy@.contains_key(head) by {
            versions.filed_somewhere(head);
            assert(copy@.contains_key(versions.entries@[versions.index_of(head)].0));
        }
        assert(copy@.dom() =~= versions@.dom());
        assert(roots_view(copy@) =~= roots_view(versions@));
    }
    copy
}

fn copy_blob(blob: &Option<Vec<u8>>) -> (copy: Option<Vec<u8>>)
    ensures
        blob_view(copy) == blob_view(*blob),
{
    match blob {
        Some(bytes) => {
            let mut copy: Vec<u8> = Vec::new();
            let mut i: usize = 0;
            while i < bytes.len()
                invariant
                    i <= bytes@.len(),
                    copy@ == bytes@.take(i as int),
                decreases bytes@.len() - i,
            {
                copy.push(bytes[i]);
                i += 1;
                assert(copy@ =~= bytes@.take(i as int));
            }
            assert(copy@ =~= bytes@);
            Some(copy)
        },
        None => None,
    }
}

fn copy_row(row: &EnvelopeRow) -> (copy: EnvelopeRow)
    requires
        row.envelope.wf(),
    ensures
        copy.envelope.wf(),
        copy@ == row@,
{
    EnvelopeRow {
        envelope: row.envelope.clone(),
        status: row.status,
        weight: row.weight,
        bad_keys: copy_blob(&row.bad_keys),
        stored_at: row.stored_at,
    }
}

/// The rows of a log.
pub open spec fn log_view(log: Map<EnvelopeDigest, EnvelopeRow>) -> Map<EnvelopeDigest, Filed> {
    Map::new(
        |digest: EnvelopeDigest| log.contains_key(digest),
        |digest: EnvelopeDigest| log[digest]@,
    )
}

fn copy_log(log: &SortedMap<EnvelopeDigest, EnvelopeRow>) -> (copy: SortedMap<
    EnvelopeDigest,
    EnvelopeRow,
>)
    requires
        log.wf(),
        forall|digest: EnvelopeDigest| #[trigger]
            log@.contains_key(digest) ==> log@[digest].envelope.wf(),
    ensures
        copy.wf(),
        forall|digest: EnvelopeDigest| #[trigger]
            copy@.contains_key(digest) ==> copy@[digest].envelope.wf(),
        log_view(copy@) == log_view(log@),
{
    let mut copy: SortedMap<EnvelopeDigest, EnvelopeRow> = SortedMap::new();
    let mut i: usize = 0;
    while i < log.entries.len()
        invariant
            i <= log.entries@.len(),
            log.wf(),
            forall|digest: EnvelopeDigest| #[trigger]
                log@.contains_key(digest) ==> log@[digest].envelope.wf(),
            copy.wf(),
            forall|digest: EnvelopeDigest| #[trigger]
                copy@.contains_key(digest) ==> log@.contains_key(digest)
                    && copy@[digest].envelope.wf() && copy@[digest]@ == log@[digest]@,
            forall|j: int| 0 <= j < i ==> copy@.contains_key((#[trigger] log.entries@[j]).0),
        decreases log.entries@.len() - i,
    {
        let entry = &log.entries[i];
        proof {
            log.filed_once(i as int, entry.0);
            assert(log@.contains_key(entry.0));
        }
        copy.insert(entry.0, copy_row(&entry.1));
        i += 1;
    }
    proof {
        assert forall|digest: EnvelopeDigest| #[trigger]
            log@.contains_key(digest) implies copy@.contains_key(digest) by {
            log.filed_somewhere(digest);
            assert(copy@.contains_key(log.entries@[log.index_of(digest)].0));
        }
        assert(log_view(copy@) =~= log_view(log@));
    }
    copy
}

/// No rows at all.
pub open spec fn nothing() -> Db {
    Db {
        nodes: Map::empty(),
        fields: Map::empty(),
        items: Map::empty(),
        versions: Set::empty(),
        roots: Map::empty(),
        log: Map::empty(),
    }
}

impl Tables {
    /// Tables with nothing in them.
    pub fn new() -> (tables: Self)
        ensures
            tables.wf(),
            tables.db().sound(),
            tables.db() == nothing(),
    {
        let tables = Tables {
            nodes: SortedMap::new(),
            versions: SortedMap::new(),
            log: SortedMap::new(),
        };
        assert(tables.db().nodes =~= nothing().nodes);
        assert(tables.db().fields =~= nothing().fields);
        assert(tables.db().ranked_by(|id: i64| 0, 0));
        assert(tables.db().items =~= nothing().items);
        assert(tables.db().versions =~= nothing().versions);
        assert(tables.db().roots =~= nothing().roots);
        assert(tables.db().log =~= nothing().log);
        tables
    }

    /// The same tables again.
    fn copy(&self) -> (copy: Self)
        requires
            self.wf(),
        ensures
            copy.wf(),
            copy.db() == self.db(),
    {
        let copy = Tables {
            nodes: copy_nodes(&self.nodes),
            versions: copy_versions(&self.versions),
            log: copy_log(&self.log),
        };
        assert(copy.db().log =~= log_view(copy.log@));
        assert(self.db().log =~= log_view(self.log@));
        copy
    }
}

/// One node changed.
proof fn node_changed(before: Tables, after: Tables, id: i64, node: TableNode)
    requires
        before.wf(),
        after.nodes.wf(),
        after.nodes@ == before.nodes@.insert(id, node),
        after.versions == before.versions,
        after.log == before.log,
        id > 0,
        node.wf(),
    ensures
        after.wf(),
        after.db().versions == before.db().versions,
        after.db().roots == before.db().roots,
        after.db().log == before.db().log,
{
    assert(after.db().log =~= before.db().log);
}

/// The node at `id`, for a change in place.
fn find_node(tables: &Tables, id: i64) -> (at: Option<usize>)
    requires
        tables.wf(),
    ensures
        match at {
            Some(i) => {
                &&& tables.nodes.filed(i as int, id)
                &&& tables.nodes@.contains_key(id)
                &&& tables.nodes@[id] == tables.nodes.entries@[i as int].1
                &&& tables.nodes@[id].wf()
                &&& id > 0
            },
            None => !tables.nodes@.contains_key(id),
        },
{
    match tables.nodes.find(&id) {
        Ok(i) => {
            proof {
                tables.nodes.filed_once(i as int, id);
            }
            Some(i)
        },
        Err(_) => None,
    }
}

/// Whether an edge from `id` at the place `k` is among `edges`.
spec fn has_edge(edges: Seq<(i64, i64, i64)>, id: i64, k: int) -> bool {
    exists|e: int| 0 <= e < edges.len() && (#[trigger] edges[e]).0 == id && edges[e].1 == k
}

impl Rows for MemRows {
    type Error = NoMoreNodes;

    open spec fn db(&self) -> Db {
        self.tables.db()
    }

    open spec fn kept(&self) -> Db {
        match self.saved {
            Some(tables) => tables.db(),
            None => self.tables.db(),
        }
    }

    open spec fn open(&self) -> bool {
        self.saved is Some
    }

    open spec fn wf(&self) -> bool {
        &&& self.tables.wf()
        &&& self.saved matches Some(tables) ==> tables.wf()
    }

    fn begin(&mut self) -> (done: Result<(), Self::Error>)
        ensures
            done is Ok,
    {
        self.saved = Some(self.tables.copy());
        Ok(())
    }

    fn commit(&mut self) -> (done: Result<(), Self::Error>)
        ensures
            done is Ok,
    {
        self.saved = None;
        Ok(())
    }

    fn rollback(&mut self) {
        match self.saved.take() {
            Some(tables) => {
                self.tables = tables;
            },
            None => {
                assert(false);
            },
        }
    }

    fn has_version(&self, head: &EnvelopeDigest) -> (held: Result<bool, Self::Error>)
        ensures
            held is Ok,
    {
        Ok(self.tables.versions.contains(head))
    }

    fn root(&self, head: &EnvelopeDigest, key: &NamespaceKey) -> (root: Result<
        Option<i64>,
        Self::Error,
    >)
        ensures
            root is Ok,
    {
        match self.tables.versions.get(head) {
            Some(roots) => match roots.get(key) {
                Some(id) => Ok(Some(*id)),
                None => Ok(None),
            },
            None => Ok(None),
        }
    }

    fn roots(&self, head: &EnvelopeDigest) -> (roots: Result<Vec<(String, i64)>, Self::Error>)
        ensures
            roots is Ok,
    {
        let mut list: Vec<(String, i64)> = Vec::new();
        match self.tables.versions.get(head) {
            Some(roots) => {
                let mut i: usize = 0;
                while i < roots.entries.len()
                    invariant
                        i <= roots.entries@.len(),
                        list@.len() == i,
                        forall|j: int|
                            0 <= j < i ==> (#[trigger] list@[j]).0@ == roots.entries@[j].0@
                                && list@[j].1 == roots.entries@[j].1,
                    decreases roots.entries@.len() - i,
                {
                    let entry = &roots.entries[i];
                    list.push((entry.0.text.clone(), entry.1));
                    i += 1;
                }
                proof {
                    assert forall|a: int, b: int| 0 <= a < b < list@.len() implies crate::text::text_lt(
                        (#[trigger] list@[a]).0@,
                        (#[trigger] list@[b]).0@,
                    ) by {
                        assert(<NamespaceKey as Ordered>::lt(
                            roots.entries@[a].0@,
                            roots.entries@[b].0@,
                        ));
                    }
                    assert forall|j: int| 0 <= j < list@.len() implies self.db().roots.contains_key(
                        (*head, (#[trigger] list@[j]).0@),
                    ) && self.db().roots[(*head, list@[j].0@)] == list@[j].1 by {
                        roots.filed_once(j, roots.entries@[j].0@);
                    }
                    assert forall|k: Seq<char>| #[trigger] self.db().roots.contains_key(
                        (*head, k),
                    ) implies exists|j: int|
                        0 <= j < list@.len() && (#[trigger] list@[j]).0@ == k by {
                        roots.filed_somewhere(k);
                        assert(list@[roots.index_of(k)].0@ == k);
                    }
                }
            },
            None => {},
        }
        Ok(list)
    }

    fn node(&self, id: i64) -> (node: Result<Option<NodeRow>, Self::Error>)
        ensures
            node is Ok,
    {
        match find_node(&self.tables, id) {
            Some(i) => {
                let node = &self.tables.nodes.entries[i].1;
                Ok(Some(NodeRow { code: node.code, leaf: copy_leaf(&node.leaf) }))
            },
            None => Ok(None),
        }
    }

    fn field(&self, parent: i64, name: &String) -> (child: Result<Option<i64>, Self::Error>)
        ensures
            child is Ok,
    {
        match find_node(&self.tables, parent) {
            Some(i) => match self.tables.nodes.entries[i].1.fields.get(name) {
                Some(id) => Ok(Some(*id)),
                None => Ok(None),
            },
            None => Ok(None),
        }
    }

    fn item(&self, parent: i64, index: u32) -> (child: Result<Option<i64>, Self::Error>)
        ensures
            child is Ok,
    {
        match find_node(&self.tables, parent) {
            Some(i) => {
                let items = &self.tables.nodes.entries[i].1.items;
                let at: usize = index as usize;
                if at < items.len() {
                    Ok(Some(items[at]))
                } else {
                    Ok(None)
                }
            },
            None => Ok(None),
        }
    }

    fn fields(&self, parent: i64) -> (children: Result<Vec<(String, i64)>, Self::Error>)
        ensures
            children is Ok,
    {
        let mut list: Vec<(String, i64)> = Vec::new();
        match find_node(&self.tables, parent) {
            Some(at) => {
                let fields = &self.tables.nodes.entries[at].1.fields;
                let mut i: usize = 0;
                while i < fields.entries.len()
                    invariant
                        i <= fields.entries@.len(),
                        list@.len() == i,
                        forall|j: int|
                            0 <= j < i ==> (#[trigger] list@[j]).0@ == fields.entries@[j].0@
                                && list@[j].1 == fields.entries@[j].1,
                    decreases fields.entries@.len() - i,
                {
                    let entry = &fields.entries[i];
                    list.push((entry.0.clone(), entry.1));
                    i += 1;
                }
                proof {
                    assert forall|j: int| 0 <= j < list@.len() implies self.db().fields.contains_key(
                        (parent, (#[trigger] list@[j]).0@),
                    ) && self.db().fields[(parent, list@[j].0@)] == list@[j].1 by {
                        fields.filed_once(j, fields.entries@[j].0@);
                    }
                    assert forall|k: Seq<char>| #[trigger] self.db().fields.contains_key(
                        (parent, k),
                    ) implies exists|j: int|
                        0 <= j < list@.len() && (#[trigger] list@[j]).0@ == k by {
                        fields.filed_somewhere(k);
                        assert(list@[fields.index_of(k)].0@ == k);
                    }
                }
            },
            None => {},
        }
        Ok(list)
    }

    fn items(&self, parent: i64) -> (children: Result<Vec<i64>, Self::Error>)
        ensures
            children is Ok,
    {
        match find_node(&self.tables, parent) {
            Some(i) => Ok(copy_children(&self.tables.nodes.entries[i].1.items)),
            None => Ok(Vec::new()),
        }
    }

    fn insert_node(&mut self, code: i64, leaf: Option<&Value>) -> (id: Result<i64, Self::Error>)
        ensures
            id is Err <==> old(self).db().nodes.contains_key(i64::MAX),
            match id {
                Ok(id) => id == 1 || old(self).db().nodes.contains_key((id - 1) as i64),
                Err(_) => final(self).db() == old(self).db(),
            },
    {
        let ghost before = self.tables;
        let n: usize = self.tables.nodes.entries.len();
        let last: i64 = if n == 0 {
            0
        } else {
            self.tables.nodes.entries[n - 1].0
        };
        proof {
            if n > 0 {
                before.nodes.filed_once(n - 1, last);
                assert(before.nodes@.contains_key(last));
                assert(before.db().nodes.contains_key(last));
            }
            assert forall|older: i64| #[trigger] before.nodes@.contains_key(older) implies older
                <= last by {
                before.nodes.filed_somewhere(older);
                let j = before.nodes.index_of(older);
                if j < n - 1 {
                    assert(<i64 as Ordered>::lt(
                        before.nodes.entries@[j].0@,
                        before.nodes.entries@[n - 1].0@,
                    ));
                }
            }
        }
        if last == i64::MAX {
            return Err(NoMoreNodes);
        }
        let id: i64 = last + 1;
        let copy = match leaf {
            Some(value) => Some(value.clone()),
            None => None,
        };
        let node = TableNode { code, leaf: copy, fields: SortedMap::new(), items: Vec::new() };
        let ghost added = node;
        self.tables.nodes.insert(id, node);
        proof {
            node_changed(before, self.tables, id, added);
            let db = self.tables.db();
            assert(!before.nodes@.contains_key(id));
            assert(db.nodes =~= before.db().nodes.insert(
                id,
                Node { code, leaf: leaf_view(added.leaf) },
            ));
            assert(db.fields =~= before.db().fields);
            assert(db.items =~= before.db().items);
            assert forall|older: i64| #[trigger] before.db().nodes.contains_key(older) implies older
                < id by {
                assert(before.nodes@.contains_key(older));
            }
        }
        Ok(id)
    }

    fn insert_field(&mut self, parent: i64, name: &String, child: i64) -> (done: Result<
        (),
        Self::Error,
    >)
        ensures
            done is Ok,
    {
        let ghost before = self.tables;
        match find_node(&self.tables, parent) {
            Some(i) => {
                self.tables.nodes.entries[i].1.fields.insert(name.clone(), child);
                proof {
                    let entry = self.tables.nodes.entries@[i as int];
                    before.nodes.replaced_is_inserted(&self.tables.nodes, i as int, entry);
                    node_changed(before, self.tables, parent, entry.1);
                    let db = self.tables.db();
                    assert(db.nodes =~= before.db().nodes);
                    assert(db.fields =~= before.db().fields.insert((parent, name@), child));
                    assert(db.items =~= before.db().items);
                }
            },
            None => {
                assert(false);
            },
        }
        Ok(())
    }

    fn insert_item(&mut self, parent: i64, index: i64, child: i64) -> (done: Result<
        (),
        Self::Error,
    >)
        ensures
            done is Ok,
    {
        let ghost before = self.tables;
        match find_node(&self.tables, parent) {
            Some(i) => {
                proof {
                    let len = before.nodes@[parent].items@.len();
                    if index < len {
                        assert(before.db().items.contains_key((parent, index)));
                    }
                    if index > len {
                        assert(before.db().items.contains_key((parent, len as i64)));
                    }
                    assert(index == len);
                }
                self.tables.nodes.entries[i].1.items.push(child);
                proof {
                    let entry = self.tables.nodes.entries@[i as int];
                    before.nodes.replaced_is_inserted(&self.tables.nodes, i as int, entry);
                    node_changed(before, self.tables, parent, entry.1);
                    let db = self.tables.db();
                    assert(db.nodes =~= before.db().nodes);
                    assert(db.fields =~= before.db().fields);
                    assert(db.items =~= before.db().items.insert((parent, index), child));
                }
            },
            None => {
                assert(false);
            },
        }
        Ok(())
    }

    fn copy_fields(&mut self, to: i64, from: i64, except: &String) -> (done: Result<
        (),
        Self::Error,
    >)
        ensures
            done is Ok,
    {
        let ghost before = self.tables;
        let mut copy: SortedMap<String, i64> = match find_node(&self.tables, from) {
            Some(i) => copy_edges(&self.tables.nodes.entries[i].1.fields),
            None => SortedMap::new(),
        };
        let _ = copy.remove(except);
        match find_node(&self.tables, to) {
            Some(i) => {
                self.tables.nodes.entries[i].1.fields = copy;
                proof {
                    let entry = self.tables.nodes.entries@[i as int];
                    before.nodes.replaced_is_inserted(&self.tables.nodes, i as int, entry);
                    node_changed(before, self.tables, to, entry.1);
                    let db = self.tables.db();
                    assert(db.nodes =~= before.db().nodes);
                    assert(db.items =~= before.db().items);
                    assert(db.fields =~= fields_copied(before.db().fields, to, from, except@));
                }
            },
            None => {
                assert(false);
            },
        }
        Ok(())
    }

    fn copy_items_replacing(&mut self, to: i64, from: i64, index: u32, child: i64) -> (done: Result<
        (),
        Self::Error,
    >)
        ensures
            done is Ok,
    {
        let ghost before = self.tables;
        let mut copy: Vec<i64> = match find_node(&self.tables, from) {
            Some(i) => copy_children(&self.tables.nodes.entries[i].1.items),
            None => Vec::new(),
        };
        let at: usize = index as usize;
        copy.set(at, child);
        match find_node(&self.tables, to) {
            Some(i) => {
                self.tables.nodes.entries[i].1.items = copy;
                proof {
                    let entry = self.tables.nodes.entries@[i as int];
                    before.nodes.replaced_is_inserted(&self.tables.nodes, i as int, entry);
                    node_changed(before, self.tables, to, entry.1);
                    let db = self.tables.db();
                    assert(db.nodes =~= before.db().nodes);
                    assert(db.fields =~= before.db().fields);
                    assert(db.items =~= items_copied(
                        before.db().items,
                        to,
                        from,
                        index as i64,
                    ).insert((to, index as i64), child));
                }
            },
            None => {
                assert(false);
            },
        }
        Ok(())
    }

    fn copy_items_removing(&mut self, to: i64, from: i64, index: u32) -> (done: Result<
        (),
        Self::Error,
    >)
        ensures
            done is Ok,
    {
        let ghost before = self.tables;
        let mut copy: Vec<i64> = match find_node(&self.tables, from) {
            Some(i) => copy_children(&self.tables.nodes.entries[i].1.items),
            None => Vec::new(),
        };
        let at: usize = index as usize;
        let _ = copy.remove(at);
        match find_node(&self.tables, to) {
            Some(i) => {
                self.tables.nodes.entries[i].1.items = copy;
                proof {
                    let entry = self.tables.nodes.entries@[i as int];
                    before.nodes.replaced_is_inserted(&self.tables.nodes, i as int, entry);
                    node_changed(before, self.tables, to, entry.1);
                    let db = self.tables.db();
                    assert(db.nodes =~= before.db().nodes);
                    assert(db.fields =~= before.db().fields);
                    assert(db.items =~= items_closed(before.db().items, to, from, index as i64));
                }
            },
            None => {
                assert(false);
            },
        }
        Ok(())
    }

    fn replace_version(&mut self, head: &EnvelopeDigest) -> (done: Result<(), Self::Error>)
        ensures
            done is Ok,
    {
        let ghost before = self.tables;
        self.tables.versions.insert(*head, SortedMap::new());
        proof {
            let db = self.tables.db();
            assert(db.versions =~= before.db().versions.insert(*head));
            assert(db.roots =~= Map::new(
                |e: (EnvelopeDigest, Seq<char>)|
                    before.db().roots.contains_key(e) && e.0 != *head,
                |e: (EnvelopeDigest, Seq<char>)| before.db().roots[e],
            ));
            assert(db.log =~= before.db().log);
        }
        Ok(())
    }

    fn copy_roots(&mut self, to: &EnvelopeDigest, from: &EnvelopeDigest) -> (done: Result<
        (),
        Self::Error,
    >)
        ensures
            done is Ok,
    {
        let ghost before = self.tables;
        let copy = match self.tables.versions.get(from) {
            Some(roots) => copy_roots_of(roots),
            None => SortedMap::new(),
        };
        self.tables.versions.insert(*to, copy);
        proof {
            let db = self.tables.db();
            assert(db.versions =~= before.db().versions);
            assert(db.roots =~= roots_copied(before.db().roots, *to, *from));
            assert(db.log =~= before.db().log);
        }
        Ok(())
    }

    fn set_root(&mut self, head: &EnvelopeDigest, key: &NamespaceKey, root: i64) -> (done: Result<
        (),
        Self::Error,
    >)
        ensures
            done is Ok,
    {
        let ghost before = self.tables;
        let mut roots = match self.tables.versions.get(head) {
            Some(roots) => copy_roots_of(roots),
            None => SortedMap::new(),
        };
        roots.insert(key.clone(), root);
        self.tables.versions.insert(*head, roots);
        proof {
            let db = self.tables.db();
            assert(before.versions@.contains_key(*head));
            assert(db.versions =~= before.db().versions);
            assert(db.roots =~= before.db().roots.insert((*head, key@), root));
            assert(db.log =~= before.db().log);
        }
        Ok(())
    }

    fn remove_root(&mut self, head: &EnvelopeDigest, key: &NamespaceKey) -> (done: Result<
        (),
        Self::Error,
    >)
        ensures
            done is Ok,
    {
        let ghost before = self.tables;
        let mut roots = match self.tables.versions.get(head) {
            Some(roots) => copy_roots_of(roots),
            None => {
                assert(self.tables.db().roots =~= before.db().roots.remove((*head, key@)));
                return Ok(());
            },
        };
        let _ = roots.remove(key);
        self.tables.versions.insert(*head, roots);
        proof {
            let db = self.tables.db();
            assert(db.versions =~= before.db().versions);
            assert(db.roots =~= before.db().roots.remove((*head, key@)));
            assert(db.log =~= before.db().log);
        }
        Ok(())
    }

    fn keep_versions(&mut self, keep: &Vec<EnvelopeDigest>) -> (done: Result<(), Self::Error>)
        ensures
            done is Ok,
    {
        let ghost before = self.tables;
        let mut kept: SortedMap<EnvelopeDigest, Roots> = SortedMap::new();
        let mut i: usize = 0;
        while i < keep.len()
            invariant
                i <= keep@.len(),
                self.tables == before,
                self.saved == old(self).saved,
                before.wf(),
                kept.wf(),
                forall|head: EnvelopeDigest| #[trigger]
                    kept@.contains_key(head) ==> before.versions@.contains_key(head)
                        && keep@.contains(head) && kept@[head].wf() && kept@[head]@
                        == before.versions@[head]@,
                forall|j: int|
                    0 <= j < i && before.versions@.contains_key(#[trigger] keep@[j])
                        ==> kept@.contains_key(keep@[j]),
            decreases keep@.len() - i,
        {
            match self.tables.versions.get(&keep[i]) {
                Some(roots) => {
                    kept.insert(keep[i], copy_roots_of(roots));
                },
                None => {},
            }
            i += 1;
        }
        self.tables.versions = kept;
        proof {
            let db = self.tables.db();
            assert forall|head: EnvelopeDigest| keep@.contains(head)
                && before.versions@.contains_key(head) implies #[trigger] kept@.contains_key(
                head,
            ) by {
                let j = choose|j: int| 0 <= j < keep@.len() && keep@[j] == head;
                assert(kept@.contains_key(keep@[j]));
            }
            assert(db.versions =~= before.db().versions.intersect(keep@.to_set()));
            assert(db.roots =~= roots_kept(before.db().roots, keep@.to_set()));
            assert(db.log =~= before.db().log);
        }
        Ok(())
    }

    fn sweep(&mut self) -> (done: Result<(), Self::Error>)
        ensures
            done is Ok,
    {
        let ghost before = self.tables;
        let marks = mark(&self.tables);
        let n: usize = marks.len();
        let mut kept: SortedMap<i64, TableNode> = SortedMap::new();
        let mut i: usize = 0;
        while i < n
            invariant
                i <= n == marks@.len(),
                n == before.nodes.entries@.len(),
                self.tables == before,
                self.saved == old(self).saved,
                before.wf(),
                marked(before, marks@),
                kept.wf(),
                forall|id: i64| #[trigger]
                    kept@.contains_key(id) ==> before.nodes@.contains_key(id) && id > 0
                        && kept@[id].wf() && alike(kept@[id], before.nodes@[id])
                        && before.db().reached(id),
                forall|j: int|
                    0 <= j < i && marks@[j] ==> kept@.contains_key(
                        (#[trigger] before.nodes.entries@[j]).0,
                    ),
            decreases n - i,
        {
            if marks[i] {
                let entry = &self.tables.nodes.entries[i];
                proof {
                    before.nodes.filed_once(i as int, entry.0);
                    assert(before.nodes@.contains_key(entry.0));
                }
                let node = TableNode {
                    code: entry.1.code,
                    leaf: copy_leaf(&entry.1.leaf),
                    fields: copy_edges(&entry.1.fields),
                    items: copy_children(&entry.1.items),
                };
                kept.insert(entry.0, node);
            }
            i += 1;
        }
        self.tables.nodes = kept;
        proof {
            let db = self.tables.db();
            let want = before.db().swept();
            assert forall|id: i64| #[trigger] before.db().live().contains(id) implies kept@.contains_key(
                id,
            ) by {
                before.nodes.filed_somewhere(id);
                let j = before.nodes.index_of(id);
                assert(marks@[j]);
                assert(kept@.contains_key(before.nodes.entries@[j].0));
            }
            assert forall|id: i64| #[trigger] kept@.contains_key(id) implies before.db().live().contains(
                id,
            ) by {}
            assert(db.nodes =~= want.nodes);
            assert(db.fields =~= want.fields);
            assert(db.items =~= want.items);
            assert(db.log =~= want.log);
        }
        Ok(())
    }

    fn release(&mut self) -> (done: Result<(), Self::Error>)
        ensures
            done is Ok,
    {
        Ok(())
    }

    fn put_envelope(&mut self, digest: &EnvelopeDigest, row: EnvelopeRow) -> (done: Result<
        (),
        Self::Error,
    >)
        ensures
            done is Ok,
    {
        let ghost before = self.tables;
        let mut row = row;
        let ghost given = row@;
        match self.tables.log.get(digest) {
            Some(filed) => {
                row.stored_at = filed.stored_at;
            },
            None => {},
        }
        let ghost stored = row@;
        self.tables.log.insert(*digest, row);
        proof {
            let db = self.tables.db();
            assert(db.log =~= before.db().log.insert(*digest, stored));
        }
        Ok(())
    }

    fn envelope(&self, digest: &EnvelopeDigest) -> (row: Result<Option<EnvelopeRow>, Self::Error>)
        ensures
            row is Ok,
    {
        match self.tables.log.get(digest) {
            Some(row) => Ok(Some(copy_row(row))),
            None => Ok(None),
        }
    }

    fn prev(&self, digest: &EnvelopeDigest) -> (prev: Result<Option<Vec<u8>>, Self::Error>)
        ensures
            prev is Ok,
    {
        match self.tables.log.get(digest) {
            Some(row) => match row.envelope.payload.prev_digest() {
                Some(prev) => Ok(Some(digest_bytes(&prev))),
                None => Ok(None),
            },
            None => Ok(None),
        }
    }

    fn remove_envelope(&mut self, digest: &EnvelopeDigest) -> (done: Result<(), Self::Error>)
        ensures
            done is Ok,
    {
        let ghost before = self.tables;
        let _ = self.tables.log.remove(digest);
        proof {
            let db = self.tables.db();
            assert(db.log =~= before.db().log.remove(*digest));
        }
        Ok(())
    }

    fn all_nodes(&self) -> (nodes: Result<Vec<(i64, i64)>, Self::Error>)
        ensures
            nodes is Ok,
    {
        let nodes = &self.tables.nodes;
        let mut list: Vec<(i64, i64)> = Vec::new();
        let mut i: usize = 0;
        while i < nodes.entries.len()
            invariant
                i <= nodes.entries@.len(),
                list@.len() == i,
                forall|j: int|
                    0 <= j < i ==> #[trigger] list@[j] == (
                        nodes.entries@[j].0,
                        nodes.entries@[j].1.code,
                    ),
            decreases nodes.entries@.len() - i,
        {
            list.push((nodes.entries[i].0, nodes.entries[i].1.code));
            i += 1;
        }
        proof {
            assert forall|j: int| 0 <= j < list@.len() implies self.db().nodes.contains_key(
                (#[trigger] list@[j]).0,
            ) && self.db().nodes[list@[j].0].code == list@[j].1 by {
                nodes.filed_once(j, list@[j].0);
            }
            assert forall|id: i64| #[trigger] self.db().nodes.contains_key(id) implies exists|j: int|
                0 <= j < list@.len() && (#[trigger] list@[j]).0 == id by {
                nodes.filed_somewhere(id);
                assert(list@[nodes.index_of(id)].0 == id);
            }
        }
        Ok(list)
    }

    fn all_fields(&self) -> (edges: Result<Vec<(i64, String, i64)>, Self::Error>)
        ensures
            edges is Ok,
    {
        let nodes = &self.tables.nodes;
        let ghost db = self.db();
        let mut edges: Vec<(i64, String, i64)> = Vec::new();
        let mut i: usize = 0;
        while i < nodes.entries.len()
            invariant
                i <= nodes.entries@.len(),
                self.wf(),
                *nodes == self.tables.nodes,
                db == self.db(),
                forall|e: int|
                    0 <= e < edges@.len() ==> db.fields.contains_key(
                        ((#[trigger] edges@[e]).0, edges@[e].1@),
                    ) && db.fields[(edges@[e].0, edges@[e].1@)] == edges@[e].2,
                forall|j: int, k: Seq<char>|
                    0 <= j < i && #[trigger] nodes.entries@[j].1.fields@.contains_key(k)
                        ==> exists|e: int|
                        0 <= e < edges@.len() && (#[trigger] edges@[e]).0 == nodes.entries@[j].0
                            && edges@[e].1@ == k,
            decreases nodes.entries@.len() - i,
        {
            let id: i64 = nodes.entries[i].0;
            let fields = &nodes.entries[i].1.fields;
            let ghost start = edges@;
            proof {
                nodes.filed_once(i as int, id);
                assert(nodes@.contains_key(id));
                assert(nodes@[id].wf());
            }
            let mut f: usize = 0;
            while f < fields.entries.len()
                invariant
                    f <= fields.entries@.len(),
                    fields.wf(),
                    db.nodes.contains_key(id),
                    forall|k: Seq<char>| #[trigger]
                        fields@.contains_key(k) ==> db.fields.contains_key((id, k))
                            && db.fields[(id, k)] == fields@[k],
                    edges@.len() == start.len() + f,
                    forall|e: int|
                        0 <= e < start.len() ==> #[trigger] edges@[e] == start[e],
                    forall|e: int|
                        0 <= e < f ==> (#[trigger] edges@[start.len() + e]).0 == id
                            && edges@[start.len() + e].1@ == fields.entries@[e].0@
                            && edges@[start.len() + e].2 == fields.entries@[e].1,
                    forall|e: int|
                        0 <= e < edges@.len() ==> db.fields.contains_key(
                            ((#[trigger] edges@[e]).0, edges@[e].1@),
                        ) && db.fields[(edges@[e].0, edges@[e].1@)] == edges@[e].2,
                decreases fields.entries@.len() - f,
            {
                let entry = &fields.entries[f];
                proof {
                    fields.filed_once(f as int, entry.0@);
                    assert(fields@.contains_key(entry.0@));
                }
                edges.push((id, entry.0.clone(), entry.1));
                f += 1;
            }
            proof {
                assert forall|j: int, k: Seq<char>|
                    0 <= j < i + 1 && #[trigger] nodes.entries@[j].1.fields@.contains_key(
                        k,
                    ) implies exists|e: int|
                    0 <= e < edges@.len() && (#[trigger] edges@[e]).0 == nodes.entries@[j].0
                        && edges@[e].1@ == k by {
                    if j < i {
                        let e = choose|e: int|
                            0 <= e < start.len() && (#[trigger] start[e]).0
                                == nodes.entries@[j].0 && start[e].1@ == k;
                        assert(edges@[e] == start[e]);
                    } else {
                        fields.filed_somewhere(k);
                        let e = start.len() + fields.index_of(k);
                        assert(edges@[e].0 == id);
                    }
                }
            }
            i += 1;
        }
        proof {
            assert forall|p: i64, k: Seq<char>| #[trigger]
                db.fields.contains_key((p, k)) implies exists|e: int|
                0 <= e < edges@.len() && (#[trigger] edges@[e]).0 == p && edges@[e].1@ == k by {
                nodes.filed_somewhere(p);
                let j = nodes.index_of(p);
                assert(nodes.entries@[j].1.fields@.contains_key(k));
            }
        }
        Ok(edges)
    }

    fn all_items(&self) -> (edges: Result<Vec<(i64, i64, i64)>, Self::Error>)
        ensures
            edges is Ok,
    {
        let nodes = &self.tables.nodes;
        let ghost db = self.db();
        let mut edges: Vec<(i64, i64, i64)> = Vec::new();
        let mut i: usize = 0;
        while i < nodes.entries.len()
            invariant
                i <= nodes.entries@.len(),
                self.wf(),
                *nodes == self.tables.nodes,
                db == self.db(),
                in_places(edges@),
                forall|e: int|
                    0 <= e < edges@.len() ==> db.items.contains_key(
                        ((#[trigger] edges@[e]).0, edges@[e].1),
                    ) && db.items[(edges@[e].0, edges@[e].1)] == edges@[e].2 && (i
                        < nodes.entries@.len() ==> edges@[e].0 < nodes.entries@[i as int].0),
                forall|j: int, k: int|
                    0 <= j < i && 0 <= k < nodes.entries@[j].1.items@.len() ==> #[trigger] has_edge(
                        edges@,
                        nodes.entries@[j].0,
                        k,
                    ),
            decreases nodes.entries@.len() - i,
        {
            let id: i64 = nodes.entries[i].0;
            let items = &nodes.entries[i].1.items;
            let ghost start = edges@;
            proof {
                nodes.filed_once(i as int, id);
                assert(nodes@.contains_key(id));
                assert(nodes@[id].wf());
            }
            let mut f: usize = 0;
            while f < items.len()
                invariant
                    f <= items@.len() <= i64::MAX,
                    in_places(edges@),
                    db.nodes.contains_key(id),
                    forall|k: int|
                        0 <= k < items@.len() ==> db.items.contains_key((id, k as i64))
                            && db.items[(id, k as i64)] == #[trigger] items@[k],
                    edges@.len() == start.len() + f,
                    forall|e: int| 0 <= e < start.len() ==> #[trigger] edges@[e] == start[e],
                    forall|e: int| 0 <= e < start.len() ==> (#[trigger] edges@[e]).0 < id,
                    forall|e: int|
                        0 <= e < f ==> #[trigger] edges@[start.len() + e] == (
                            id,
                            e as i64,
                            items@[e],
                        ),
                    forall|e: int|
                        0 <= e < edges@.len() ==> db.items.contains_key(
                            ((#[trigger] edges@[e]).0, edges@[e].1),
                        ) && db.items[(edges@[e].0, edges@[e].1)] == edges@[e].2,
                decreases items@.len() - f,
            {
                assert(items@[f as int] == db.items[(id, f as i64)]);
                let ghost before = edges@;
                edges.push((id, f as i64, items[f]));
                proof {
                    assert forall|a: int, b: int| 0 <= a < b < edges@.len() implies (
                    #[trigger] edges@[a]).0 < (#[trigger] edges@[b]).0 || (edges@[a].0
                        == edges@[b].0 && edges@[a].1 < edges@[b].1) by {
                        if b < before.len() {
                            assert(before[a] == edges@[a] && before[b] == edges@[b]);
                        } else if a < start.len() {
                            assert(before[a].0 < id);
                        } else {
                            let e = a - start.len();
                            assert(before[start.len() + e] == (id, e as i64, items@[e]));
                        }
                    }
                }
                f += 1;
            }
            proof {
                assert forall|e: int| 0 <= e < edges@.len() && i + 1
                    < nodes.entries@.len() implies (#[trigger] edges@[e]).0
                    < nodes.entries@[i + 1].0 by {
                    assert(<i64 as Ordered>::lt(
                        nodes.entries@[i as int].0@,
                        nodes.entries@[i + 1].0@,
                    ));
                    if e >= start.len() {
                        let x = e - start.len();
                        assert(edges@[start.len() + x].0 == id);
                    }
                }
                assert forall|j: int, k: int|
                    0 <= j < i + 1 && 0 <= k
                        < nodes.entries@[j].1.items@.len() implies #[trigger] has_edge(
                    edges@,
                    nodes.entries@[j].0,
                    k,
                ) by {
                    if j < i {
                        assert(has_edge(start, nodes.entries@[j].0, k));
                        let e = choose|e: int|
                            0 <= e < start.len() && (#[trigger] start[e]).0
                                == nodes.entries@[j].0 && start[e].1 == k;
                        assert(edges@[e] == start[e]);
                    } else {
                        assert(edges@[start.len() + k] == (id, k as i64, items@[k]));
                    }
                }
            }
            i += 1;
        }
        proof {
            assert forall|p: i64, k: i64| #[trigger]
                db.items.contains_key((p, k)) implies exists|e: int|
                0 <= e < edges@.len() && (#[trigger] edges@[e]).0 == p && edges@[e].1 == k by {
                nodes.filed_somewhere(p);
                let j = nodes.index_of(p);
                assert(has_edge(edges@, nodes.entries@[j].0, k as int));
            }
        }
        Ok(edges)
    }

    fn all_roots(&self) -> (list: Result<Vec<(EnvelopeDigest, String, i64)>, Self::Error>)
        ensures
            list is Ok,
    {
        let versions = &self.tables.versions;
        let ghost db = self.db();
        let mut list: Vec<(EnvelopeDigest, String, i64)> = Vec::new();
        let mut i: usize = 0;
        while i < versions.entries.len()
            invariant
                i <= versions.entries@.len(),
                self.wf(),
                *versions == self.tables.versions,
                db == self.db(),
                forall|e: int|
                    0 <= e < list@.len() ==> db.roots.contains_key(
                        ((#[trigger] list@[e]).0, list@[e].1@),
                    ) && db.roots[(list@[e].0, list@[e].1@)] == list@[e].2,
                forall|j: int, k: Seq<char>|
                    0 <= j < i && #[trigger] versions.entries@[j].1@.contains_key(k) ==> exists|
                        e: int,
                    |
                        0 <= e < list@.len() && (#[trigger] list@[e]).0 == versions.entries@[j].0
                            && list@[e].1@ == k,
            decreases versions.entries@.len() - i,
        {
            let head = versions.entries[i].0;
            let roots = &versions.entries[i].1;
            let ghost start = list@;
            proof {
                versions.filed_once(i as int, head);
                assert(versions@.contains_key(head));
                assert(versions@[head].wf());
            }
            let mut f: usize = 0;
            while f < roots.entries.len()
                invariant
                    f <= roots.entries@.len(),
                    roots.wf(),
                    forall|k: Seq<char>| #[trigger]
                        roots@.contains_key(k) ==> db.roots.contains_key((head, k))
                            && db.roots[(head, k)] == roots@[k],
                    list@.len() == start.len() + f,
                    forall|e: int| 0 <= e < start.len() ==> #[trigger] list@[e] == start[e],
                    forall|e: int|
                        0 <= e < f ==> (#[trigger] list@[start.len() + e]).0 == head
                            && list@[start.len() + e].1@ == roots.entries@[e].0@,
                    forall|e: int|
                        0 <= e < list@.len() ==> db.roots.contains_key(
                            ((#[trigger] list@[e]).0, list@[e].1@),
                        ) && db.roots[(list@[e].0, list@[e].1@)] == list@[e].2,
                decreases roots.entries@.len() - f,
            {
                let entry = &roots.entries[f];
                proof {
                    roots.filed_once(f as int, entry.0@);
                    assert(roots@.contains_key(entry.0@));
                }
                list.push((head, entry.0.text.clone(), entry.1));
                f += 1;
            }
            proof {
                assert forall|j: int, k: Seq<char>|
                    0 <= j < i + 1 && #[trigger] versions.entries@[j].1@.contains_key(
                        k,
                    ) implies exists|e: int|
                    0 <= e < list@.len() && (#[trigger] list@[e]).0 == versions.entries@[j].0
                        && list@[e].1@ == k by {
                    if j < i {
                        let e = choose|e: int|
                            0 <= e < start.len() && (#[trigger] start[e]).0
                                == versions.entries@[j].0 && start[e].1@ == k;
                        assert(list@[e] == start[e]);
                    } else {
                        roots.filed_somewhere(k);
                        let e = start.len() + roots.index_of(k);
                        assert(list@[e].0 == head);
                    }
                }
            }
            i += 1;
        }
        proof {
            assert forall|h: EnvelopeDigest, k: Seq<char>| #[trigger]
                db.roots.contains_key((h, k)) implies exists|e: int|
                0 <= e < list@.len() && (#[trigger] list@[e]).0 == h && list@[e].1@ == k by {
                versions.filed_somewhere(h);
                let j = versions.index_of(h);
                assert(versions.entries@[j].1@.contains_key(k));
            }
        }
        Ok(list)
    }

    fn all_logged(&self) -> (digests: Result<Vec<EnvelopeDigest>, Self::Error>)
        ensures
            digests is Ok,
    {
        let log = &self.tables.log;
        let mut digests: Vec<EnvelopeDigest> = Vec::new();
        let mut i: usize = 0;
        while i < log.entries.len()
            invariant
                i <= log.entries@.len(),
                digests@.len() == i,
                forall|j: int| 0 <= j < i ==> #[trigger] digests@[j] == log.entries@[j].0,
            decreases log.entries@.len() - i,
        {
            digests.push(log.entries[i].0);
            i += 1;
        }
        proof {
            assert forall|digest: EnvelopeDigest|
                #![trigger self.db().log.contains_key(digest)]
                #![trigger digests@.contains(digest)]
                self.db().log.contains_key(digest) <==> digests@.contains(digest) by {
                if self.db().log.contains_key(digest) {
                    log.filed_somewhere(digest);
                    assert(digests@[log.index_of(digest)] == digest);
                }
                if digests@.contains(digest) {
                    let j = choose|j: int| 0 <= j < digests@.len() && digests@[j] == digest;
                    log.filed_once(j, digest);
                }
            }
        }
        Ok(digests)
    }

    fn followers(&self, parent: &EnvelopeDigest) -> (digests: Result<Vec<Vec<u8>>, Self::Error>)
        ensures
            digests is Ok,
    {
        let found = find_followers(&self.tables.log, parent);
        let ghost db = self.db();
        let n: usize = found.len();
        let mut blobs: Vec<Vec<u8>> = Vec::new();
        let mut i: usize = 0;
        while i < n
            invariant
                i <= n == found@.len(),
                blobs@.len() == i,
                forall|j: int| 0 <= j < i ==> (#[trigger] blobs@[j])@ == found@[j].bytes@,
            decreases n - i,
        {
            blobs.push(digest_bytes(&found[i]));
            i += 1;
        }
        proof {
            assert forall|a: int, b: int| 0 <= a < b < n implies bytes_lt(
                (#[trigger] blobs@[a])@,
                (#[trigger] blobs@[b])@,
            ) by {
                assert(<EnvelopeDigest as Ordered>::lt(found@[a], found@[b]));
            }
            assert forall|a: int| 0 <= a < n implies db.lists_follower(
                (#[trigger] blobs@[a])@,
                parent.bytes@,
            ) by {
                let d = found@[a];
                assert(self.tables.log@.contains_key(d));
                assert(blobs@[a]@ == d.bytes@);
                assert(db.follows(d, parent.bytes@));
            }
            assert forall|d: EnvelopeDigest| #[trigger]
                db.follows(d, parent.bytes@) implies listed(blobs@, d.bytes@) by {
                assert(self.tables.log@.contains_key(d));
                same_bytes_same_digest(db.log[d].letter.payload.prev()->0, *parent);
                assert(found@.contains(d));
                let a = choose|a: int| 0 <= a < n && found@[a] == d;
                assert(blobs@[a]@ == d.bytes@);
            }
        }
        Ok(blobs)
    }
}

/// The digests of the rows that follow `parent`, in order.
fn find_followers(
    log: &SortedMap<EnvelopeDigest, EnvelopeRow>,
    parent: &EnvelopeDigest,
) -> (found: Vec<EnvelopeDigest>)
    requires
        log.wf(),
    ensures
        forall|a: int, b: int|
            0 <= a < b < found@.len() ==> <EnvelopeDigest as Ordered>::lt(
                #[trigger] found@[a],
                #[trigger] found@[b],
            ),
        forall|a: int|
            0 <= a < found@.len() ==> log@.contains_key(#[trigger] found@[a])
                && log@[found@[a]]@.letter.payload.prev() == Some(*parent),
        forall|d: EnvelopeDigest| #[trigger]
            log@.contains_key(d) && log@[d]@.letter.payload.prev() == Some(*parent)
                ==> found@.contains(d),
{
    let mut found: Vec<EnvelopeDigest> = Vec::new();
    let mut i: usize = 0;
    while i < log.entries.len()
        invariant
            i <= log.entries@.len(),
            log.wf(),
            forall|a: int, b: int|
                0 <= a < b < found@.len() ==> <EnvelopeDigest as Ordered>::lt(
                    #[trigger] found@[a],
                    #[trigger] found@[b],
                ),
            forall|a: int, m: int|
                0 <= a < found@.len() && i <= m < log.entries@.len()
                    ==> <EnvelopeDigest as Ordered>::lt(
                    #[trigger] found@[a],
                    (#[trigger] log.entries@[m]).0,
                ),
            forall|a: int|
                0 <= a < found@.len() ==> log@.contains_key(#[trigger] found@[a])
                    && log@[found@[a]]@.letter.payload.prev() == Some(*parent),
            forall|j: int|
                0 <= j < i && (#[trigger] log.entries@[j]).1@.letter.payload.prev() == Some(*parent)
                    ==> found@.contains(log.entries@[j].0),
        decreases log.entries@.len() - i,
    {
        let entry = &log.entries[i];
        let ghost so_far = found@;
        let follows: bool = match entry.1.envelope.payload.prev_digest() {
            Some(prev) => prev == *parent,
            None => false,
        };
        proof {
            log.filed_once(i as int, entry.0);
            assert forall|m: int| i < m < log.entries@.len() implies <EnvelopeDigest as Ordered>::lt(
                entry.0,
                (#[trigger] log.entries@[m]).0,
            ) by {
                assert(<EnvelopeDigest as Ordered>::lt(
                    log.entries@[i as int].0@,
                    log.entries@[m].0@,
                ));
            }
        }
        if follows {
            found.push(entry.0);
        }
        proof {
            if follows {
                assert(found@[so_far.len() as int] == entry.0);
            }
            assert forall|d: EnvelopeDigest| so_far.contains(d) implies #[trigger] found@.contains(
                d,
            ) by {
                let a = choose|a: int| 0 <= a < so_far.len() && so_far[a] == d;
                assert(found@[a] == d);
            }
        }
        i += 1;
    }
    proof {
        assert forall|d: EnvelopeDigest| #[trigger] log@.contains_key(d)
            && log@[d]@.letter.payload.prev() == Some(*parent) implies found@.contains(d) by {
            log.filed_somewhere(d);
            let j = log.index_of(d);
            assert(log.entries@[j].1@.letter.payload.prev() == Some(*parent));
        }
    }
    found
}

/// The bytes of a digest.
fn digest_bytes(digest: &EnvelopeDigest) -> (blob: Vec<u8>)
    ensures
        blob@ == digest.bytes@,
{
    let mut blob: Vec<u8> = Vec::new();
    let mut i: usize = 0;
    while i < 32
        invariant
            i <= 32,
            blob@ == digest.bytes@.take(i as int),
        decreases 32 - i,
    {
        blob.push(digest.bytes[i]);
        i += 1;
        assert(blob@ =~= digest.bytes@.take(i as int));
    }
    assert(digest.bytes@.take(32) =~= digest.bytes@);
    blob
}

/// Whether just the nodes that some root reaches are marked.
spec fn marked(tables: Tables, marks: Seq<bool>) -> bool {
    &&& marks.len() == tables.nodes.entries@.len()
    &&& forall|j: int|
        0 <= j < marks.len() ==> #[trigger] marks[j] == tables.db().reached(
            tables.nodes.entries@[j].0,
        )
}

/// Whether the node at `p` passes its mark on to all its children.
spec fn passes_on(tables: Tables, marks: Seq<bool>, p: int) -> bool {
    let id = tables.nodes.entries@[p].0;
    marks[p] ==> {
        &&& forall|k: Seq<char>| #[trigger]
            tables.db().fields.contains_key((id, k)) ==> has_mark(
                tables,
                marks,
                tables.db().fields[(id, k)],
            )
        &&& forall|i: i64| #[trigger]
            tables.db().items.contains_key((id, i)) ==> has_mark(
                tables,
                marks,
                tables.db().items[(id, i)],
            )
    }
}

/// Whether the node `id` is marked.
spec fn has_mark(tables: Tables, marks: Seq<bool>, id: i64) -> bool {
    0 <= tables.nodes.index_of(id) < marks.len() && marks[tables.nodes.index_of(id)]
}

/// Whether only nodes that some root reaches are marked.
spec fn only_reached(tables: Tables, marks: Seq<bool>) -> bool {
    &&& marks.len() == tables.nodes.entries@.len()
    &&& forall|j: int|
        0 <= j < marks.len() && #[trigger] marks[j] ==> tables.db().reached(
            tables.nodes.entries@[j].0,
        )
}

/// Marks the node `id`.
fn set_mark(tables: &Tables, marks: &mut Vec<bool>, id: i64)
    requires
        tables.wf(),
        tables.nodes@.contains_key(id),
        tables.db().reached(id),
        only_reached(*tables, old(marks)@),
    ensures
        only_reached(*tables, final(marks)@),
        final(marks)@ == old(marks)@.update(tables.nodes.index_of(id), true),
        0 <= tables.nodes.index_of(id) < old(marks)@.len(),
        tables.nodes.entries@[tables.nodes.index_of(id)].0 == id,
{
    match find_node(tables, id) {
        Some(i) => {
            proof {
                tables.nodes.filed_once(i as int, id);
            }
            marks.set(i, true);
        },
        None => {
            assert(false);
        },
    }
}

/// Marks the roots of every version.
fn mark_roots(tables: &Tables, marks: &mut Vec<bool>)
    requires
        tables.wf(),
        tables.db().sound(),
        only_reached(*tables, old(marks)@),
    ensures
        only_reached(*tables, final(marks)@),
        forall|head: EnvelopeDigest, k: Seq<char>| #[trigger]
            tables.db().roots.contains_key((head, k)) ==> has_mark(
                *tables,
                final(marks)@,
                tables.db().roots[(head, k)],
            ),
{
    let ghost db = tables.db();
    let versions = &tables.versions;
    let mut v: usize = 0;
    while v < versions.entries.len()
        invariant
            v <= versions.entries@.len(),
            *versions == tables.versions,
            tables.wf(),
            db == tables.db(),
            db.sound(),
            only_reached(*tables, marks@),
            forall|w: int, k: Seq<char>|
                0 <= w < v && #[trigger] versions.entries@[w].1@.contains_key(k) ==> has_mark(
                    *tables,
                    marks@,
                    versions.entries@[w].1@[k],
                ),
        decreases versions.entries@.len() - v,
    {
        let head = versions.entries[v].0;
        let roots = &versions.entries[v].1;
        proof {
            versions.filed_once(v as int, head);
            assert(versions@.contains_key(head));
        }
        let mut r: usize = 0;
        while r < roots.entries.len()
            invariant
                r <= roots.entries@.len(),
                v < versions.entries@.len(),
                *versions == tables.versions,
                head == versions.entries@[v as int].0,
                *roots == versions.entries@[v as int].1,
                versions@.contains_key(head),
                versions@[head] == *roots,
                roots.wf(),
                tables.wf(),
                db == tables.db(),
                db.sound(),
                only_reached(*tables, marks@),
                forall|w: int, k: Seq<char>|
                    0 <= w < v && #[trigger] versions.entries@[w].1@.contains_key(k) ==> has_mark(
                        *tables,
                        marks@,
                        versions.entries@[w].1@[k],
                    ),
                forall|j: int|
                    0 <= j < r ==> has_mark(*tables, marks@, (#[trigger] roots.entries@[j]).1),
            decreases roots.entries@.len() - r,
        {
            let id: i64 = roots.entries[r].1;
            let ghost so_far = marks@;
            proof {
                let k = roots.entries@[r as int].0@;
                roots.filed_once(r as int, k);
                assert(db.roots.contains_key((head, k)));
                assert(db.is_root(id));
                assert(db.reached_in(id, 0));
            }
            set_mark(tables, marks, id);
            r += 1;
        }
        proof {
            assert forall|k: Seq<char>| #[trigger] roots@.contains_key(k) implies has_mark(
                *tables,
                marks@,
                roots@[k],
            ) by {
                roots.filed_somewhere(k);
                assert(has_mark(*tables, marks@, roots.entries@[roots.index_of(k)].1));
            }
        }
        v += 1;
    }
    proof {
        assert forall|head: EnvelopeDigest, k: Seq<char>| #[trigger]
            db.roots.contains_key((head, k)) implies has_mark(
            *tables,
            marks@,
            db.roots[(head, k)],
        ) by {
            versions.filed_somewhere(head);
            let w = versions.index_of(head);
            assert(versions.entries@[w].1@.contains_key(k));
        }
    }
}

/// Passes the mark of the node at `p` on to its children.
fn pass_on(tables: &Tables, marks: &mut Vec<bool>, p: usize)
    requires
        tables.wf(),
        tables.db().sound(),
        only_reached(*tables, old(marks)@),
        p < old(marks)@.len(),
        old(marks)@[p as int],
    ensures
        only_reached(*tables, final(marks)@),
        passes_on(*tables, final(marks)@, p as int),
        forall|j: int|
            0 <= j < final(marks)@.len() && old(marks)@[j] ==> #[trigger] final(marks)@[j],
{
    let ghost db = tables.db();
    let ghost given = marks@;
    let id: i64 = tables.nodes.entries[p].0;
    let node = &tables.nodes.entries[p].1;
    proof {
        tables.nodes.filed_once(p as int, id);
        assert(tables.nodes@.contains_key(id));
        assert(db.nodes.contains_key(id));
    }
    let mut i: usize = 0;
    while i < node.fields.entries.len()
        invariant
            i <= node.fields.entries@.len(),
            p < marks@.len(),
            marks@.len() == given.len(),
            tables.wf(),
            db == tables.db(),
            db.sound(),
            tables.nodes.filed(p as int, id),
            tables.nodes@.contains_key(id),
            tables.nodes@[id] == *node,
            node.fields.wf(),
            db.reached(id),
            only_reached(*tables, marks@),
            forall|j: int| 0 <= j < marks@.len() && given[j] ==> #[trigger] marks@[j],
            forall|j: int|
                0 <= j < i ==> has_mark(*tables, marks@, (#[trigger] node.fields.entries@[j]).1),
        decreases node.fields.entries@.len() - i,
    {
        let child: i64 = node.fields.entries[i].1;
        proof {
            let k = node.fields.entries@[i as int].0@;
            node.fields.filed_once(i as int, k);
            assert(db.fields.contains_key((id, k)));
            assert(db.edge(id, child));
            reaching_goes_on(db, id, child);
        }
        set_mark(tables, marks, child);
        i += 1;
    }
    let ghost after_fields = marks@;
    let mut i: usize = 0;
    while i < node.items.len()
        invariant
            i <= node.items@.len(),
            p < marks@.len(),
            marks@.len() == given.len(),
            tables.wf(),
            db == tables.db(),
            db.sound(),
            tables.nodes.filed(p as int, id),
            tables.nodes@.contains_key(id),
            tables.nodes@[id] == *node,
            node.items@.len() <= i64::MAX,
            db.reached(id),
            only_reached(*tables, marks@),
            forall|j: int| 0 <= j < marks@.len() && given[j] ==> #[trigger] marks@[j],
            forall|j: int| 0 <= j < marks@.len() && after_fields[j] ==> #[trigger] marks@[j],
            forall|j: int|
                0 <= j < i ==> has_mark(*tables, marks@, #[trigger] node.items@[j]),
        decreases node.items@.len() - i,
    {
        let child: i64 = node.items[i];
        proof {
            assert(db.items.contains_key((id, i as i64)));
            assert(db.edge(id, child));
            reaching_goes_on(db, id, child);
        }
        set_mark(tables, marks, child);
        i += 1;
    }
    proof {
        assert forall|k: Seq<char>| #[trigger] db.fields.contains_key((id, k)) implies has_mark(
            *tables,
            marks@,
            db.fields[(id, k)],
        ) by {
            node.fields.filed_somewhere(k);
            let j = node.fields.index_of(k);
            let child = node.fields.entries@[j].1;
            assert(has_mark(*tables, after_fields, child));
            tables.nodes.filed_somewhere(child);
        }
        assert forall|i: i64| #[trigger] db.items.contains_key((id, i)) implies has_mark(
            *tables,
            marks@,
            db.items[(id, i)],
        ) by {
            assert(has_mark(*tables, marks@, node.items@[i as int]));
        }
    }
}

/// Marks that pass on all the way down mark all that is reached.
proof fn all_reached(tables: Tables, marks: Seq<bool>, id: i64, n: nat)
    requires
        tables.wf(),
        tables.db().sound(),
        marks.len() == tables.nodes.entries@.len(),
        forall|p: int| 0 <= p < marks.len() ==> #[trigger] passes_on(tables, marks, p),
        forall|head: EnvelopeDigest, k: Seq<char>| #[trigger]
            tables.db().roots.contains_key((head, k)) ==> has_mark(
                tables,
                marks,
                tables.db().roots[(head, k)],
            ),
        tables.db().reached_in(id, n),
    ensures
        has_mark(tables, marks, id),
    decreases n,
{
    let db = tables.db();
    if db.is_root(id) {
        let (head, k) = choose|head: EnvelopeDigest, k: Seq<char>| #[trigger]
            db.roots.contains_key((head, k)) && db.roots[(head, k)] == id;
        assert(has_mark(tables, marks, db.roots[(head, k)]));
    } else {
        let parent = choose|parent: i64| #[trigger]
            db.edge(parent, id) && db.reached_in(parent, (n - 1) as nat);
        all_reached(tables, marks, parent, (n - 1) as nat);
        assert(db.nodes.contains_key(parent));
        assert(tables.nodes@.contains_key(parent));
        tables.nodes.filed_somewhere(parent);
        let p = tables.nodes.index_of(parent);
        assert(passes_on(tables, marks, p));
        if exists|k: Seq<char>| #[trigger]
            db.fields.contains_key((parent, k)) && db.fields[(parent, k)] == id {
            let k = choose|k: Seq<char>| #[trigger]
                db.fields.contains_key((parent, k)) && db.fields[(parent, k)] == id;
            assert(has_mark(tables, marks, db.fields[(parent, k)]));
        } else {
            let i = choose|i: i64| #[trigger]
                db.items.contains_key((parent, i)) && db.items[(parent, i)] == id;
            assert(has_mark(tables, marks, db.items[(parent, i)]));
        }
    }
}

/// How many of the first `n` nodes are not marked.
spec fn unmarked(marks: Seq<bool>, n: int) -> nat
    decreases n,
{
    if n <= 0 {
        0
    } else {
        unmarked(marks, n - 1) + if marks[n - 1] {
            0nat
        } else {
            1
        }
    }
}

/// More marks leave fewer nodes without one, and as many leave the marks as
/// they were.
proof fn marking_counts(given: Seq<bool>, marks: Seq<bool>, n: int)
    requires
        n <= given.len() == marks.len(),
        forall|j: int| 0 <= j < n && given[j] ==> #[trigger] marks[j],
    ensures
        unmarked(marks, n) <= unmarked(given, n),
        unmarked(marks, n) == unmarked(given, n) ==> forall|j: int|
            0 <= j < n ==> #[trigger] marks[j] == given[j],
    decreases n,
{
    if n > 0 {
        assert(given[n - 1] ==> marks[n - 1]);
        marking_counts(given, marks, n - 1);
    }
}

/// Counts the nodes that are not marked.
fn count_unmarked(marks: &Vec<bool>) -> (count: usize)
    ensures
        count == unmarked(marks@, marks@.len() as int),
{
    let mut count: usize = 0;
    let mut i: usize = 0;
    while i < marks.len()
        invariant
            i <= marks@.len(),
            count == unmarked(marks@, i as int),
            count <= i,
        decreases marks@.len() - i,
    {
        if !marks[i] {
            count += 1;
        }
        i += 1;
    }
    count
}

/// Passes every mark on once, and says whether that marked anything.
fn pass_all_on(tables: &Tables, marks: &mut Vec<bool>) -> (more: bool)
    requires
        tables.wf(),
        tables.db().sound(),
        only_reached(*tables, old(marks)@),
        roots_marked(*tables, old(marks)@),
    ensures
        only_reached(*tables, final(marks)@),
        roots_marked(*tables, final(marks)@),
        final(marks)@.len() == old(marks)@.len(),
        more ==> unmarked(final(marks)@, final(marks)@.len() as int) < unmarked(
            old(marks)@,
            old(marks)@.len() as int,
        ),
        !more ==> {
            &&& unmarked(final(marks)@, final(marks)@.len() as int) == unmarked(
                old(marks)@,
                old(marks)@.len() as int,
            )
            &&& forall|p: int|
                0 <= p < final(marks)@.len() ==> #[trigger] passes_on(*tables, final(marks)@, p)
        },
{
    let ghost first = marks@;
    let n: usize = marks.len();
    let before: usize = count_unmarked(marks);
    let mut p: usize = 0;
    while p < n
        invariant
            p <= n == marks@.len(),
            first.len() == n,
            tables.wf(),
            tables.db().sound(),
            only_reached(*tables, marks@),
            roots_marked(*tables, marks@),
            forall|j: int| 0 <= j < n && first[j] ==> #[trigger] marks@[j],
            forall|q: int| 0 <= q < p && first[q] ==> #[trigger] passes_on(*tables, marks@, q),
        decreases n - p,
    {
        let ghost given = marks@;
        if marks[p] {
            pass_on(tables, marks, p);
        }
        proof {
            assert forall|q: int| 0 <= q <= p && first[q] implies #[trigger] passes_on(
                *tables,
                marks@,
                q,
            ) by {
                if q < p {
                    assert(passes_on(*tables, given, q));
                    marks_stay(*tables, given, marks@, q);
                }
            }
            roots_stay_marked(*tables, given, marks@);
        }
        p += 1;
    }
    let after: usize = count_unmarked(marks);
    proof {
        marking_counts(first, marks@, n as int);
        if after == before {
            assert forall|q: int| 0 <= q < n implies #[trigger] passes_on(*tables, marks@, q) by {
                assert(marks@[q] == first[q]);
            }
        }
    }
    after < before
}

/// Whether the roots of every version are marked.
spec fn roots_marked(tables: Tables, marks: Seq<bool>) -> bool {
    forall|head: EnvelopeDigest, k: Seq<char>| #[trigger]
        tables.db().roots.contains_key((head, k)) ==> has_mark(
            tables,
            marks,
            tables.db().roots[(head, k)],
        )
}

/// What was passed on stays so, as more is marked.
proof fn marks_stay(tables: Tables, given: Seq<bool>, marks: Seq<bool>, p: int)
    requires
        tables.wf(),
        tables.db().sound(),
        given.len() == marks.len() == tables.nodes.entries@.len(),
        forall|j: int| 0 <= j < marks.len() && given[j] ==> #[trigger] marks[j],
        passes_on(tables, given, p),
        0 <= p < marks.len(),
        given[p],
    ensures
        passes_on(tables, marks, p),
{
    let db = tables.db();
    let id = tables.nodes.entries@[p].0;
    assert forall|k: Seq<char>| #[trigger] db.fields.contains_key((id, k)) implies has_mark(
        tables,
        marks,
        db.fields[(id, k)],
    ) by {
        assert(has_mark(tables, given, db.fields[(id, k)]));
    }
    assert forall|i: i64| #[trigger] db.items.contains_key((id, i)) implies has_mark(
        tables,
        marks,
        db.items[(id, i)],
    ) by {
        assert(has_mark(tables, given, db.items[(id, i)]));
    }
}

/// Roots stay marked, as more is.
proof fn roots_stay_marked(tables: Tables, given: Seq<bool>, marks: Seq<bool>)
    requires
        given.len() == marks.len(),
        forall|j: int| 0 <= j < marks.len() && given[j] ==> #[trigger] marks[j],
        roots_marked(tables, given),
    ensures
        roots_marked(tables, marks),
{
    let db = tables.db();
    assert forall|head: EnvelopeDigest, k: Seq<char>| #[trigger]
        db.roots.contains_key((head, k)) implies has_mark(
        tables,
        marks,
        db.roots[(head, k)],
    ) by {
        assert(has_mark(tables, given, db.roots[(head, k)]));
    }
}

/// Marks the nodes that some root reaches: the roots, and then what a mark
/// is passed on to, until nothing more is marked.
fn mark(tables: &Tables) -> (marks: Vec<bool>)
    requires
        tables.wf(),
        tables.db().sound(),
    ensures
        marked(*tables, marks@),
{
    let ghost db = tables.db();
    let n: usize = tables.nodes.entries.len();
    let mut marks: Vec<bool> = Vec::new();
    let mut i: usize = 0;
    while i < n
        invariant
            i <= n,
            marks@.len() == i,
            forall|j: int| 0 <= j < i ==> !#[trigger] marks@[j],
        decreases n - i,
    {
        marks.push(false);
        i += 1;
    }
    mark_roots(tables, &mut marks);
    let mut more: bool = true;
    while more
        invariant
            n == tables.nodes.entries@.len(),
            marks@.len() == n,
            tables.wf(),
            tables.db().sound(),
            only_reached(*tables, marks@),
            roots_marked(*tables, marks@),
            !more ==> forall|p: int| 0 <= p < n ==> #[trigger] passes_on(*tables, marks@, p),
        decreases unmarked(marks@, n as int) + if more {
            1nat
        } else {
            0
        },
    {
        more = pass_all_on(tables, &mut marks);
    }
    proof {
        assert forall|j: int| 0 <= j < n implies #[trigger] marks@[j] == db.reached(
            tables.nodes.entries@[j].0,
        ) by {
            let id = tables.nodes.entries@[j].0;
            if db.reached(id) {
                let steps = choose|steps: nat| db.reached_in(id, steps);
                all_reached(*tables, marks@, id, steps);
                tables.nodes.filed_once(j, id);
            }
        }
    }
    marks
}

impl MemRows {
    /// Rows with nothing in them.
    pub fn new() -> (rows: Self)
        ensures
            rows.wf(),
            !rows.open(),
            rows.db().sound(),
            rows.db() == nothing(),
    {
        MemRows { tables: Tables::new(), saved: None }
    }
}

impl SqliteStorage<MemRows> {
    /// A fresh store whose rows are held in memory.
    pub fn open_in_memory() -> (storage: Self)
        ensures
            storage.wf(),
            storage.store().versions == Map::<EnvelopeDigest, Version>::empty(),
            storage.store().log == Map::<EnvelopeDigest, Logged>::empty(),
    {
        let storage = SqliteStorage::new(MemRows::new());
        proof {
            assert(storage.store().versions =~= Map::<EnvelopeDigest, Version>::empty());
            assert(storage.store().log =~= Map::<EnvelopeDigest, Logged>::empty());
        }
        storage
    }
}

} // verus!
