//! What the reserved namespaces may hold.

use vstd::prelude::*;

use crate::digest::{all_hex, hex_chars, hex_of, hex_reads_back, unhex, HexError, KeyId};
use crate::msg::NamespaceKey;
use crate::order::SortedMap;
use crate::state::error::{Fault, KeysFault, TrustedKeysError, ValueError};
use crate::state::nodes::{
    addr_fault_text, address_of, field_named, read_address, same_text, Address, EndpointAddr,
};
use crate::text::{append, text_lt, text_lt_irreflexive, text_lt_total, text_lt_transitive, text_of};
use crate::value::{fields_tree, table_tree, Key, Tree, Value};

verus! {

/// The reserved namespace holding the minimum number of minutes every node
/// must keep a message before it is eligible for compaction: a positive
/// integer that fits a `u32`. Absent, the [`DEFAULT_MIN_KEEP_MINUTES`]
/// applies.
pub const MIN_KEEP_MINUTES_KEY: &'static str = "_lotus_min_keep_minutes";

/// The compaction floor in force when a chain never set one: five days.
pub const DEFAULT_MIN_KEEP_MINUTES: u32 = 5 * 24 * 60;

/// The reserved namespace holding the least verified signature weight an
/// envelope must carry to apply: a non-negative integer that fits a `u32`.
/// Absent, nothing is required.
pub const MIN_ENVELOPE_WEIGHT_KEY: &'static str = "_lotus_min_envelope_weight";

/// The reserved namespace holding the fewest distinct keys that must have
/// verifiably signed an envelope for it to apply: a non-negative integer
/// that fits a `u32`. Absent, nothing is required.
pub const MIN_ENVELOPE_SIGNATURES_KEY: &'static str = "_lotus_min_envelope_signatures";

/// The reserved namespace holding the keys signatures are verified against:
/// a table from a key's id in lowercase hexadecimal to the key. Absent,
/// nothing is trusted.
pub const TRUSTED_KEYS_KEY: &'static str = "_lotus_trusted_keys";

/// The reserved namespace describing nodes known to the cluster.
pub const CLUSTER_NODES_KEY: &'static str = "_lotus_nodes";

/// The compaction floor a value spells: a positive integer that fits a
/// `u32`.
pub open spec fn min_keep_of(tree: Tree) -> Option<u32> {
    match tree {
        Tree::Int(minutes) => if 0 < minutes <= u32::MAX {
            Some(minutes as u32)
        } else {
            None
        },
        _ => None,
    }
}

/// The threshold a value spells: a non-negative integer that fits a `u32`.
pub open spec fn threshold_of(tree: Tree) -> Option<u32> {
    match tree {
        Tree::Int(n) => if 0 <= n <= u32::MAX {
            Some(n as u32)
        } else {
            None
        },
        _ => None,
    }
}

/// Reads a compaction floor.
pub fn parse_min_keep(value: &Value) -> (minutes: Option<u32>)
    ensures
        minutes == min_keep_of(value.tree()),
{
    match value {
        Value::Int(minutes) => if 0 < *minutes && *minutes <= u32::MAX as i64 {
            Some(*minutes as u32)
        } else {
            None
        },
        _ => None,
    }
}

/// Reads a threshold. Zero is legal and means it is not in force.
pub fn parse_threshold(value: &Value) -> (threshold: Option<u32>)
    ensures
        threshold == threshold_of(value.tree()),
{
    match value {
        Value::Int(n) => if 0 <= *n && *n <= u32::MAX as i64 {
            Some(*n as u32)
        } else {
            None
        },
        _ => None,
    }
}

/// Whether `bad` holds of some name.
pub open spec fn any(bad: spec_fn(Seq<char>) -> bool) -> bool {
    exists|name: Seq<char>| #[trigger] bad(name)
}

/// Whether `name` comes first of all that `bad` holds of.
pub open spec fn is_first(bad: spec_fn(Seq<char>) -> bool, name: Seq<char>) -> bool {
    bad(name) && forall|other: Seq<char>| #[trigger] bad(other) ==> !text_lt(other, name)
}

/// The name that comes first of all that `bad` holds of.
pub open spec fn first(bad: spec_fn(Seq<char>) -> bool) -> Seq<char> {
    choose|name: Seq<char>| is_first(bad, name)
}

/// Only one name comes first.
pub proof fn first_is(bad: spec_fn(Seq<char>) -> bool, name: Seq<char>)
    requires
        is_first(bad, name),
    ensures
        first(bad) == name,
{
    let chosen = first(bad);
    assert(is_first(bad, chosen));
    text_lt_total(chosen, name);
}

/// The name at `i` of a table comes first of all that `bad` holds of, when
/// `bad` holds of none before it and of no other name.
proof fn first_entry<V>(
    fields: SortedMap<String, V>,
    bad: spec_fn(Seq<char>) -> bool,
    i: int,
)
    requires
        fields.wf(),
        0 <= i < fields.entries@.len(),
        bad(fields.entries@[i].0@),
        forall|j: int| 0 <= j < i ==> !bad((#[trigger] fields.entries@[j]).0@),
        forall|name: Seq<char>| #[trigger] bad(name) ==> fields.has(name),
    ensures
        first(bad) == fields.entries@[i].0@,
{
    let name = fields.entries@[i].0@;
    assert forall|other: Seq<char>| #[trigger] bad(other) implies !text_lt(other, name) by {
        let j = fields.index_of(other);
        assert(fields.filed(j, other));
        if j < i {
            assert(!bad(fields.entries@[j].0@));
        } else if j == i {
            text_lt_irreflexive(name);
        } else {
            if text_lt(other, name) {
                text_lt_transitive(name, other, name);
                text_lt_irreflexive(name);
            }
        }
    }
    first_is(bad, name);
}

/// Whether the key set entry under `name` is wrong: no key, or a key filed
/// under an id it does not derive to.
pub open spec fn bad_key(fields: Map<Seq<char>, Tree>) -> spec_fn(Seq<char>) -> bool {
    |name: Seq<char>|
        fields.contains_key(name) && match fields[name] {
            Tree::Key(key) => name != hex_of(key.id.bytes@),
            _ => true,
        }
}

/// The trusted keys a value spells, by id: a table from the id of a key in
/// lowercase hexadecimal to the key. Where entries are wrong, the first by
/// name is reported.
pub open spec fn trusted_keys_of(tree: Tree) -> Result<Map<KeyId, Key>, KeysFault> {
    match tree {
        Tree::Table(fields) => {
            let bad = bad_key(fields);
            if any(bad) {
                let id = first(bad);
                match fields[id] {
                    Tree::Key(key) => Err(KeysFault::IdMismatch { id, derived: key.id }),
                    _ => Err(KeysFault::NotAKey { id }),
                }
            } else {
                Ok(
                    Map::new(
                        |id: KeyId| fields.contains_key(hex_of(id.bytes@)),
                        |id: KeyId| fields[hex_of(id.bytes@)]->Key_0,
                    ),
                )
            }
        },
        _ => Err(KeysFault::NotAMap),
    }
}

/// The keys trusted, by id.
pub type TrustedKeys = SortedMap<KeyId, Key>;

/// Two ids spelled alike are one.
pub proof fn same_spelling(a: KeyId, b: KeyId)
    requires
        hex_of(a.bytes@) == hex_of(b.bytes@),
    ensures
        a == b,
{
    hex_reads_back(a.bytes@);
    hex_reads_back(b.bytes@);
    assert forall|i: int| 0 <= i < 32 implies a.bytes[i] == b.bytes[i] by {
        assert(a.bytes@[i] == b.bytes@[i]);
    }
    assert(a.bytes =~= b.bytes);
}

/// Reads a trusted key set.
pub fn parse_trusted_keys(value: &Value) -> (keys: Result<TrustedKeys, TrustedKeysError>)
    requires
        value.wf(),
    ensures
        match keys {
            Ok(keys) => keys.wf() && trusted_keys_of(value.tree()) == Ok::<
                Map<KeyId, Key>,
                KeysFault,
            >(keys@),
            Err(error) => trusted_keys_of(value.tree()) == Err::<Map<KeyId, Key>, KeysFault>(
                error@,
            ),
        },
{
    let Value::Table(fields) = value else {
        assert(!(value.tree() is Table));
        return Err(TrustedKeysError::NotAMap);
    };
    proof {
        table_tree(*fields);
    }
    let ghost trees = fields_tree(*fields);
    let ghost bad = bad_key(trees);
    let mut keys: TrustedKeys = SortedMap::new();
    let mut i: usize = 0;
    while i < fields.entries.len()
        invariant
            i <= fields.entries@.len(),
            fields.wf(),
            value.tree() == Tree::Table(trees),
            trees == fields_tree(*fields),
            bad == bad_key(trees),
            forall|j: int|
                0 <= j < fields.entries@.len() ==> trees.contains_key(
                    (#[trigger] fields.entries@[j]).0@,
                ) && trees[fields.entries@[j].0@] == fields.entries@[j].1.tree(),
            forall|j: int| 0 <= j < i ==> !bad((#[trigger] fields.entries@[j]).0@),
            keys.wf(),
            forall|id: KeyId| #[trigger]
                keys@.contains_key(id) ==> trees.contains_key(hex_of(id.bytes@)) && trees[hex_of(
                    id.bytes@,
                )] == Tree::Key(keys@[id]),
            forall|j: int|
                0 <= j < i ==> (#[trigger] fields.entries@[j]).1.tree() is Key
                    && keys@.contains_key(fields.entries@[j].1.tree()->Key_0.id),
        decreases fields.entries@.len() - i,
    {
        let entry = &fields.entries[i];
        let ghost name = entry.0@;
        proof {
            assert forall|n: Seq<char>| #[trigger] bad(n) implies fields.has(n) by {}
        }
        match &entry.1 {
            Value::Key(key) => {
                let spelled = text_of(&hex_chars(&key.id.bytes));
                if entry.0 == spelled {
                    let ghost before = keys@;
                    keys.insert(key.id, *key);
                    assert forall|id: KeyId| #[trigger] keys@.contains_key(id) implies
                        trees.contains_key(hex_of(id.bytes@)) && trees[hex_of(id.bytes@)]
                        == Tree::Key(keys@[id]) by {
                        if id != key.id {
                            assert(before.contains_key(id));
                        }
                    }
                } else {
                    proof {
                        assert(bad(name));
                        first_entry(*fields, bad, i as int);
                    }
                    return Err(
                        TrustedKeysError::IdMismatch { id: entry.0.clone(), derived: key.id },
                    );
                }
            },
            other => {
                proof {
                    assert(!(other.tree() is Key));
                    assert(bad(name));
                    first_entry(*fields, bad, i as int);
                }
                return Err(TrustedKeysError::NotAKey { id: entry.0.clone() });
            },
        }
        i += 1;
    }
    proof {
        assert forall|name: Seq<char>| !(#[trigger] bad(name)) by {
            if fields.has(name) {
                let j = fields.index_of(name);
                assert(fields.filed(j, name));
                assert(!bad(fields.entries@[j].0@));
            }
        }
        let want = Map::new(
            |id: KeyId| trees.contains_key(hex_of(id.bytes@)),
            |id: KeyId| trees[hex_of(id.bytes@)]->Key_0,
        );
        assert forall|id: KeyId|
            #![trigger keys@.dom().contains(id)]
            #![trigger want.dom().contains(id)]
            #![trigger keys@[id]]
            #![trigger want[id]]
            keys@.dom().contains(id) == want.dom().contains(id) && (keys@.dom().contains(id)
                ==> keys@[id] == want[id]) by {
            let name = hex_of(id.bytes@);
            if keys@.contains_key(id) {
                assert(trees[name] == Tree::Key(keys@[id]));
            }
            if trees.contains_key(name) {
                let j = fields.index_of(name);
                assert(fields.filed(j, name));
                let key = fields.entries@[j].1.tree()->Key_0;
                assert(!bad(name));
                assert(name == hex_of(key.id.bytes@));
                same_spelling(id, key.id);
            }
        }
        assert(keys@ =~= want);
    }
    Ok(keys)
}

/// What is wrong with what a cluster knows about the node filed under
/// `name`, if anything is.
pub open spec fn node_fault(name: Seq<char>, tree: Tree) -> Option<Seq<char>> {
    if name.len() != 64 {
        Some(name + ": "@ + HexError::Length.text())
    } else if !all_hex(name) {
        Some(name + ": "@ + HexError::Digit.text())
    } else if name != hex_of(unhex(name)) {
        Some(name + ": not the canonical spelling of a key id"@)
    } else {
        match tree {
            Tree::Table(inner) => if inner.contains_key("iroh"@) {
                match address_of(inner["iroh"@]) {
                    Ok(_) => None,
                    Err(fault) => Some(name + ": "@ + addr_fault_text(fault)),
                }
            } else {
                Some(name + ": missing or invalid `iroh` value"@)
            },
            _ => Some(name + ": not a map"@),
        }
    }
}

/// Whether the node filed under `name` is described wrongly.
pub open spec fn bad_node(fields: Map<Seq<char>, Tree>) -> spec_fn(Seq<char>) -> bool {
    |name: Seq<char>| fields.contains_key(name) && node_fault(name, fields[name]) is Some
}

/// How to reach each node of a cluster, by id: a table from the id of a
/// node in lowercase hexadecimal to a table that holds its address under
/// `iroh`. Where entries are wrong, the first by name is reported.
pub open spec fn cluster_nodes_of(tree: Tree) -> Result<Map<KeyId, Address>, Seq<char>> {
    match tree {
        Tree::Table(fields) => {
            let bad = bad_node(fields);
            if any(bad) {
                Err(node_fault(first(bad), fields[first(bad)])->0)
            } else {
                Ok(
                    Map::new(
                        |id: KeyId| fields.contains_key(hex_of(id.bytes@)),
                        |id: KeyId|
                            address_of(fields[hex_of(id.bytes@)]->Table_0["iroh"@])->Ok_0,
                    ),
                )
            }
        },
        _ => Err("not a map"@),
    }
}

/// How to reach each node, by id.
pub type ClusterNodes = SortedMap<KeyId, EndpointAddr>;

/// What each node's address is, by id.
pub open spec fn addresses_view(nodes: ClusterNodes) -> Map<KeyId, Address> {
    Map::new(|id: KeyId| nodes@.contains_key(id), |id: KeyId| nodes@[id]@)
}

/// Whether no address lists a way twice.
pub open spec fn addresses_wf(nodes: ClusterNodes) -> bool {
    forall|id: KeyId| #[trigger] nodes@.contains_key(id) ==> nodes@[id].wf()
}

/// Whether every entry of a cluster's table stands for a node of its own:
/// there is one under the id its name spells. A name spells one id, so no
/// node is displaced by another spelling of its id.
pub open spec fn each_stands(tree: Tree, nodes: Map<KeyId, Address>) -> bool {
    tree matches Tree::Table(fields) ==> forall|name: Seq<char>| #[trigger]
        fields.contains_key(name) ==> exists|id: KeyId|
            hex_of(id.bytes@) == name && #[trigger] nodes.contains_key(id)
}

/// `name`, a colon, and `reason`.
fn blamed(name: &String, reason: &str) -> (text: String)
    ensures
        text@ == name@ + ": "@ + reason@,
{
    let mut out: Vec<char> = Vec::new();
    append(&mut out, name.as_str());
    append(&mut out, ": ");
    append(&mut out, reason);
    assert(out@ =~= name@ + ": "@ + reason@);
    text_of(&out)
}

/// Reads what a cluster knows about one node.
fn parse_node(name: &String, value: &Value) -> (node: Result<(KeyId, EndpointAddr), String>)
    requires
        value.wf(),
    ensures
        match node {
            Ok((id, address)) => {
                &&& node_fault(name@, value.tree()) is None
                &&& name@ == hex_of(id.bytes@)
                &&& address.wf()
                &&& address_of(value.tree()->Table_0["iroh"@]) == Ok::<
                    Address,
                    crate::state::nodes::AddrFault,
                >(address@)
            },
            Err(reason) => node_fault(name@, value.tree()) == Some(reason@),
        },
{
    let id = match KeyId::from_hex(name.as_str()) {
        Ok(id) => id,
        Err(error) => {
            return Err(blamed(name, error.describe()));
        },
    };
    let spelled = id.to_hex();
    if *name != spelled {
        let reason = blamed(name, "not the canonical spelling of a key id");
        proof {
            reveal_strlit(": ");
            reveal_strlit("not the canonical spelling of a key id");
            reveal_strlit(": not the canonical spelling of a key id");
            assert(": "@ + "not the canonical spelling of a key id"@
                =~= ": not the canonical spelling of a key id"@);
            assert(reason@ =~= name@ + ": not the canonical spelling of a key id"@);
        }
        return Err(reason);
    }
    let Value::Table(inner) = value else {
        assert(!(value.tree() is Table));
        let reason = blamed(name, "not a map");
        proof {
            reveal_strlit(": ");
            reveal_strlit("not a map");
            reveal_strlit(": not a map");
            assert(": "@ + "not a map"@ =~= ": not a map"@);
            assert(reason@ =~= name@ + ": not a map"@);
        }
        return Err(reason);
    };
    proof {
        table_tree(*inner);
    }
    let Some(spoken) = field_named(inner, "iroh") else {
        let reason = blamed(name, "missing or invalid `iroh` value");
        proof {
            reveal_strlit(": ");
            reveal_strlit("missing or invalid `iroh` value");
            reveal_strlit(": missing or invalid `iroh` value");
            assert(": "@ + "missing or invalid `iroh` value"@
                =~= ": missing or invalid `iroh` value"@);
            assert(reason@ =~= name@ + ": missing or invalid `iroh` value"@);
        }
        return Err(reason);
    };
    match read_address(spoken) {
        Ok(address) => Ok((id, address)),
        Err(error) => Err(blamed(name, error.text().as_str())),
    }
}

/// Reads the set of cluster nodes.
#[verifier::spinoff_prover]
#[verifier::rlimit(100)]
pub fn parse_cluster_nodes(value: &Value) -> (nodes: Result<ClusterNodes, String>)
    requires
        value.wf(),
    ensures
        match nodes {
            Ok(nodes) => nodes.wf() && cluster_nodes_of(value.tree()) == Ok::<
                Map<KeyId, Address>,
                Seq<char>,
            >(addresses_view(nodes)) && each_stands(value.tree(), addresses_view(nodes))
                && addresses_wf(nodes),
            Err(reason) => cluster_nodes_of(value.tree()) == Err::<Map<KeyId, Address>, Seq<char>>(
                reason@,
            ),
        },
{
    let Value::Table(fields) = value else {
        assert(!(value.tree() is Table));
        return Err("not a map".to_owned());
    };
    proof {
        table_tree(*fields);
    }
    let ghost trees = fields_tree(*fields);
    let ghost bad = bad_node(trees);
    let mut nodes: ClusterNodes = SortedMap::new();
    let ghost mut ids: Seq<KeyId> = Seq::empty();
    let mut i: usize = 0;
    proof {
        assert forall|n: Seq<char>| #[trigger] bad(n) implies fields.has(n) by {}
    }
    while i < fields.entries.len()
        invariant
            i <= fields.entries@.len(),
            fields.wf(),
            forall|j: int|
                0 <= j < fields.entries@.len() ==> (#[trigger] fields.entries@[j]).1.wf(),
            value.tree() == Tree::Table(trees),
            trees == fields_tree(*fields),
            bad == bad_node(trees),
            forall|j: int|
                0 <= j < fields.entries@.len() ==> trees.contains_key(
                    (#[trigger] fields.entries@[j]).0@,
                ) && trees[fields.entries@[j].0@] == fields.entries@[j].1.tree(),
            forall|j: int| 0 <= j < i ==> !bad((#[trigger] fields.entries@[j]).0@),
            nodes.wf(),
            addresses_wf(nodes),
            forall|id: KeyId| #[trigger]
                nodes@.contains_key(id) ==> trees.contains_key(hex_of(id.bytes@)) && address_of(
                    trees[hex_of(id.bytes@)]->Table_0["iroh"@],
                )->Ok_0 == nodes@[id]@,
            ids.len() == i,
            forall|j: int|
                0 <= j < i ==> nodes@.contains_key(#[trigger] ids[j]) && hex_of(ids[j].bytes@)
                    == fields.entries@[j].0@,
            forall|n: Seq<char>| #[trigger] bad(n) ==> fields.has(n),
        decreases fields.entries@.len() - i,
    {
        let entry = &fields.entries[i];
        let ghost name = entry.0@;
        match parse_node(&entry.0, &entry.1) {
            Ok((id, address)) => {
                let ghost before = nodes@;
                nodes.insert(id, address);
                assert forall|q: KeyId| #[trigger] nodes@.contains_key(q) implies
                    trees.contains_key(hex_of(q.bytes@)) && address_of(
                    trees[hex_of(q.bytes@)]->Table_0["iroh"@],
                )->Ok_0 == nodes@[q]@ by {
                    if q != id {
                        assert(before.contains_key(q));
                    }
                }
                proof {
                    ids = ids.push(id);
                    assert forall|j: int| 0 <= j < i + 1 implies nodes@.contains_key(
                        #[trigger] ids[j],
                    ) && hex_of(ids[j].bytes@) == fields.entries@[j].0@ by {}
                }
            },
            Err(reason) => {
                proof {
                    assert(bad(name));
                    first_entry(*fields, bad, i as int);
                }
                return Err(reason);
            },
        }
        i += 1;
    }
    proof {
        assert forall|name: Seq<char>| !(#[trigger] bad(name)) by {
            if fields.has(name) {
                let j = fields.index_of(name);
                assert(fields.filed(j, name));
                assert(!bad(fields.entries@[j].0@));
            }
        }
        let left = addresses_view(nodes);
        let right = cluster_nodes_of(value.tree())->Ok_0;
        assert forall|id: KeyId|
            #![trigger left.dom().contains(id)]
            #![trigger right.dom().contains(id)]
            #![trigger left[id]]
            #![trigger right[id]]
            left.dom().contains(id) == right.dom().contains(id) && (left.dom().contains(id)
                ==> left[id] == right[id]) by {
            let name = hex_of(id.bytes@);
            if nodes@.contains_key(id) {
                assert(trees.contains_key(name));
            }
            if trees.contains_key(name) {
                let j = fields.index_of(name);
                assert(fields.filed(j, name));
                assert(fields.entries@[j].0@ == name);
                assert(nodes@.contains_key(ids[j]));
                same_spelling(id, ids[j]);
            }
        }
        assert(left =~= right);
        assert forall|name: Seq<char>| #[trigger] trees.contains_key(name) implies exists|id: KeyId|
            hex_of(id.bytes@) == name && #[trigger] left.contains_key(id) by {
            let j = fields.index_of(name);
            assert(fields.filed(j, name));
            assert(fields.entries@[j].0@ == name);
            assert(nodes@.contains_key(ids[j]));
            assert(left.contains_key(ids[j]));
        }
    }
    Ok(nodes)
}

/// What is wrong with `tree` as the value of the namespace `key`, if
/// anything is. Only the reserved namespaces have rules.
pub open spec fn fault_of(key: Seq<char>, tree: Tree) -> Option<Fault> {
    if key == MIN_KEEP_MINUTES_KEY@ {
        if min_keep_of(tree) is Some {
            None
        } else {
            Some(Fault::MinKeepMinutes)
        }
    } else if key == MIN_ENVELOPE_WEIGHT_KEY@ {
        if threshold_of(tree) is Some {
            None
        } else {
            Some(Fault::MinEnvelopeWeight)
        }
    } else if key == MIN_ENVELOPE_SIGNATURES_KEY@ {
        if threshold_of(tree) is Some {
            None
        } else {
            Some(Fault::MinEnvelopeSignatures)
        }
    } else if key == TRUSTED_KEYS_KEY@ {
        match trusted_keys_of(tree) {
            Ok(_) => None,
            Err(fault) => Some(Fault::TrustedKeys(fault)),
        }
    } else if key == CLUSTER_NODES_KEY@ {
        match cluster_nodes_of(tree) {
            Ok(_) => None,
            Err(reason) => Some(Fault::ClusterNodes(reason)),
        }
    } else {
        None
    }
}

/// Whether the namespace `key` has a rule.
pub open spec fn has_rule(key: Seq<char>) -> bool {
    ||| key == MIN_KEEP_MINUTES_KEY@
    ||| key == MIN_ENVELOPE_WEIGHT_KEY@
    ||| key == MIN_ENVELOPE_SIGNATURES_KEY@
    ||| key == TRUSTED_KEYS_KEY@
    ||| key == CLUSTER_NODES_KEY@
}

/// The rules of the reserved namespaces.
#[derive(Debug, Clone, Copy, PartialEq, Eq, Structural)]
pub enum Rule {
    MinKeepMinutes,
    MinEnvelopeWeight,
    MinEnvelopeSignatures,
    TrustedKeys,
    ClusterNodes,
}

impl Rule {
    /// The namespace the rule is for.
    pub open spec fn key(&self) -> Seq<char> {
        match self {
            Rule::MinKeepMinutes => MIN_KEEP_MINUTES_KEY@,
            Rule::MinEnvelopeWeight => MIN_ENVELOPE_WEIGHT_KEY@,
            Rule::MinEnvelopeSignatures => MIN_ENVELOPE_SIGNATURES_KEY@,
            Rule::TrustedKeys => TRUSTED_KEYS_KEY@,
            Rule::ClusterNodes => CLUSTER_NODES_KEY@,
        }
    }
}

/// The rule judging what `key`'s namespace may hold, if it has one.
pub fn rule(key: &NamespaceKey) -> (rule: Option<Rule>)
    ensures
        match rule {
            Some(rule) => rule.key() == key@,
            None => !has_rule(key@),
        },
{
    if same_text(&key.text, MIN_KEEP_MINUTES_KEY) {
        Some(Rule::MinKeepMinutes)
    } else if same_text(&key.text, MIN_ENVELOPE_WEIGHT_KEY) {
        Some(Rule::MinEnvelopeWeight)
    } else if same_text(&key.text, MIN_ENVELOPE_SIGNATURES_KEY) {
        Some(Rule::MinEnvelopeSignatures)
    } else if same_text(&key.text, TRUSTED_KEYS_KEY) {
        Some(Rule::TrustedKeys)
    } else if same_text(&key.text, CLUSTER_NODES_KEY) {
        Some(Rule::ClusterNodes)
    } else {
        None
    }
}

/// No two rules are for one namespace.
pub proof fn rules_apart()
    ensures
        MIN_KEEP_MINUTES_KEY@ != MIN_ENVELOPE_WEIGHT_KEY@,
        MIN_KEEP_MINUTES_KEY@ != MIN_ENVELOPE_SIGNATURES_KEY@,
        MIN_KEEP_MINUTES_KEY@ != TRUSTED_KEYS_KEY@,
        MIN_KEEP_MINUTES_KEY@ != CLUSTER_NODES_KEY@,
        MIN_ENVELOPE_WEIGHT_KEY@ != MIN_ENVELOPE_SIGNATURES_KEY@,
        MIN_ENVELOPE_WEIGHT_KEY@ != TRUSTED_KEYS_KEY@,
        MIN_ENVELOPE_WEIGHT_KEY@ != CLUSTER_NODES_KEY@,
        MIN_ENVELOPE_SIGNATURES_KEY@ != TRUSTED_KEYS_KEY@,
        MIN_ENVELOPE_SIGNATURES_KEY@ != CLUSTER_NODES_KEY@,
        TRUSTED_KEYS_KEY@ != CLUSTER_NODES_KEY@,
{
    reveal_strlit("_lotus_min_keep_minutes");
    reveal_strlit("_lotus_min_envelope_weight");
    reveal_strlit("_lotus_min_envelope_signatures");
    reveal_strlit("_lotus_trusted_keys");
    reveal_strlit("_lotus_nodes");
    assert(MIN_KEEP_MINUTES_KEY@.len() == 23);
    assert(MIN_ENVELOPE_WEIGHT_KEY@.len() == 26);
    assert(MIN_ENVELOPE_SIGNATURES_KEY@.len() == 30);
    assert(TRUSTED_KEYS_KEY@.len() == 19);
    assert(CLUSTER_NODES_KEY@.len() == 12);
}

impl Rule {
    /// Judges `value`.
    pub fn judge(&self, value: &Value) -> (judged: Result<(), ValueError>)
        requires
            value.wf(),
        ensures
            match judged {
                Ok(_) => fault_of(self.key(), value.tree()) is None,
                Err(error) => fault_of(self.key(), value.tree()) == Some(error@),
            },
    {
        proof {
            rules_apart();
        }
        match self {
            Rule::MinKeepMinutes => match parse_min_keep(value) {
                Some(_) => Ok(()),
                None => Err(ValueError::MinKeepMinutes),
            },
            Rule::MinEnvelopeWeight => match parse_threshold(value) {
                Some(_) => Ok(()),
                None => Err(ValueError::MinEnvelopeWeight),
            },
            Rule::MinEnvelopeSignatures => match parse_threshold(value) {
                Some(_) => Ok(()),
                None => Err(ValueError::MinEnvelopeSignatures),
            },
            Rule::TrustedKeys => match parse_trusted_keys(value) {
                Ok(_) => Ok(()),
                Err(error) => Err(ValueError::TrustedKeys(error)),
            },
            Rule::ClusterNodes => match parse_cluster_nodes(value) {
                Ok(_) => Ok(()),
                Err(reason) => Err(ValueError::ClusterNodes(reason)),
            },
        }
    }
}

} // verus!
