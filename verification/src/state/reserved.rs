//! What the reserved namespaces say, and what they may not.

use vstd::prelude::*;

use crate::digest::{all_hex, hex_char, hex_of, hex_value, unhex, KeyId};
use crate::reading::{ends_on, what_stands_last};
use crate::state::error::{Fault, KeysFault, Refusal};
use crate::state::judge::trusted_at;
use crate::state::ledger::{min_keep_at, nodes_at};
use crate::state::nodes::{
    address_of, endpoint_id_of, relay_url_of, socket_addr_of, transport_of, transports_of, Address,
    Transport,
};
use crate::state::rules::{
    any, bad_key, bad_node, cluster_nodes_of, fault_of, first_is, is_first, node_fault, rules_apart,
    trusted_keys_of, CLUSTER_NODES_KEY, MIN_ENVELOPE_SIGNATURES_KEY, MIN_ENVELOPE_WEIGHT_KEY,
    MIN_KEEP_MINUTES_KEY, TRUSTED_KEYS_KEY,
};
use crate::storage::Version;
use crate::text::text_lt;
use crate::value::{Key, Tree};

verus! {

/// Whether a value is a whole number from `least` up that thirty-two bits can
/// hold.
pub open spec fn counts_from(tree: Tree, least: int) -> bool {
    tree is Int && least <= tree->Int_0 <= 0xffff_ffff
}

/// Whether a value is a table that files nothing but keys, each under its own
/// id.
pub open spec fn files_keys(tree: Tree) -> bool {
    tree is Table && forall|name: Seq<char>| #[trigger]
        tree->Table_0.contains_key(name) ==> tree->Table_0[name] is Key && name == hex_of(
            tree->Table_0[name]->Key_0.id.bytes@,
        )
}

/// A floor is a positive number, a threshold one that is not negative, and the
/// trusted keys a table of keys under their ids; a namespace that is not
/// reserved may hold anything.
pub proof fn the_reserved_are_ruled(key: Seq<char>, tree: Tree)
    ensures
        key == MIN_KEEP_MINUTES_KEY@ ==> (fault_of(key, tree) == if counts_from(tree, 1) {
            None::<Fault>
        } else {
            Some(Fault::MinKeepMinutes)
        }),
        key == MIN_ENVELOPE_WEIGHT_KEY@ ==> (fault_of(key, tree) == if counts_from(tree, 0) {
            None::<Fault>
        } else {
            Some(Fault::MinEnvelopeWeight)
        }),
        key == MIN_ENVELOPE_SIGNATURES_KEY@ ==> (fault_of(key, tree) == if counts_from(tree, 0) {
            None::<Fault>
        } else {
            Some(Fault::MinEnvelopeSignatures)
        }),
        key == TRUSTED_KEYS_KEY@ ==> (fault_of(key, tree) is None <==> files_keys(tree)),
        key == TRUSTED_KEYS_KEY@ && !(tree is Table) ==> fault_of(key, tree) == Some(
            Fault::TrustedKeys(KeysFault::NotAMap),
        ),
        key != MIN_KEEP_MINUTES_KEY@ && key != MIN_ENVELOPE_WEIGHT_KEY@ && key
            != MIN_ENVELOPE_SIGNATURES_KEY@ && key != TRUSTED_KEYS_KEY@ && key
            != CLUSTER_NODES_KEY@ ==> fault_of(key, tree) is None,
{
    rules_apart();
    if key == TRUSTED_KEYS_KEY@ && tree is Table {
        let fields = tree->Table_0;
        let bad = bad_key(fields);
        if any(bad) {
            let name = choose|name: Seq<char>| #[trigger] bad(name);
            assert(fields.contains_key(name));
        } else {
            assert forall|name: Seq<char>| #[trigger] fields.contains_key(name) implies fields[name]
                is Key && name == hex_of(fields[name]->Key_0.id.bytes@) by {
                assert(!bad(name));
            }
        }
    }
}

/// The names of the reserved namespaces.
pub proof fn the_reserved_are_named()
    ensures
        MIN_KEEP_MINUTES_KEY@ == "_lotus_min_keep_minutes"@,
        MIN_ENVELOPE_WEIGHT_KEY@ == "_lotus_min_envelope_weight"@,
        MIN_ENVELOPE_SIGNATURES_KEY@ == "_lotus_min_envelope_signatures"@,
        TRUSTED_KEYS_KEY@ == "_lotus_trusted_keys"@,
        CLUSTER_NODES_KEY@ == "_lotus_nodes"@,
{
}

/// The floor in force is the one that is set; five days where none is.
pub proof fn a_floor_is_in_force(version: Version)
    ensures
        version.contains_key(MIN_KEEP_MINUTES_KEY@) && counts_from(
            version[MIN_KEEP_MINUTES_KEY@],
            1,
        ) ==> min_keep_at(version) == version[MIN_KEEP_MINUTES_KEY@]->Int_0,
        !version.contains_key(MIN_KEEP_MINUTES_KEY@) ==> min_keep_at(version) == 5 * 24 * 60,
        min_keep_at(version) > 0,
{
}

/// Keys are trusted just as they are filed: each key of the table under its
/// own id, none besides, and none at all without the table.
pub proof fn what_is_filed_is_trusted(version: Version)
    ensures
        !version.contains_key(TRUSTED_KEYS_KEY@) ==> trusted_at(version) == Ok::<
            Map<KeyId, Key>,
            Refusal,
        >(Map::empty()),
        version.contains_key(TRUSTED_KEYS_KEY@) ==> (trusted_at(version) is Ok <==> files_keys(
            version[TRUSTED_KEYS_KEY@],
        )),
        version.contains_key(TRUSTED_KEYS_KEY@) && trusted_at(version) is Ok ==> forall|key: Key|
            (#[trigger] trusted_at(version)->Ok_0.contains_key(key.id)
                && trusted_at(version)->Ok_0[key.id] == key) <==> (
            version[TRUSTED_KEYS_KEY@]->Table_0.contains_key(hex_of(key.id.bytes@))
                && version[TRUSTED_KEYS_KEY@]->Table_0[hex_of(key.id.bytes@)] == Tree::Key(key)),
{
    if version.contains_key(TRUSTED_KEYS_KEY@) {
        let tree = version[TRUSTED_KEYS_KEY@];
        the_reserved_are_ruled(TRUSTED_KEYS_KEY@, tree);
        rules_apart();
        if trusted_at(version) is Ok {
            let keys = trusted_at(version)->Ok_0;
            let fields = tree->Table_0;
            assert forall|key: Key|
                (#[trigger] keys.contains_key(key.id) && keys[key.id] == key) <==> (
                fields.contains_key(hex_of(key.id.bytes@)) && fields[hex_of(key.id.bytes@)]
                    == Tree::Key(key)) by {
                let name = hex_of(key.id.bytes@);
                if fields.contains_key(name) {
                    assert(fields[name] is Key);
                }
            }
        }
    }
}

/// A way to reach a node is read from a table that gives its type and its
/// address, and is of that type: a socket address, or the URL of a relay.
pub proof fn a_way_is_of_its_type(tree: Tree)
    ensures
        ({
            let fields = tree->Table_0;
            let typed = |kind: Seq<char>|
                tree is Table && fields.contains_key("type"@) && fields["type"@] == Tree::Text(kind)
                    && fields.contains_key("addr"@) && fields["addr"@] is Text;
            let text = fields["addr"@]->Text_0;
            &&& transport_of(tree) is Ok <==> (typed("ip"@) && socket_addr_of(text) is Some) || (
            typed("relay"@) && relay_url_of(text) is Some)
            &&& transport_of(tree) matches Ok(Transport::Ip(addr)) ==> typed("ip"@)
                && socket_addr_of(text) == Some(addr)
            &&& transport_of(tree) matches Ok(Transport::Relay(url)) ==> typed("relay"@)
                && relay_url_of(text) == Some(url)
        }),
{
    reveal_strlit("ip");
    reveal_strlit("relay");
    assert("ip"@.len() == 2 && "relay"@.len() == 5);
}

/// Ways are read one by one: all of them, or none where one cannot be.
proof fn ways_are_read(items: Seq<Tree>)
    ensures
        transports_of(items) is Ok <==> forall|i: int|
            0 <= i < items.len() ==> transport_of(#[trigger] items[i]) is Ok,
        transports_of(items) matches Ok(ways) ==> ways.len() == items.len() && forall|i: int|
            0 <= i < items.len() ==> transport_of(#[trigger] items[i]) == Ok::<
                Transport,
                crate::state::nodes::AddrFault,
            >(ways[i]),
    decreases items.len(),
{
    if items.len() > 0 {
        let front = items.drop_last();
        ways_are_read(front);
        if transports_of(items) is Ok {
            assert forall|i: int| 0 <= i < items.len() implies transport_of(#[trigger] items[i])
                == Ok::<Transport, crate::state::nodes::AddrFault>(
                transports_of(items)->Ok_0[i],
            ) by {
                if i < front.len() {
                    assert(front[i] == items[i]);
                }
            }
        } else if transports_of(front) is Err {
            let i = choose|i: int|
                0 <= i < front.len() && !(transport_of(#[trigger] front[i]) is Ok);
            assert(front[i] == items[i]);
        } else {
            assert(items[items.len() - 1] == items.last());
        }
    }
}

/// An address is read from a table that gives the endpoint and the ways to
/// reach it, and has just those ways.
pub proof fn an_address_has_its_ways(tree: Tree, way: Transport)
    ensures
        ({
            let fields = tree->Table_0;
            let id = fields["endpoint_id"@];
            let listed = fields["addrs"@];
            &&& address_of(tree) is Ok <==> {
                &&& tree is Table
                &&& fields.contains_key("endpoint_id"@) && id is Text && endpoint_id_of(id->Text_0)
                    is Some
                &&& fields.contains_key("addrs"@) && listed is Array
                &&& forall|i: int|
                    0 <= i < listed->Array_0.len() ==> transport_of(
                        #[trigger] listed->Array_0[i],
                    ) is Ok
            }
            &&& address_of(tree) matches Ok(address) ==> Some(address.id) == endpoint_id_of(
                id->Text_0,
            )
            &&& address_of(tree) matches Ok(address) ==> (address.addrs.contains(way)
                <==> exists|i: int|
                0 <= i < listed->Array_0.len() && transport_of(#[trigger] listed->Array_0[i])
                    == Ok::<Transport, crate::state::nodes::AddrFault>(way))
        }),
{
    if tree is Table && tree->Table_0.contains_key("addrs"@) && tree->Table_0["addrs"@] is Array {
        let items = tree->Table_0["addrs"@]->Array_0;
        ways_are_read(items);
        if address_of(tree) is Ok {
            let ways = transports_of(items)->Ok_0;
            if ways.contains(way) {
                let i = choose|i: int| 0 <= i < ways.len() && ways[i] == way;
                assert(transport_of(items[i]) == Ok::<
                    Transport,
                    crate::state::nodes::AddrFault,
                >(way));
            }
            if exists|i: int|
                0 <= i < items.len() && transport_of(#[trigger] items[i]) == Ok::<
                    Transport,
                    crate::state::nodes::AddrFault,
                >(way) {
                let i = choose|i: int|
                    0 <= i < items.len() && transport_of(#[trigger] items[i]) == Ok::<
                        Transport,
                        crate::state::nodes::AddrFault,
                    >(way);
                assert(ways[i] == way);
            }
        }
    }
}

/// Whether a value is a table that files nothing but nodes, each under its id
/// and with an address under `iroh`.
pub open spec fn files_nodes(tree: Tree) -> bool {
    tree is Table && forall|name: Seq<char>| #[trigger]
        tree->Table_0.contains_key(name) ==> {
            let node = tree->Table_0[name];
            &&& spells_an_id(name)
            &&& node is Table && node->Table_0.contains_key("iroh"@) && address_of(
                node->Table_0["iroh"@],
            ) is Ok
        }
}

/// Whether a name spells an id: sixty-four digits of lowercase hexadecimal.
pub open spec fn spells_an_id(name: Seq<char>) -> bool {
    name.len() == 64 && forall|i: int|
        0 <= i < name.len() ==> '0' <= #[trigger] name[i] <= '9' || 'a' <= name[i] <= 'f'
}

/// A name that reads back as itself is the spelling of an id.
proof fn a_spelling_is_lowercase(name: Seq<char>)
    ensures
        (name.len() == 64 && all_hex(name) && name == hex_of(unhex(name))) <==> spells_an_id(name),
{
    if name.len() == 64 && all_hex(name) {
        let again = hex_of(unhex(name));
        assert forall|i: int| 0 <= i < 64 implies #[trigger] again[i] == hex_char(
            hex_value(name[i])->0,
        ) by {
            let high = hex_value(name[2 * (i / 2)])->0;
            let low = hex_value(name[2 * (i / 2) + 1])->0;
            assert(hex_value(name[2 * (i / 2)]) is Some);
            assert(hex_value(name[2 * (i / 2) + 1]) is Some);
            assert(0 <= high < 16 && 0 <= low < 16);
            assert(unhex(name)[i / 2] == (high * 16 + low) as u8);
            assert((high * 16 + low) / 16 == high && (high * 16 + low) % 16 == low);
        }
        if name == again {
            assert forall|i: int| 0 <= i < name.len() implies '0' <= #[trigger] name[i] <= '9'
                || 'a' <= name[i] <= 'f' by {
                assert(again[i] == hex_char(hex_value(name[i])->0));
                assert(hex_value(name[i]) is Some);
            }
        }
        if spells_an_id(name) {
            assert forall|i: int| 0 <= i < 64 implies name[i] == again[i] by {
                assert('0' <= name[i] <= '9' || 'a' <= name[i] <= 'f');
                assert(again[i] == hex_char(hex_value(name[i])->0));
            }
            assert(name =~= again);
        }
    }
    if spells_an_id(name) {
        assert forall|i: int| 0 <= i < name.len() implies hex_value(#[trigger] name[i]) is Some by {
            assert('0' <= name[i] <= '9' || 'a' <= name[i] <= 'f');
        }
    }
}

/// Nodes are known just as they are filed: each under its id with the address
/// that is given for it, none besides, and none at all without the table.
pub proof fn what_is_filed_is_known(version: Version)
    ensures
        !version.contains_key(CLUSTER_NODES_KEY@) ==> nodes_at(version) == Ok::<
            Map<KeyId, Address>,
            Refusal,
        >(Map::empty()),
        version.contains_key(CLUSTER_NODES_KEY@) ==> (nodes_at(version) is Ok <==> files_nodes(
            version[CLUSTER_NODES_KEY@],
        )),
        version.contains_key(CLUSTER_NODES_KEY@) ==> (fault_of(
            CLUSTER_NODES_KEY@,
            version[CLUSTER_NODES_KEY@],
        ) is None <==> nodes_at(version) is Ok),
        version.contains_key(CLUSTER_NODES_KEY@) && nodes_at(version) is Ok ==> forall|id: KeyId|
            #[trigger] nodes_at(version)->Ok_0.contains_key(id)
                == version[CLUSTER_NODES_KEY@]->Table_0.contains_key(hex_of(id.bytes@)),
        version.contains_key(CLUSTER_NODES_KEY@) && nodes_at(version) is Ok ==> forall|id: KeyId|
            #[trigger] nodes_at(version)->Ok_0.contains_key(id) ==> address_of(
                version[CLUSTER_NODES_KEY@]->Table_0[hex_of(id.bytes@)]->Table_0["iroh"@],
            )->Ok_0 == nodes_at(version)->Ok_0[id],
{
    rules_apart();
    if version.contains_key(CLUSTER_NODES_KEY@) {
        let tree = version[CLUSTER_NODES_KEY@];
        if tree is Table {
            let fields = tree->Table_0;
            let bad = bad_node(fields);
            if any(bad) {
                let name = choose|name: Seq<char>| #[trigger] bad(name);
                a_spelling_is_lowercase(name);
                assert(fields.contains_key(name));
                assert(!files_nodes(tree));
            } else {
                assert forall|name: Seq<char>| #[trigger] fields.contains_key(name) implies {
                    let node = fields[name];
                    &&& spells_an_id(name)
                    &&& node is Table && node->Table_0.contains_key("iroh"@) && address_of(
                        node->Table_0["iroh"@],
                    ) is Ok
                } by {
                    assert(!bad(name));
                    a_spelling_is_lowercase(name);
                }
            }
        }
    }
}

/// Whether an entry of the trusted keys is no key filed under its own id.
pub open spec fn misfiled(fields: Map<Seq<char>, Tree>, name: Seq<char>) -> bool {
    fields.contains_key(name) && !(fields[name] is Key && name == hex_of(
        fields[name]->Key_0.id.bytes@,
    ))
}

/// Where trusted keys are filed wrong, the first of them by name is told, and
/// of a key where it belongs.
pub proof fn the_first_misfiled_key_is_told(fields: Map<Seq<char>, Tree>, name: Seq<char>)
    requires
        misfiled(fields, name),
        forall|other: Seq<char>| #[trigger] misfiled(fields, other) ==> !text_lt(other, name),
    ensures
        trusted_keys_of(Tree::Table(fields)) == if fields[name] is Key {
            Err::<Map<KeyId, Key>, KeysFault>(
                KeysFault::IdMismatch { id: name, derived: fields[name]->Key_0.id },
            )
        } else {
            Err(KeysFault::NotAKey { id: name })
        },
{
    let bad = bad_key(fields);
    assert forall|other: Seq<char>| #[trigger] bad(other) == misfiled(fields, other) by {}
    assert(is_first(bad, name));
    first_is(bad, name);
}

/// Where nodes are filed wrong, the first of them by name is told, under its
/// name; and what files nothing by name is no table of nodes.
pub proof fn the_first_misfiled_node_is_told(
    fields: Map<Seq<char>, Tree>,
    name: Seq<char>,
    other: Tree,
)
    requires
        fields.contains_key(name),
        node_fault(name, fields[name]) is Some,
        forall|other: Seq<char>|
            #[trigger] fields.contains_key(other) && node_fault(other, fields[other]) is Some
                ==> !text_lt(other, name),
    ensures
        cluster_nodes_of(Tree::Table(fields)) is Err,
        cluster_nodes_of(Tree::Table(fields))->Err_0 == node_fault(name, fields[name])->0,
        (name + ": "@).is_prefix_of(cluster_nodes_of(Tree::Table(fields))->Err_0),
        !(other is Table) ==> cluster_nodes_of(other) is Err,
{
    let bad = bad_node(fields);
    assert(bad(name));
    assert forall|other: Seq<char>| #[trigger] bad(other) implies !text_lt(other, name) by {
        assert(fields.contains_key(other));
    }
    assert(is_first(bad, name));
    first_is(bad, name);
    let text = node_fault(name, fields[name])->0;
    let front = name + ": "@;
    reveal_strlit(": ");
    reveal_strlit(": not the canonical spelling of a key id");
    reveal_strlit(": missing or invalid `iroh` value");
    reveal_strlit(": not a map");
    assert(text.subrange(0, front.len() as int) =~= front);
}

/// A node is refused for its name before it is for its address: for one of
/// another length than an id has, one that holds what is no hexadecimal
/// digit, and one with a capital in it, in this order.
pub proof fn a_node_is_refused_for_its_name(name: Seq<char>, tree: Tree, other: Tree)
    ensures
        name.len() != 64 ==> node_fault(name, tree) is Some && ends_on(
            node_fault(name, tree)->0,
            "expected 64 hexadecimal digits"@,
        ),
        name.len() == 64 && !all_hex(name) ==> node_fault(name, tree) is Some && ends_on(
            node_fault(name, tree)->0,
            "not a hexadecimal digit"@,
        ),
        !spells_an_id(name) ==> node_fault(name, tree) == node_fault(name, other),
{
    a_spelling_is_lowercase(name);
    what_stands_last(name + ": "@, "expected 64 hexadecimal digits"@);
    what_stands_last(name + ": "@, "not a hexadecimal digit"@);
}

/// Where what is filed cannot be read, it is said of which namespace, and
/// what is wrong there.
pub proof fn what_cannot_be_read_is_named(version: Version)
    ensures
        trusted_at(version) matches Err(refusal) ==> version.contains_key(TRUSTED_KEYS_KEY@)
            && fault_of(TRUSTED_KEYS_KEY@, version[TRUSTED_KEYS_KEY@]) is Some && refusal
            == (Refusal::InvalidValue {
            key: TRUSTED_KEYS_KEY@,
            fault: fault_of(TRUSTED_KEYS_KEY@, version[TRUSTED_KEYS_KEY@])->0,
        }),
        nodes_at(version) matches Err(refusal) ==> version.contains_key(CLUSTER_NODES_KEY@)
            && fault_of(CLUSTER_NODES_KEY@, version[CLUSTER_NODES_KEY@]) is Some && refusal
            == (Refusal::InvalidValue {
            key: CLUSTER_NODES_KEY@,
            fault: fault_of(CLUSTER_NODES_KEY@, version[CLUSTER_NODES_KEY@])->0,
        }),
{
    rules_apart();
}

} // verus!
