//! How to reach a node, as a ledger value spells it.

use vstd::prelude::*;

use crate::order::SortedMap;
use crate::text::{append, text_of};
use crate::value::{array_tree, fields_tree, items_tree, table_tree, Tree, Value};

verus! {

/// The bytes of the endpoint id a text spells in z-base-32, as `iroh` reads
/// it.
pub uninterp spec fn endpoint_id_of(text: Seq<char>) -> Option<Seq<u8>>;

/// Calls `iroh::EndpointId::from_z32`: the bytes of the key the text
/// decodes to, where it is one.
#[verifier::external_body]
fn read_endpoint_id(text: &str) -> (id: Option<[u8; 32]>)
    ensures
        match id {
            Some(id) => endpoint_id_of(text@) == Some(id@),
            None => endpoint_id_of(text@) is None,
        },
{
    iroh::EndpointId::from_z32(text).ok().map(|id| *id.as_bytes())
}

/// The socket address a text spells, as std writes it back.
pub uninterp spec fn socket_addr_of(text: Seq<char>) -> Option<Seq<char>>;

/// Reads a socket address with `str::parse`, as the address that
/// `iroh::TransportAddr::Ip` holds, and writes it back.
#[verifier::external_body]
fn read_socket_addr(text: &str) -> (addr: Option<String>)
    ensures
        match addr {
            Some(addr) => socket_addr_of(text@) == Some(addr@),
            None => socket_addr_of(text@) is None,
        },
{
    match text.parse().map(iroh::TransportAddr::Ip) {
        Ok(iroh::TransportAddr::Ip(addr)) => Some(addr.to_string()),
        _ => None,
    }
}

/// The relay URL a text spells, as `iroh` writes it back.
pub uninterp spec fn relay_url_of(text: Seq<char>) -> Option<Seq<char>>;

/// Reads an `iroh::RelayUrl` from text, and writes it back.
#[verifier::external_body]
fn read_relay_url(text: &str) -> (url: Option<String>)
    ensures
        match url {
            Some(url) => relay_url_of(text@) == Some(url@),
            None => relay_url_of(text@) is None,
        },
{
    text.parse::<iroh::RelayUrl>().ok().map(|url| url.to_string())
}

/// One way to reach a node.
#[derive(Debug, PartialEq, Eq)]
pub enum TransportAddr {
    /// Through the relay at this URL.
    Relay(String),
    /// At this socket address.
    Ip(String),
}

/// What one way to reach a node is.
pub enum Transport {
    Relay(Seq<char>),
    Ip(Seq<char>),
}

impl View for TransportAddr {
    type V = Transport;

    open spec fn view(&self) -> Transport {
        match self {
            TransportAddr::Relay(url) => Transport::Relay(url@),
            TransportAddr::Ip(addr) => Transport::Ip(addr@),
        }
    }
}

/// Who a node is, and the ways to reach it.
#[derive(Debug, PartialEq, Eq)]
pub struct EndpointAddr {
    /// The endpoint's public key.
    pub id: [u8; 32],
    /// The ways to reach it, none twice.
    pub addrs: Vec<TransportAddr>,
}

/// What an address is. The ways to reach a node have no order, and are in it
/// or not.
pub struct Address {
    pub id: Seq<u8>,
    pub addrs: Set<Transport>,
}

/// The ways that a list names.
pub open spec fn ways(addrs: Seq<TransportAddr>) -> Set<Transport> {
    Set::new(|way: Transport| exists|i: int| 0 <= i < addrs.len() && (#[trigger] addrs[i])@ == way)
}

impl View for EndpointAddr {
    type V = Address;

    open spec fn view(&self) -> Address {
        Address {
            id: self.id@,
            addrs: ways(self.addrs@),
        }
    }
}

impl EndpointAddr {
    /// Whether no way is listed twice.
    pub open spec fn wf(&self) -> bool {
        forall|i: int, j: int|
            0 <= i < j < self.addrs@.len() ==> (#[trigger] self.addrs@[i])@ != (
            #[trigger] self.addrs@[j])@
    }
}

/// Why a value is no address.
#[derive(Debug, PartialEq, Eq)]
pub enum AddrError {
    /// What should be a table is not.
    NotAMap(&'static str),
    /// A field is not there, or is not what it should be.
    MissingField(&'static str),
    /// The endpoint id cannot be read.
    BadEndpointId(String),
    /// A transport address cannot be read.
    BadAddr { kind: String, text: String },
}

/// What is wrong with an address.
pub enum AddrFault {
    NotAMap(Seq<char>),
    MissingField(Seq<char>),
    BadEndpointId(Seq<char>),
    BadAddr { kind: Seq<char>, text: Seq<char> },
}

impl View for AddrError {
    type V = AddrFault;

    open spec fn view(&self) -> AddrFault {
        match self {
            AddrError::NotAMap(what) => AddrFault::NotAMap(what@),
            AddrError::MissingField(field) => AddrFault::MissingField(field@),
            AddrError::BadEndpointId(text) => AddrFault::BadEndpointId(text@),
            AddrError::BadAddr { kind, text } => AddrFault::BadAddr { kind: kind@, text: text@ },
        }
    }
}

/// What is wrong with an address, as a person reads it.
pub open spec fn addr_fault_text(fault: AddrFault) -> Seq<char> {
    match fault {
        AddrFault::NotAMap(what) => what + " is not a map"@,
        AddrFault::MissingField(field) => "missing or invalid `"@ + field + "` field"@,
        AddrFault::BadEndpointId(text) => "`"@ + text + "` is not an endpoint id"@,
        AddrFault::BadAddr { kind, text } => "`"@ + text + "` is not an address of type `"@ + kind
            + "`"@,
    }
}

impl AddrError {
    /// Appends the failure as a person reads it.
    pub fn describe(&self, out: &mut Vec<char>)
        ensures
            final(out)@ == old(out)@ + addr_fault_text(self@),
    {
        let ghost was = out@;
        match self {
            AddrError::NotAMap(what) => {
                append(out, what);
                append(out, " is not a map");
            },
            AddrError::MissingField(field) => {
                append(out, "missing or invalid `");
                append(out, field);
                append(out, "` field");
            },
            AddrError::BadEndpointId(text) => {
                append(out, "`");
                append(out, text.as_str());
                append(out, "` is not an endpoint id");
            },
            AddrError::BadAddr { kind, text } => {
                append(out, "`");
                append(out, text.as_str());
                append(out, "` is not an address of type `");
                append(out, kind.as_str());
                append(out, "`");
            },
        }
        assert(out@ =~= was + addr_fault_text(self@));
    }

    /// The failure as a person reads it.
    pub fn text(&self) -> (text: String)
        ensures
            text@ == addr_fault_text(self@),
    {
        let mut out: Vec<char> = Vec::new();
        self.describe(&mut out);
        assert(out@ =~= addr_fault_text(self@));
        text_of(&out)
    }
}

/// The text under `name`, where there is one.
pub open spec fn text_under(fields: Map<Seq<char>, Tree>, name: Seq<char>) -> Option<Seq<char>> {
    if fields.contains_key(name) {
        match fields[name] {
            Tree::Text(text) => Some(text),
            _ => None,
        }
    } else {
        None
    }
}

/// The array under `name`, where there is one.
pub open spec fn array_under(fields: Map<Seq<char>, Tree>, name: Seq<char>) -> Option<Seq<Tree>> {
    if fields.contains_key(name) {
        match fields[name] {
            Tree::Array(items) => Some(items),
            _ => None,
        }
    } else {
        None
    }
}

/// The transport address `tree` spells: a table with its `type` and its
/// `addr`.
pub open spec fn transport_of(tree: Tree) -> Result<Transport, AddrFault> {
    match tree {
        Tree::Table(fields) => match (text_under(fields, "type"@), text_under(fields, "addr"@)) {
            (None, _) => Err(AddrFault::MissingField("type"@)),
            (_, None) => Err(AddrFault::MissingField("addr"@)),
            (Some(kind), Some(text)) => if kind == "ip"@ && socket_addr_of(text) is Some {
                Ok(Transport::Ip(socket_addr_of(text)->0))
            } else if kind == "relay"@ && relay_url_of(text) is Some {
                Ok(Transport::Relay(relay_url_of(text)->0))
            } else {
                Err(AddrFault::BadAddr { kind, text })
            },
        },
        _ => Err(AddrFault::NotAMap("transport address"@)),
    }
}

/// The transport addresses `items` spell, or what is wrong with the first
/// that is none.
pub open spec fn transports_of(items: Seq<Tree>) -> Result<Seq<Transport>, AddrFault>
    decreases items.len(),
{
    if items.len() == 0 {
        Ok(Seq::empty())
    } else {
        match transports_of(items.drop_last()) {
            Err(fault) => Err(fault),
            Ok(front) => match transport_of(items.last()) {
                Err(fault) => Err(fault),
                Ok(transport) => Ok(front.push(transport)),
            },
        }
    }
}

/// The address `tree` spells: a table with the `endpoint_id` and the
/// `addrs`, of which one listed twice counts once and the order is nothing.
pub open spec fn address_of(tree: Tree) -> Result<Address, AddrFault> {
    match tree {
        Tree::Table(fields) => match text_under(fields, "endpoint_id"@) {
            None => Err(AddrFault::MissingField("endpoint_id"@)),
            Some(text) => match endpoint_id_of(text) {
                None => Err(AddrFault::BadEndpointId(text)),
                Some(id) => match array_under(fields, "addrs"@) {
                    None => Err(AddrFault::MissingField("addrs"@)),
                    Some(items) => match transports_of(items) {
                        Err(fault) => Err(fault),
                        Ok(addrs) => Ok(Address { id, addrs: addrs.to_set() }),
                    },
                },
            },
        },
        _ => Err(AddrFault::NotAMap("endpoint address"@)),
    }
}

/// The first failure stands for the whole list.
proof fn transports_fail_early(items: Seq<Tree>, n: int)
    requires
        0 <= n <= items.len(),
        transports_of(items.take(n)) is Err,
    ensures
        transports_of(items) == transports_of(items.take(n)),
    decreases items.len() - n,
{
    if n < items.len() {
        assert(items.take(n + 1).drop_last() =~= items.take(n));
        transports_fail_early(items, n + 1);
    } else {
        assert(items.take(n) =~= items);
    }
}

/// The field named `name` of a table.
pub fn field_named<'a>(fields: &'a SortedMap<String, Value>, name: &str) -> (found: Option<
    &'a Value,
>)
    requires
        Value::Table(*fields).wf(),
    ensures
        match found {
            Some(value) => {
                &&& value.wf()
                &&& fields_tree(*fields).contains_key(name@)
                &&& fields_tree(*fields)[name@] == value.tree()
            },
            None => !fields_tree(*fields).contains_key(name@),
        },
{
    let name = name.to_owned();
    proof {
        table_tree(*fields);
    }
    match fields.find(&name) {
        Ok(i) => {
            assert(fields.entries@[i as int].0@ == name@);
            Some(&fields.entries[i].1)
        },
        Err(_) => None,
    }
}

/// The text in the field named `name` of a table.
fn text_named<'a>(fields: &'a SortedMap<String, Value>, name: &str) -> (found: Option<&'a String>)
    requires
        Value::Table(*fields).wf(),
    ensures
        match found {
            Some(text) => text_under(fields_tree(*fields), name@) == Some(text@),
            None => text_under(fields_tree(*fields), name@) is None,
        },
{
    match field_named(fields, name) {
        Some(Value::String(text)) => Some(text),
        Some(value) => {
            assert(!(value.tree() is Text));
            None
        },
        None => None,
    }
}

/// Whether two texts are the same.
pub fn same_text(a: &String, b: &str) -> (same: bool)
    ensures
        same == (a@ == b@),
{
    let b = b.to_owned();
    *a == b
}

/// Reads one transport address.
fn read_transport(value: &Value) -> (transport: Result<TransportAddr, AddrError>)
    requires
        value.wf(),
    ensures
        match transport {
            Ok(transport) => transport_of(value.tree()) == Ok::<Transport, AddrFault>(transport@),
            Err(error) => transport_of(value.tree()) == Err::<Transport, AddrFault>(error@),
        },
{
    let Value::Table(fields) = value else {
        assert(!(value.tree() is Table));
        return Err(AddrError::NotAMap("transport address"));
    };
    proof {
        table_tree(*fields);
    }
    let Some(kind) = text_named(fields, "type") else {
        return Err(AddrError::MissingField("type"));
    };
    let Some(text) = text_named(fields, "addr") else {
        return Err(AddrError::MissingField("addr"));
    };
    if same_text(kind, "ip") {
        if let Some(addr) = read_socket_addr(text.as_str()) {
            return Ok(TransportAddr::Ip(addr));
        }
    }
    if same_text(kind, "relay") {
        if let Some(url) = read_relay_url(text.as_str()) {
            proof {
                reveal_strlit("ip");
                reveal_strlit("relay");
                assert("ip"@.len() != "relay"@.len());
            }
            return Ok(TransportAddr::Relay(url));
        }
    }
    Err(AddrError::BadAddr { kind: kind.clone(), text: text.clone() })
}

/// Reads an address.
pub fn read_address(value: &Value) -> (address: Result<EndpointAddr, AddrError>)
    requires
        value.wf(),
    ensures
        match address {
            Ok(address) => address.wf() && address_of(value.tree()) == Ok::<Address, AddrFault>(
                address@,
            ),
            Err(error) => address_of(value.tree()) == Err::<Address, AddrFault>(error@),
        },
{
    let Value::Table(fields) = value else {
        assert(!(value.tree() is Table));
        return Err(AddrError::NotAMap("endpoint address"));
    };
    proof {
        table_tree(*fields);
    }
    let Some(text) = text_named(fields, "endpoint_id") else {
        return Err(AddrError::MissingField("endpoint_id"));
    };
    let Some(id) = read_endpoint_id(text.as_str()) else {
        return Err(AddrError::BadEndpointId(text.clone()));
    };
    let items = match field_named(fields, "addrs") {
        Some(Value::Array(items)) => items,
        Some(value) => {
            assert(!(value.tree() is Array));
            return Err(AddrError::MissingField("addrs"));
        },
        None => {
            return Err(AddrError::MissingField("addrs"));
        },
    };
    proof {
        array_tree(*items);
    }
    let ghost trees = items_tree(items@);
    let mut addrs: Vec<TransportAddr> = Vec::new();
    let ghost mut seen: Seq<Transport> = Seq::empty();
    let mut i: usize = 0;
    assert(trees.take(0).len() == 0);
    while i < items.len()
        invariant
            i <= items@.len(),
            forall|j: int| 0 <= j < items@.len() ==> (#[trigger] items@[j]).wf(),
            trees == items_tree(items@),
            fields_tree(*fields).contains_key("addrs"@),
            fields_tree(*fields)["addrs"@] == Tree::Array(trees),
            value.tree() == Tree::Table(fields_tree(*fields)),
            text_under(fields_tree(*fields), "endpoint_id"@) == Some(text@),
            endpoint_id_of(text@) == Some(id@),
            transports_of(trees.take(i as int)) == Ok::<Seq<Transport>, AddrFault>(seen),
            forall|way: Transport| ways(addrs@).contains(way) <==> #[trigger] seen.contains(way),
            forall|j: int, k: int|
                0 <= j < k < addrs@.len() ==> (#[trigger] addrs@[j])@ != (#[trigger] addrs@[k])@,
        decreases items@.len() - i,
    {
        assert(trees.take(i + 1).drop_last() =~= trees.take(i as int));
        assert(trees.take(i + 1).last() == items@[i as int].tree());
        match read_transport(&items[i]) {
            Ok(addr) => {
                let ghost way = addr@;
                let ghost before = addrs@;
                let ghost was = seen;
                if !lists(&addrs, &addr) {
                    addrs.push(addr);
                }
                proof {
                    seen = seen.push(way);
                    assert forall|other: Transport| ways(addrs@).contains(other)
                        <==> #[trigger] seen.contains(other) by {
                        assert(was.contains(other) <==> ways(before).contains(other));
                        if was.contains(other) {
                            let j = choose|j: int| 0 <= j < was.len() && was[j] == other;
                            assert(seen[j] == other);
                            let k = choose|k: int|
                                0 <= k < before.len() && (#[trigger] before[k])@ == other;
                            assert(addrs@[k]@ == other);
                        }
                        if other == way {
                            assert(seen.last() == other);
                            if addrs@.len() > before.len() {
                                assert(addrs@[before.len() as int]@ == other);
                            }
                        }
                        if ways(addrs@).contains(other) {
                            let k = choose|k: int|
                                0 <= k < addrs@.len() && (#[trigger] addrs@[k])@ == other;
                            if k < before.len() {
                                assert(before[k]@ == other);
                            }
                        }
                    }
                }
            },
            Err(error) => {
                proof {
                    transports_fail_early(trees, i + 1);
                }
                return Err(error);
            },
        }
        i += 1;
    }
    assert(trees.take(i as int) =~= trees);
    let address = EndpointAddr { id, addrs };
    assert(address@.addrs =~= seen.to_set());
    Ok(address)
}

/// Whether a list names a way already.
fn lists(addrs: &Vec<TransportAddr>, addr: &TransportAddr) -> (listed: bool)
    ensures
        listed == ways(addrs@).contains(addr@),
{
    let mut i: usize = 0;
    while i < addrs.len()
        invariant
            i <= addrs@.len(),
            forall|j: int| 0 <= j < i ==> (#[trigger] addrs@[j])@ != addr@,
        decreases addrs@.len() - i,
    {
        let same: bool = match (&addrs[i], addr) {
            (TransportAddr::Relay(a), TransportAddr::Relay(b)) => same_text(a, b.as_str()),
            (TransportAddr::Ip(a), TransportAddr::Ip(b)) => same_text(a, b.as_str()),
            _ => false,
        };
        if same {
            assert(addrs@[i as int]@ == addr@);
            return true;
        }
        i += 1;
    }
    false
}

} // verus!
