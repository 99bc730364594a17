//! The messages envelopes carry.

use vstd::prelude::*;

use crate::digest::EnvelopeDigest;
use crate::order::{Ordered, SortedMap};
use crate::subkey::{Step, Subkey, SubkeyPath};
use crate::text::{text_less, text_lt, text_lt_irreflexive, text_lt_total, text_lt_transitive};
use crate::tree::walked;
use crate::value::{Tree, Value};
use crate::storage::value::walk;

verus! {

/// A namespace was given no name.
#[derive(Debug, Clone, Copy, PartialEq, Eq, Structural)]
pub struct EmptyKey;

impl EmptyKey {
    /// The failure as a person reads it.
    pub fn describe(&self) -> (text: &'static str)
        ensures
            text@ == "a namespace key cannot be empty"@,
    {
        "a namespace key cannot be empty"
    }
}

/// The name a namespace goes by; never empty.
#[derive(Debug, PartialEq, Eq)]
pub struct NamespaceKey {
    pub text: String,
}

impl View for NamespaceKey {
    type V = Seq<char>;

    open spec fn view(&self) -> Seq<char> {
        self.text@
    }
}

impl Clone for NamespaceKey {
    fn clone(&self) -> (copy: Self)
        ensures
            copy == *self,
    {
        NamespaceKey { text: self.text.clone() }
    }
}

impl Ordered for NamespaceKey {
    open spec fn lt(a: Seq<char>, b: Seq<char>) -> bool {
        text_lt(a, b)
    }

    proof fn lt_irreflexive(a: Seq<char>) {
        text_lt_irreflexive(a);
    }

    proof fn lt_transitive(a: Seq<char>, b: Seq<char>, c: Seq<char>) {
        text_lt_transitive(a, b, c);
    }

    proof fn lt_total(a: Seq<char>, b: Seq<char>) {
        text_lt_total(a, b);
    }

    fn less(&self, other: &Self) -> (less: bool) {
        text_less(self.text.as_str(), other.text.as_str())
    }

    fn duplicate(&self) -> (copy: Self) {
        self.clone()
    }
}

impl NamespaceKey {
    /// The namespace named `text`, which must not be empty.
    pub fn try_new(text: &str) -> (key: Result<Self, EmptyKey>)
        ensures
            match key {
                Ok(key) => text@.len() > 0 && key@ == text@,
                Err(_) => text@.len() == 0,
            },
    {
        if text.is_empty() {
            Err(EmptyKey)
        } else {
            Ok(NamespaceKey { text: text.to_owned() })
        }
    }

    /// Whether this names the same namespace as `other`.
    pub fn same(&self, other: &Self) -> (same: bool)
        ensures
            same == (self@ == other@),
    {
        self.text == other.text
    }
}

/// What a namespace holds.
#[derive(Debug, PartialEq, Eq)]
pub struct Namespace {
    pub value: Value,
}

impl View for Namespace {
    type V = Tree;

    open spec fn view(&self) -> Tree {
        self.value.tree()
    }
}

impl Namespace {
    /// Whether the value keeps its tables in order.
    pub open spec fn wf(&self) -> bool {
        self.value.wf()
    }
}

impl Clone for Namespace {
    fn clone(&self) -> (copy: Self)
        ensures
            self.wf() ==> copy.wf() && copy@ == self@,
    {
        Namespace { value: self.value.clone() }
    }
}

/// Every namespace of one version of the state, by name.
pub type Namespaces = SortedMap<NamespaceKey, Namespace>;

/// Whether the namespaces stand in order and each is well formed.
pub open spec fn namespaces_wf(namespaces: Namespaces) -> bool {
    &&& namespaces.wf()
    &&& forall|i: int|
        0 <= i < namespaces.entries@.len() ==> (#[trigger] namespaces.entries@[i]).1.wf()
}

/// What each namespace holds, by name.
pub open spec fn namespaces_view(namespaces: Namespaces) -> Map<Seq<char>, Tree> {
    Map::new(|k: Seq<char>| namespaces@.contains_key(k), |k: Seq<char>| namespaces@[k]@)
}

/// Namespaces filed alike hold the same.
pub proof fn namespaces_alike(a: Namespaces, b: Namespaces)
    requires
        a.wf(),
        a.entries@.len() == b.entries@.len(),
        forall|i: int|
            0 <= i < a.entries@.len() ==> (#[trigger] a.entries@[i]).0@ == b.entries@[i].0@
                && a.entries@[i].1@ == b.entries@[i].1@,
    ensures
        b.wf(),
        namespaces_view(a) == namespaces_view(b),
{
    assert forall|i: int, j: int| 0 <= i < j < b.entries@.len() implies <NamespaceKey as Ordered>::lt(
        (#[trigger] b.entries@[i]).0@,
        (#[trigger] b.entries@[j]).0@,
    ) by {
        assert(a.entries@[i].0@ == b.entries@[i].0@);
        assert(a.entries@[j].0@ == b.entries@[j].0@);
    }
    let left = namespaces_view(a);
    let right = namespaces_view(b);
    assert forall|k: Seq<char>|
        #![trigger left.dom().contains(k)]
        #![trigger right.dom().contains(k)]
        #![trigger left[k]]
        #![trigger right[k]]
        left.dom().contains(k) == right.dom().contains(k) && (left.dom().contains(k) ==> left[k]
            == right[k]) by {
        if a.has(k) {
            let i = a.index_of(k);
            assert(a.filed(i, k));
            assert(a.entries@[i].0@ == b.entries@[i].0@);
            assert(b.filed(i, k));
            a.filed_once(i, k);
            b.filed_once(i, k);
        }
        if b.has(k) {
            let i = b.index_of(k);
            assert(b.filed(i, k));
            assert(a.entries@[i].0@ == b.entries@[i].0@);
            assert(a.filed(i, k));
            a.filed_once(i, k);
            b.filed_once(i, k);
        }
    }
    assert(left =~= right);
}

/// The same namespaces again.
pub fn copy_namespaces(namespaces: &Namespaces) -> (copy: Namespaces)
    ensures
        namespaces_wf(*namespaces) ==> namespaces_wf(copy) && namespaces_view(copy)
            == namespaces_view(*namespaces),
        copy.entries@.len() == namespaces.entries@.len(),
{
    let mut entries: Vec<(NamespaceKey, Namespace)> = Vec::new();
    let mut i: usize = 0;
    while i < namespaces.entries.len()
        invariant
            i <= namespaces.entries@.len(),
            entries@.len() == i,
            forall|j: int| 0 <= j < i ==> (#[trigger] entries@[j]).0 == namespaces.entries@[j].0,
            forall|j: int|
                0 <= j < i && namespaces.entries@[j].1.wf() ==> (#[trigger] entries@[j]).1.wf()
                    && entries@[j].1@ == namespaces.entries@[j].1@,
        decreases namespaces.entries@.len() - i,
    {
        let entry = &namespaces.entries[i];
        entries.push((entry.0.clone(), entry.1.clone()));
        i += 1;
    }
    let copy = SortedMap { entries };
    proof {
        if namespaces_wf(*namespaces) {
            namespaces_alike(*namespaces, copy);
        }
    }
    copy
}

/// A namespace filed is one more in the view.
pub proof fn namespace_inserted(
    before: Namespaces,
    after: Namespaces,
    name: Seq<char>,
    namespace: Namespace,
)
    requires
        namespaces_wf(before),
        after.wf(),
        after@ == before@.insert(name, namespace),
        namespace.wf(),
    ensures
        namespaces_wf(after),
        namespaces_view(after) == namespaces_view(before).insert(name, namespace@),
{
    assert(namespaces_view(after) =~= namespaces_view(before).insert(name, namespace@));
    assert forall|j: int| 0 <= j < after.entries@.len() implies (
    #[trigger] after.entries@[j]).1.wf() by {
        let k = after.entries@[j].0@;
        after.filed_once(j, k);
        if k != name {
            before.filed_somewhere(k);
            assert(before.entries@[before.index_of(k)].1.wf());
        }
    }
}

/// A namespace taken out is gone from the view.
pub proof fn namespace_removed(before: Namespaces, after: Namespaces, name: Seq<char>)
    requires
        namespaces_wf(before),
        after.wf(),
        after@ == before@.remove(name),
    ensures
        namespaces_wf(after),
        namespaces_view(after) == namespaces_view(before).remove(name),
{
    assert(namespaces_view(after) =~= namespaces_view(before).remove(name));
    assert forall|j: int| 0 <= j < after.entries@.len() implies (
    #[trigger] after.entries@[j]).1.wf() by {
        let k = after.entries@[j].0@;
        after.filed_once(j, k);
        before.filed_somewhere(k);
        assert(before.entries@[before.index_of(k)].1.wf());
    }
}

/// The namespace at `i` replaced is a change of what its name holds.
pub proof fn namespace_replaced(
    before: Namespaces,
    after: Namespaces,
    i: int,
    namespace: Namespace,
)
    requires
        namespaces_wf(before),
        0 <= i < before.entries@.len(),
        after.entries@ == before.entries@.update(i, (before.entries@[i].0, namespace)),
        namespace.wf(),
    ensures
        namespaces_wf(after),
        namespaces_view(after) == namespaces_view(before).insert(
            before.entries@[i].0@,
            namespace@,
        ),
{
    before.replaced_is_inserted(&after, i, (before.entries@[i].0, namespace));
    namespace_inserted(before, after, before.entries@[i].0@, namespace);
}

/// The names of the namespaces, in order.
pub fn namespace_names(namespaces: &Namespaces) -> (names: Vec<NamespaceKey>)
    requires
        namespaces.wf(),
    ensures
        crate::storage::ascending(names@.map_values(|key: NamespaceKey| key@)),
        forall|name: Seq<char>|
            #[trigger] namespaces_view(*namespaces).contains_key(name) <==> names@.map_values(
                |key: NamespaceKey| key@,
            ).contains(name),
{
    let mut names: Vec<NamespaceKey> = Vec::new();
    let mut i: usize = 0;
    while i < namespaces.entries.len()
        invariant
            i <= namespaces.entries@.len(),
            names@.len() == i,
            forall|j: int| 0 <= j < i ==> (#[trigger] names@[j]) == namespaces.entries@[j].0,
        decreases namespaces.entries@.len() - i,
    {
        names.push(namespaces.entries[i].0.clone());
        i += 1;
    }
    proof {
        let listed = names@.map_values(|key: NamespaceKey| key@);
        assert forall|a: int, b: int| 0 <= a < b < listed.len() implies text_lt(
            #[trigger] listed[a],
            #[trigger] listed[b],
        ) by {
            assert(names@[a] == namespaces.entries@[a].0);
            assert(names@[b] == namespaces.entries@[b].0);
        }
        assert forall|name: Seq<char>| #[trigger]
            namespaces_view(*namespaces).contains_key(name) <==> listed.contains(name) by {
            if namespaces.has(name) {
                let j = namespaces.index_of(name);
                assert(namespaces.filed(j, name));
                assert(names@[j] == namespaces.entries@[j].0);
                assert(listed[j] == name);
            }
            if listed.contains(name) {
                let j = choose|j: int| 0 <= j < listed.len() && listed[j] == name;
                assert(names@[j] == namespaces.entries@[j].0);
                assert(namespaces.filed(j, name));
            }
        }
    }
    names
}

/// An addition to an integer, clamped to the bounds it carries.
#[derive(Debug, Clone, Copy, PartialEq, Eq)]
pub struct IncrementDecrement {
    /// How much to add; negative to take.
    pub delta: i64,
    /// The least the result may be.
    pub min: Option<i64>,
    /// The most the result may be.
    pub max: Option<i64>,
}

impl IncrementDecrement {
    /// What adding to `n` gives before machine limits: the sum, at most
    /// `max` and at least `min`.
    pub open spec fn clamped(&self, n: int) -> int {
        let sum = n + self.delta;
        let capped = match self.max {
            Some(max) if sum > max => max as int,
            _ => sum,
        };
        match self.min {
            Some(min) if capped < min => min as int,
            _ => capped,
        }
    }

    /// What adding to `n` gives, where a 64-bit integer can hold it.
    pub open spec fn applied(&self, n: i64) -> Option<i64> {
        let sum = self.clamped(n as int);
        if i64::MIN <= sum <= i64::MAX {
            Some(sum as i64)
        } else {
            None
        }
    }

    /// An unbounded addition of `delta`.
    pub fn new(delta: i64) -> (op: Self)
        ensures
            op == (IncrementDecrement { delta, min: None, max: None }),
    {
        IncrementDecrement { delta, min: None, max: None }
    }

    /// The same addition, never below `min`.
    pub fn with_min(self, min: i64) -> (op: Self)
        ensures
            op == (IncrementDecrement { min: Some(min), ..self }),
    {
        IncrementDecrement { delta: self.delta, min: Some(min), max: self.max }
    }

    /// The same addition, never above `max`.
    pub fn with_max(self, max: i64) -> (op: Self)
        ensures
            op == (IncrementDecrement { max: Some(max), ..self }),
    {
        IncrementDecrement { delta: self.delta, min: self.min, max: Some(max) }
    }

    /// Adds to `n`; `None` where the result leaves a 64-bit integer with no
    /// bound on that side to bring it back.
    pub fn apply(&self, n: i64) -> (sum: Option<i64>)
        ensures
            sum == self.applied(n),
    {
        let mut sum: i128 = n as i128 + self.delta as i128;
        if let Some(max) = self.max {
            if sum > max as i128 {
                sum = max as i128;
            }
        }
        if let Some(min) = self.min {
            if sum < min as i128 {
                sum = min as i128;
            }
        }
        if i64::MIN as i128 <= sum && sum <= i64::MAX as i128 {
            Some(sum as i64)
        } else {
            None
        }
    }
}

/// An increment keeps to the bounds it carries, and is the plain sum wherever
/// that keeps to them. One that leaves them lands on the bound it crossed;
/// with bounds that exclude each other, on the lower. Only a plain sum can
/// fail to fit.
pub proof fn an_increment_keeps_its_bounds(op: IncrementDecrement, n: i64)
    ensures
        ({
            let sum = n + op.delta;
            let below = op.min is Some && sum < op.min->0;
            let above = op.max is Some && sum > op.max->0;
            let inverted = op.min is Some && op.max is Some && op.min->0 > op.max->0;
            &&& op.applied(n) is Some && op.min is Some ==> op.min->0 <= op.applied(n)->0
            &&& op.applied(n) is Some && op.max is Some && !inverted ==> op.applied(n)->0
                <= op.max->0
            &&& !below && !above && i64::MIN <= sum <= i64::MAX ==> op.applied(n) == Some(
                sum as i64,
            )
            &&& !below && !above && !(i64::MIN <= sum <= i64::MAX) ==> op.applied(n) is None
            &&& below && !inverted ==> op.applied(n) == op.min
            &&& above && !inverted ==> op.applied(n) == op.max
            &&& inverted ==> op.applied(n) == op.min
        }),
{
}

/// The path inside an entry, or none for the entry itself.
pub open spec fn path_view(path: Option<SubkeyPath>) -> Option<Seq<Step>> {
    match path {
        Some(path) => Some(path@),
        None => None,
    }
}

/// The steps of an optional path; none of them for no path.
pub open spec fn steps_of(path: Option<Seq<Step>>) -> Seq<Step> {
    match path {
        Some(path) => path,
        None => Seq::empty(),
    }
}

/// The same optional path again.
pub fn copy_path(path: &Option<SubkeyPath>) -> (copy: Option<SubkeyPath>)
    ensures
        path_view(copy) == path_view(*path),
{
    match path {
        Some(path) => Some(path.clone()),
        None => None,
    }
}

/// One condition on an entry: what must be found where.
#[derive(Debug, PartialEq, Eq)]
pub struct Match {
    /// Where in the entry to look; the entry itself for `None`.
    pub path: Option<SubkeyPath>,
    /// What must be there.
    pub value: Value,
}

/// What a condition asks.
pub struct Condition {
    pub path: Option<Seq<Step>>,
    pub value: Tree,
}

impl View for Match {
    type V = Condition;

    open spec fn view(&self) -> Condition {
        Condition { path: path_view(self.path), value: self.value.tree() }
    }
}

impl Condition {
    /// Whether `entry` meets the condition.
    pub open spec fn holds(self, entry: Tree) -> bool {
        walked(entry, steps_of(self.path)) == Some(self.value)
    }
}

impl Clone for Match {
    fn clone(&self) -> (copy: Self)
        ensures
            self.wf() ==> copy.wf() && copy@ == self@,
    {
        Match { path: copy_path(&self.path), value: self.value.clone() }
    }
}

impl Match {
    pub open spec fn wf(&self) -> bool {
        self.value.wf()
    }

    /// `value` must be found at `path`.
    pub fn at(path: SubkeyPath, value: Value) -> (condition: Self)
        ensures
            condition == (Match { path: Some(path), value }),
    {
        Match { path: Some(path), value }
    }

    /// The entry itself must be `value`.
    pub fn entry(value: Value) -> (condition: Self)
        ensures
            condition == (Match { path: None, value }),
    {
        Match { path: None, value }
    }

    /// Whether `entry` meets the condition.
    pub fn matches(&self, entry: &Value) -> (matched: bool)
        requires
            self.wf(),
            entry.wf(),
        ensures
            matched == self@.holds(entry.tree()),
    {
        let none: Vec<Subkey> = Vec::new();
        let segments = match &self.path {
            Some(path) => &path.segments,
            None => &none,
        };
        assert(crate::subkey::steps(segments@) =~= steps_of(self@.path));
        match walk(entry, segments) {
            Some(found) => found.same(&self.value),
            None => false,
        }
    }
}

/// A predicate was given no conditions.
#[derive(Debug, Clone, Copy, PartialEq, Eq, Structural)]
pub struct EmptyPredicate;

/// Which entries to delete: those meeting every condition, of which there
/// is at least one.
#[derive(Debug, PartialEq, Eq)]
pub struct Predicate {
    pub conditions: Vec<Match>,
}

/// What a list of conditions asks.
pub open spec fn conditions_view(conditions: Seq<Match>) -> Seq<Condition> {
    conditions.map_values(|condition: Match| condition@)
}

/// Whether `entry` meets every condition.
pub open spec fn all_hold(conditions: Seq<Condition>, entry: Tree) -> bool {
    forall|i: int| 0 <= i < conditions.len() ==> (#[trigger] conditions[i]).holds(entry)
}

impl View for Predicate {
    type V = Seq<Condition>;

    open spec fn view(&self) -> Seq<Condition> {
        conditions_view(self.conditions@)
    }
}

impl Clone for Predicate {
    fn clone(&self) -> (copy: Self)
        ensures
            self.wf() ==> copy.wf() && copy@ == self@,
    {
        let mut conditions: Vec<Match> = Vec::new();
        let mut i: usize = 0;
        while i < self.conditions.len()
            invariant
                i <= self.conditions@.len(),
                conditions@.len() == i,
                forall|j: int|
                    0 <= j < i && self.conditions@[j].wf() ==> (#[trigger] conditions@[j]).wf()
                        && conditions@[j]@ == self.conditions@[j]@,
            decreases self.conditions@.len() - i,
        {
            conditions.push(self.conditions[i].clone());
            i += 1;
        }
        let copy = Predicate { conditions };
        proof {
            if self.wf() {
                assert(copy@ =~= self@);
            }
        }
        copy
    }
}

impl Predicate {
    pub open spec fn wf(&self) -> bool {
        &&& self.conditions@.len() > 0
        &&& forall|i: int| 0 <= i < self.conditions@.len() ==> (#[trigger] self.conditions@[i]).wf()
    }

    /// The predicate of `conditions`, of which there must be one.
    pub fn try_new(conditions: Vec<Match>) -> (predicate: Result<Self, EmptyPredicate>)
        ensures
            match predicate {
                Ok(predicate) => conditions@.len() > 0 && predicate.conditions == conditions,
                Err(_) => conditions@.len() == 0,
            },
    {
        if conditions.len() == 0 {
            Err(EmptyPredicate)
        } else {
            Ok(Predicate { conditions })
        }
    }

    /// Whether `entry` meets every condition.
    pub fn matches(&self, entry: &Value) -> (matched: bool)
        requires
            self.wf(),
            entry.wf(),
        ensures
            matched == all_hold(self@, entry.tree()),
    {
        let mut i: usize = 0;
        while i < self.conditions.len()
            invariant
                self.wf(),
                entry.wf(),
                i <= self.conditions@.len(),
                forall|j: int| 0 <= j < i ==> (#[trigger] self@[j]).holds(entry.tree()),
            decreases self.conditions@.len() - i,
        {
            if !self.conditions[i].matches(entry) {
                assert(!self@[i as int].holds(entry.tree()));
                return false;
            }
            i += 1;
        }
        true
    }
}

/// A change to a value in place.
#[derive(Debug, PartialEq, Eq)]
pub enum AmendOp {
    /// Adds an entry at the end of an array.
    AppendEntry(Value),
    /// Adds to an integer.
    IncrementDecrement(IncrementDecrement),
    /// Deletes the entries of a table or an array that a predicate matches.
    DeleteMatching(Predicate),
}

/// What a change to a value in place does.
pub enum Amendment {
    Append(Tree),
    Increment(IncrementDecrement),
    DeleteMatching(Seq<Condition>),
}

impl View for AmendOp {
    type V = Amendment;

    open spec fn view(&self) -> Amendment {
        match self {
            AmendOp::AppendEntry(entry) => Amendment::Append(entry.tree()),
            AmendOp::IncrementDecrement(op) => Amendment::Increment(*op),
            AmendOp::DeleteMatching(predicate) => Amendment::DeleteMatching(predicate@),
        }
    }
}

impl AmendOp {
    pub open spec fn wf(&self) -> bool {
        match self {
            AmendOp::AppendEntry(entry) => entry.wf(),
            AmendOp::IncrementDecrement(_) => true,
            AmendOp::DeleteMatching(predicate) => predicate.wf(),
        }
    }
}

impl Clone for AmendOp {
    fn clone(&self) -> (copy: Self)
        ensures
            self.wf() ==> copy.wf() && copy@ == self@,
    {
        match self {
            AmendOp::AppendEntry(entry) => AmendOp::AppendEntry(entry.clone()),
            AmendOp::IncrementDecrement(op) => AmendOp::IncrementDecrement(*op),
            AmendOp::DeleteMatching(predicate) => AmendOp::DeleteMatching(predicate.clone()),
        }
    }
}

/// A whole state, ready to open a chain from.
#[derive(Debug, PartialEq, Eq)]
pub struct FullCheckpoint {
    pub namespaces: Namespaces,
}

/// Opens a chain.
#[derive(Debug, PartialEq, Eq)]
pub struct InitMsg {
    pub state: FullCheckpoint,
}

/// Writes a whole namespace.
#[derive(Debug, PartialEq, Eq)]
pub struct SetNamespace {
    pub prev: EnvelopeDigest,
    pub key: NamespaceKey,
    pub namespace: Namespace,
}

/// Writes or clears one value inside a namespace.
#[derive(Debug, PartialEq, Eq)]
pub struct SetNamespaceKey {
    pub prev: EnvelopeDigest,
    pub key: NamespaceKey,
    pub path: SubkeyPath,
    /// What to write, or `None` to clear what is there.
    pub value: Option<Value>,
}

/// Changes a value inside a namespace in place.
#[derive(Debug, PartialEq, Eq)]
pub struct AmendNamespaceKey {
    pub prev: EnvelopeDigest,
    pub key: NamespaceKey,
    /// Where, or `None` for the namespace's value itself.
    pub path: Option<SubkeyPath>,
    pub op: AmendOp,
}

/// Deletes a namespace.
#[derive(Debug, PartialEq, Eq)]
pub struct DeleteNamespace {
    pub prev: EnvelopeDigest,
    pub key: NamespaceKey,
}

/// What an envelope says.
#[derive(Debug, PartialEq, Eq)]
pub enum Msg {
    Init(InitMsg),
    SetNamespace(SetNamespace),
    SetNamespaceKey(SetNamespaceKey),
    AmendNamespaceKey(AmendNamespaceKey),
    DeleteNamespace(DeleteNamespace),
}

/// What a message does.
#[allow(inconsistent_fields)]
pub enum Deed {
    Init { namespaces: Map<Seq<char>, Tree> },
    SetNamespace { prev: EnvelopeDigest, key: Seq<char>, value: Tree },
    SetNamespaceKey {
        prev: EnvelopeDigest,
        key: Seq<char>,
        path: Seq<Step>,
        value: Option<Tree>,
    },
    AmendNamespaceKey {
        prev: EnvelopeDigest,
        key: Seq<char>,
        path: Option<Seq<Step>>,
        op: Amendment,
    },
    DeleteNamespace { prev: EnvelopeDigest, key: Seq<char> },
}

/// What an optional value is.
pub open spec fn value_view(value: Option<Value>) -> Option<Tree> {
    match value {
        Some(value) => Some(value.tree()),
        None => None,
    }
}

impl View for Msg {
    type V = Deed;

    open spec fn view(&self) -> Deed {
        match self {
            Msg::Init(init) => Deed::Init { namespaces: namespaces_view(init.state.namespaces) },
            Msg::SetNamespace(set) => Deed::SetNamespace {
                prev: set.prev,
                key: set.key@,
                value: set.namespace@,
            },
            Msg::SetNamespaceKey(set) => Deed::SetNamespaceKey {
                prev: set.prev,
                key: set.key@,
                path: set.path@,
                value: value_view(set.value),
            },
            Msg::AmendNamespaceKey(amend) => Deed::AmendNamespaceKey {
                prev: amend.prev,
                key: amend.key@,
                path: path_view(amend.path),
                op: amend.op@,
            },
            Msg::DeleteNamespace(delete) => Deed::DeleteNamespace {
                prev: delete.prev,
                key: delete.key@,
            },
        }
    }
}

impl Deed {
    /// The envelope the message follows; none opens a chain.
    pub open spec fn prev(self) -> Option<EnvelopeDigest> {
        match self {
            Deed::Init { .. } => None,
            Deed::SetNamespace { prev, .. } => Some(prev),
            Deed::SetNamespaceKey { prev, .. } => Some(prev),
            Deed::AmendNamespaceKey { prev, .. } => Some(prev),
            Deed::DeleteNamespace { prev, .. } => Some(prev),
        }
    }
}

impl Msg {
    /// Whether everything the message holds is well formed.
    pub open spec fn wf(&self) -> bool {
        match self {
            Msg::Init(init) => namespaces_wf(init.state.namespaces),
            Msg::SetNamespace(set) => set.namespace.wf(),
            Msg::SetNamespaceKey(set) => set.path.wf() && (set.value matches Some(v) ==> v.wf()),
            Msg::AmendNamespaceKey(amend) => amend.op.wf() && (amend.path matches Some(p)
                ==> p.wf()),
            Msg::DeleteNamespace(_) => true,
        }
    }

    /// The envelope the message follows; none opens a chain.
    pub fn prev_digest(&self) -> (prev: Option<EnvelopeDigest>)
        ensures
            prev == self@.prev(),
    {
        match self {
            Msg::Init(_) => None,
            Msg::SetNamespace(set) => Some(set.prev),
            Msg::SetNamespaceKey(set) => Some(set.prev),
            Msg::AmendNamespaceKey(amend) => Some(amend.prev),
            Msg::DeleteNamespace(delete) => Some(delete.prev),
        }
    }
}

/// The same optional value again.
pub fn copy_value(value: &Option<Value>) -> (copy: Option<Value>)
    ensures
        (value matches Some(v) ==> v.wf()) ==> value_view(copy) == value_view(*value) && (
        copy matches Some(v) ==> v.wf()),
{
    match value {
        Some(value) => Some(value.clone()),
        None => None,
    }
}

impl Clone for Msg {
    fn clone(&self) -> (copy: Self)
        ensures
            self.wf() ==> copy.wf() && copy@ == self@,
    {
        match self {
            Msg::Init(init) => Msg::Init(
                InitMsg {
                    state: FullCheckpoint { namespaces: copy_namespaces(&init.state.namespaces) },
                },
            ),
            Msg::SetNamespace(set) => Msg::SetNamespace(
                SetNamespace {
                    prev: set.prev,
                    key: set.key.clone(),
                    namespace: set.namespace.clone(),
                },
            ),
            Msg::SetNamespaceKey(set) => Msg::SetNamespaceKey(
                SetNamespaceKey {
                    prev: set.prev,
                    key: set.key.clone(),
                    path: set.path.clone(),
                    value: copy_value(&set.value),
                },
            ),
            Msg::AmendNamespaceKey(amend) => Msg::AmendNamespaceKey(
                AmendNamespaceKey {
                    prev: amend.prev,
                    key: amend.key.clone(),
                    path: copy_path(&amend.path),
                    op: amend.op.clone(),
                },
            ),
            Msg::DeleteNamespace(delete) => Msg::DeleteNamespace(
                DeleteNamespace { prev: delete.prev, key: delete.key.clone() },
            ),
        }
    }
}

} // verus!
