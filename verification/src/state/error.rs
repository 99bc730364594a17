//! What can go wrong while working with a ledger.

use vstd::prelude::*;

use crate::digest::{hex_chars, hex_of, EnvelopeDigest, KeyId};
use crate::envelope::WireError;
use crate::msg::{path_view, NamespaceKey};
use crate::order::SortedSet;
use crate::subkey::{path_text, Step, SubkeyPath};
use crate::text::{append, append_chars, append_decimal, decimal, text_of};

verus! {

/// An error produced while working with a ledger, over the error `E` of the
/// storage backend.
#[derive(Debug)]
pub enum Error<E> {
    /// An envelope's digest could not be computed.
    Wire(WireError),
    /// A ledger was opened from an envelope that does not start a chain.
    NotInit,
    /// A chain was replayed from nothing.
    EmptyChain,
    /// A ledger was opened at a head the store holds no version for, or a
    /// chain at a root the log holds no envelope for.
    UnknownHead(EnvelopeDigest),
    /// An envelope chains onto a parent whose version the store does not
    /// hold.
    UnknownParent(EnvelopeDigest),
    /// Two heads share no ancestor the log still holds.
    Diverged {
        /// The head the walk started from.
        from: EnvelopeDigest,
        /// The head the walk was trying to reach.
        to: EnvelopeDigest,
    },
    /// An envelope could not be applied.
    Apply(ApplyError<E>),
    /// The storage backend failed.
    Storage(E),
}

/// An error produced while applying an envelope to a ledger.
#[derive(Debug)]
#[allow(inconsistent_fields)]
pub enum ApplyError<E> {
    /// The envelope's digest could not be computed.
    Wire(WireError),
    /// An `Init` envelope arrived at a ledger that is already open.
    UnexpectedInit,
    /// The envelope chains onto an envelope other than the current head.
    ChainMismatch {
        /// The current head of the ledger.
        expected: EnvelopeDigest,
        /// The envelope the message actually points back at.
        found: EnvelopeDigest,
    },
    /// A namespace was manipulated that the ledger does not hold.
    UnknownNamespace(NamespaceKey),
    /// A path addressed something the namespace does not hold.
    UnknownPath {
        /// The namespace the path was walked from.
        key: NamespaceKey,
        /// The path that was walked.
        path: SubkeyPath,
    },
    /// A path addressed a value of the wrong shape.
    PathTypeMismatch {
        /// The namespace the path was walked from.
        key: NamespaceKey,
        /// The path that was walked.
        path: SubkeyPath,
    },
    /// An amend addressed a value it cannot transform.
    AmendTypeMismatch {
        /// The namespace the path was walked from.
        key: NamespaceKey,
        /// The path that was walked, or `None` for the namespace's root.
        path: Option<SubkeyPath>,
    },
    /// An increment would take the integer outside `i64`, with no bound on
    /// that side to clamp it back.
    Overflow {
        /// The namespace the path was walked from.
        key: NamespaceKey,
        /// The path to the integer, or `None` for the namespace's root.
        path: Option<SubkeyPath>,
    },
    /// An increment's bounds are inverted: its min exceeds its max.
    InvalidBounds {
        /// The namespace the path was walked from.
        key: NamespaceKey,
        /// The path the increment addressed, or `None` for the root.
        path: Option<SubkeyPath>,
    },
    /// The value the namespace would hold after the write violates the
    /// rules for that namespace.
    InvalidValue {
        /// The namespace whose rules refused the value.
        key: NamespaceKey,
        /// Which rule refused it, and why.
        reason: ValueError,
    },
    /// Signatures of the envelope did not verify.
    InvalidSignatures {
        /// The keys whose signatures failed.
        failing_key_ids: SortedSet<KeyId>,
    },
    /// The envelope's verified signature weight is below the minimum the
    /// ledger requires at this position.
    InsufficientWeight {
        /// The minimum in force.
        required: u32,
        /// What the envelope's signatures are verified to be worth.
        found: u32,
    },
    /// Fewer distinct keys have verifiably signed the envelope than the
    /// ledger requires at this position.
    InsufficientSignatures {
        /// The minimum in force.
        required: u32,
        /// How many distinct keys verifiably signed.
        found: u32,
    },
    /// The storage backend failed.
    Storage(E),
}

/// Why a reserved namespace refused the value a write would leave it
/// holding.
#[derive(Debug, PartialEq, Eq)]
pub enum ValueError {
    /// The compaction floor is not a positive integer that fits a `u32`.
    MinKeepMinutes,
    /// The minimum envelope weight is not a non-negative integer that fits
    /// a `u32`.
    MinEnvelopeWeight,
    /// The minimum envelope signature count is not a non-negative integer
    /// that fits a `u32`.
    MinEnvelopeSignatures,
    /// The trusted key set could not be read.
    TrustedKeys(TrustedKeysError),
    /// The set of cluster nodes could not be read, for this reason.
    ClusterNodes(String),
}

/// Why a trusted key set could not be read.
#[derive(Debug, PartialEq, Eq)]
pub enum TrustedKeysError {
    /// The namespace holds something other than a table of keys.
    NotAMap,
    /// The entry filed under `id` is not a key.
    NotAKey {
        /// The id the entry is filed under.
        id: String,
    },
    /// The key filed under `id` derives to a different id.
    IdMismatch {
        /// The id the key is filed under.
        id: String,
        /// The id the key actually derives to.
        derived: KeyId,
    },
}

/// Which rule of a reserved namespace a value breaks.
pub enum Fault {
    MinKeepMinutes,
    MinEnvelopeWeight,
    MinEnvelopeSignatures,
    TrustedKeys(KeysFault),
    ClusterNodes(Seq<char>),
}

/// What is wrong with a trusted key set.
#[allow(inconsistent_fields)]
pub enum KeysFault {
    NotAMap,
    NotAKey { id: Seq<char> },
    IdMismatch { id: Seq<char>, derived: KeyId },
}

/// Why an envelope does not apply.
#[allow(inconsistent_fields)]
pub enum Refusal {
    Wire,
    UnexpectedInit,
    ChainMismatch { expected: EnvelopeDigest, found: EnvelopeDigest },
    UnknownNamespace { key: Seq<char> },
    UnknownPath { key: Seq<char>, path: Seq<Step> },
    PathTypeMismatch { key: Seq<char>, path: Seq<Step> },
    AmendTypeMismatch { key: Seq<char>, path: Option<Seq<Step>> },
    Overflow { key: Seq<char>, path: Option<Seq<Step>> },
    InvalidBounds { key: Seq<char>, path: Option<Seq<Step>> },
    InvalidValue { key: Seq<char>, fault: Fault },
    InvalidSignatures { failing: Set<KeyId> },
    InsufficientWeight { required: u32, found: u32 },
    InsufficientSignatures { required: u32, found: u32 },
}

impl View for TrustedKeysError {
    type V = KeysFault;

    open spec fn view(&self) -> KeysFault {
        match self {
            TrustedKeysError::NotAMap => KeysFault::NotAMap,
            TrustedKeysError::NotAKey { id } => KeysFault::NotAKey { id: id@ },
            TrustedKeysError::IdMismatch { id, derived } => KeysFault::IdMismatch {
                id: id@,
                derived: *derived,
            },
        }
    }
}

impl View for ValueError {
    type V = Fault;

    open spec fn view(&self) -> Fault {
        match self {
            ValueError::MinKeepMinutes => Fault::MinKeepMinutes,
            ValueError::MinEnvelopeWeight => Fault::MinEnvelopeWeight,
            ValueError::MinEnvelopeSignatures => Fault::MinEnvelopeSignatures,
            ValueError::TrustedKeys(reason) => Fault::TrustedKeys(reason@),
            ValueError::ClusterNodes(reason) => Fault::ClusterNodes(reason@),
        }
    }
}

impl<E> ApplyError<E> {
    /// Why the envelope does not apply; `None` when it was the storage that
    /// failed.
    pub open spec fn refusal(&self) -> Option<Refusal> {
        match self {
            ApplyError::Wire(_) => Some(Refusal::Wire),
            ApplyError::UnexpectedInit => Some(Refusal::UnexpectedInit),
            ApplyError::ChainMismatch { expected, found } => Some(
                Refusal::ChainMismatch { expected: *expected, found: *found },
            ),
            ApplyError::UnknownNamespace(key) => Some(Refusal::UnknownNamespace { key: key@ }),
            ApplyError::UnknownPath { key, path } => Some(
                Refusal::UnknownPath { key: key@, path: path@ },
            ),
            ApplyError::PathTypeMismatch { key, path } => Some(
                Refusal::PathTypeMismatch { key: key@, path: path@ },
            ),
            ApplyError::AmendTypeMismatch { key, path } => Some(
                Refusal::AmendTypeMismatch { key: key@, path: path_view(*path) },
            ),
            ApplyError::Overflow { key, path } => Some(
                Refusal::Overflow { key: key@, path: path_view(*path) },
            ),
            ApplyError::InvalidBounds { key, path } => Some(
                Refusal::InvalidBounds { key: key@, path: path_view(*path) },
            ),
            ApplyError::InvalidValue { key, reason } => Some(
                Refusal::InvalidValue { key: key@, fault: reason@ },
            ),
            ApplyError::InvalidSignatures { failing_key_ids } => Some(
                Refusal::InvalidSignatures { failing: failing_key_ids@ },
            ),
            ApplyError::InsufficientWeight { required, found } => Some(
                Refusal::InsufficientWeight { required: *required, found: *found },
            ),
            ApplyError::InsufficientSignatures { required, found } => Some(
                Refusal::InsufficientSignatures { required: *required, found: *found },
            ),
            ApplyError::Storage(_) => None,
        }
    }
}

/// What is wrong with a trusted key set, as a person reads it.
pub open spec fn keys_fault_text(fault: KeysFault) -> Seq<char> {
    match fault {
        KeysFault::NotAMap => "the trusted key set must be a map of hex key id to key"@,
        KeysFault::NotAKey { id } => "the entry under "@ + id + " is not a key"@,
        KeysFault::IdMismatch { id, derived } => "the key filed under "@ + id + " derives to "@
            + hex_of(derived.bytes@),
    }
}

/// Which rule a value breaks, as a person reads it.
pub open spec fn fault_text(fault: Fault) -> Seq<char> {
    match fault {
        Fault::MinKeepMinutes =>
            "the compaction floor must be a positive whole number of minutes"@,
        Fault::MinEnvelopeWeight =>
            "the minimum envelope weight must be a non-negative whole number"@,
        Fault::MinEnvelopeSignatures =>
            "the minimum envelope signature count must be a non-negative whole number"@,
        Fault::TrustedKeys(fault) => keys_fault_text(fault),
        Fault::ClusterNodes(reason) => reason,
    }
}

/// An amend's target: its path, or the namespace's root.
pub open spec fn target_text(path: Option<Seq<Step>>) -> Seq<char> {
    match path {
        Some(path) => path_text(path),
        None => "its root"@,
    }
}

/// Why an envelope does not apply, as a person reads it.
pub open spec fn refusal_text(refusal: Refusal) -> Seq<char> {
    match refusal {
        Refusal::Wire => "could not compute an envelope digest"@,
        Refusal::UnexpectedInit => "ledger is already open"@,
        Refusal::ChainMismatch { expected, found } => "envelope chains onto "@ + hex_of(
            found.bytes@,
        ) + ", but the head is "@ + hex_of(expected.bytes@),
        Refusal::UnknownNamespace { key } => "no such namespace: "@ + key,
        Refusal::UnknownPath { key, path } => "namespace "@ + key + " has nothing at "@
            + path_text(path),
        Refusal::PathTypeMismatch { key, path } => "namespace "@ + key + " cannot be walked to "@
            + path_text(path),
        Refusal::AmendTypeMismatch { key, path } => "namespace "@ + key
            + " cannot be amended at "@ + target_text(path),
        Refusal::Overflow { key, path } => "namespace "@ + key + " overflows an integer at "@
            + target_text(path),
        Refusal::InvalidBounds { key, path } => "namespace "@ + key + " clamps "@ + target_text(
            path,
        ) + " to an inverted range"@,
        Refusal::InvalidValue { key, fault } => "namespace "@ + key + " refused the value: "@
            + fault_text(fault),
        Refusal::InvalidSignatures { .. } => "envelope carries signatures that do not verify"@,
        Refusal::InsufficientWeight { required, found } => "envelope is worth "@ + decimal(
            found as nat,
        ) + ", below the minimum weight of "@ + decimal(required as nat),
        Refusal::InsufficientSignatures { required, found } => "envelope carries "@ + decimal(
            found as nat,
        ) + " verified signatures, below the minimum of "@ + decimal(required as nat),
    }
}

impl TrustedKeysError {
    /// Appends the failure as a person reads it.
    fn describe(&self, out: &mut Vec<char>)
        ensures
            final(out)@ == old(out)@ + keys_fault_text(self@),
    {
        let ghost was = out@;
        match self {
            TrustedKeysError::NotAMap => {
                append(out, "the trusted key set must be a map of hex key id to key");
            },
            TrustedKeysError::NotAKey { id } => {
                append(out, "the entry under ");
                append(out, id.as_str());
                append(out, " is not a key");
            },
            TrustedKeysError::IdMismatch { id, derived } => {
                append(out, "the key filed under ");
                append(out, id.as_str());
                append(out, " derives to ");
                let derived = hex_chars(&derived.bytes);
                append_chars(out, &derived);
            },
        }
        assert(out@ =~= was + keys_fault_text(self@));
    }

    /// The failure as a person reads it.
    pub fn text(&self) -> (text: String)
        ensures
            text@ == keys_fault_text(self@),
    {
        let mut out: Vec<char> = Vec::new();
        self.describe(&mut out);
        assert(out@ =~= keys_fault_text(self@));
        text_of(&out)
    }
}

impl ValueError {
    /// Appends the failure as a person reads it.
    fn describe(&self, out: &mut Vec<char>)
        ensures
            final(out)@ == old(out)@ + fault_text(self@),
    {
        match self {
            ValueError::MinKeepMinutes => append(
                out,
                "the compaction floor must be a positive whole number of minutes",
            ),
            ValueError::MinEnvelopeWeight => append(
                out,
                "the minimum envelope weight must be a non-negative whole number",
            ),
            ValueError::MinEnvelopeSignatures => append(
                out,
                "the minimum envelope signature count must be a non-negative whole number",
            ),
            ValueError::TrustedKeys(reason) => reason.describe(out),
            ValueError::ClusterNodes(reason) => append(out, reason.as_str()),
        }
    }

    /// The failure as a person reads it.
    pub fn text(&self) -> (text: String)
        ensures
            text@ == fault_text(self@),
    {
        let mut out: Vec<char> = Vec::new();
        self.describe(&mut out);
        assert(out@ =~= fault_text(self@));
        text_of(&out)
    }

    /// What lies behind the failure, if anything does.
    pub fn source(&self) -> (source: Option<&TrustedKeysError>)
        ensures
            match source {
                Some(reason) => *self == ValueError::TrustedKeys(*reason),
                None => !(self is TrustedKeys),
            },
    {
        match self {
            ValueError::TrustedKeys(reason) => Some(reason),
            _ => None,
        }
    }
}

/// Appends an amend's target.
fn describe_target(out: &mut Vec<char>, path: &Option<SubkeyPath>)
    ensures
        final(out)@ == old(out)@ + target_text(path_view(*path)),
{
    match path {
        Some(path) => {
            let path = path.chars();
            append_chars(out, &path);
        },
        None => append(out, "its root"),
    }
}

/// What lies behind a failure.
#[derive(Debug)]
pub enum Source<'a, E> {
    Wire(&'a WireError),
    Apply(&'a ApplyError<E>),
    Value(&'a ValueError),
    Storage(&'a E),
}

impl<E> ApplyError<E> {
    /// The failure as a person reads it.
    pub open spec fn message(&self) -> Seq<char> {
        match self.refusal() {
            Some(refusal) => refusal_text(refusal),
            None => "storage backend failed"@,
        }
    }

    /// The failure as a person reads it.
    pub fn text(&self) -> (text: String)
        ensures
            text@ == self.message(),
    {
        let mut out: Vec<char> = Vec::new();
        match self {
            ApplyError::Wire(_) => append(&mut out, "could not compute an envelope digest"),
            ApplyError::UnexpectedInit => append(&mut out, "ledger is already open"),
            ApplyError::ChainMismatch { expected, found } => {
                append(&mut out, "envelope chains onto ");
                let found = hex_chars(&found.bytes);
                append_chars(&mut out, &found);
                append(&mut out, ", but the head is ");
                let expected = hex_chars(&expected.bytes);
                append_chars(&mut out, &expected);
            },
            ApplyError::UnknownNamespace(key) => {
                append(&mut out, "no such namespace: ");
                append(&mut out, key.text.as_str());
            },
            ApplyError::UnknownPath { key, path } => {
                append(&mut out, "namespace ");
                append(&mut out, key.text.as_str());
                append(&mut out, " has nothing at ");
                let path = path.chars();
                append_chars(&mut out, &path);
            },
            ApplyError::PathTypeMismatch { key, path } => {
                append(&mut out, "namespace ");
                append(&mut out, key.text.as_str());
                append(&mut out, " cannot be walked to ");
                let path = path.chars();
                append_chars(&mut out, &path);
            },
            ApplyError::AmendTypeMismatch { key, path } => {
                append(&mut out, "namespace ");
                append(&mut out, key.text.as_str());
                append(&mut out, " cannot be amended at ");
                describe_target(&mut out, path);
            },
            ApplyError::Overflow { key, path } => {
                append(&mut out, "namespace ");
                append(&mut out, key.text.as_str());
                append(&mut out, " overflows an integer at ");
                describe_target(&mut out, path);
            },
            ApplyError::InvalidBounds { key, path } => {
                append(&mut out, "namespace ");
                append(&mut out, key.text.as_str());
                append(&mut out, " clamps ");
                describe_target(&mut out, path);
                append(&mut out, " to an inverted range");
            },
            ApplyError::InvalidValue { key, reason } => {
                append(&mut out, "namespace ");
                append(&mut out, key.text.as_str());
                append(&mut out, " refused the value: ");
                reason.describe(&mut out);
            },
            ApplyError::InvalidSignatures { .. } => append(
                &mut out,
                "envelope carries signatures that do not verify",
            ),
            ApplyError::InsufficientWeight { required, found } => {
                append(&mut out, "envelope is worth ");
                append_decimal(&mut out, *found as u64);
                append(&mut out, ", below the minimum weight of ");
                append_decimal(&mut out, *required as u64);
            },
            ApplyError::InsufficientSignatures { required, found } => {
                append(&mut out, "envelope carries ");
                append_decimal(&mut out, *found as u64);
                append(&mut out, " verified signatures, below the minimum of ");
                append_decimal(&mut out, *required as u64);
            },
            ApplyError::Storage(_) => append(&mut out, "storage backend failed"),
        }
        assert(out@ =~= self.message());
        text_of(&out)
    }

    /// What lies behind the failure, if anything does.
    pub fn source(&self) -> (source: Option<Source<'_, E>>)
        ensures
            match self {
                ApplyError::Wire(error) => source == Some(Source::<E>::Wire(error)),
                ApplyError::InvalidValue { reason, .. } => source == Some(
                    Source::<E>::Value(reason),
                ),
                ApplyError::Storage(error) => source == Some(Source::Storage(error)),
                _ => source is None,
            },
    {
        match self {
            ApplyError::Wire(error) => Some(Source::Wire(error)),
            ApplyError::InvalidValue { reason, .. } => Some(Source::Value(reason)),
            ApplyError::Storage(error) => Some(Source::Storage(error)),
            _ => None,
        }
    }
}

impl<E> Error<E> {
    /// The failure as a person reads it.
    pub open spec fn message(&self) -> Seq<char> {
        match self {
            Error::Wire(_) => "could not compute an envelope digest"@,
            Error::NotInit => "ledger must be opened from an Init envelope"@,
            Error::EmptyChain => "cannot replay an empty chain"@,
            Error::UnknownHead(head) => "store holds nothing at "@ + hex_of(head.bytes@),
            Error::UnknownParent(prev) => "log holds no parent envelope "@ + hex_of(prev.bytes@),
            Error::Diverged { from, to } => hex_of(from.bytes@) + " and "@ + hex_of(to.bytes@)
                + " share no ancestor in the log"@,
            Error::Apply(_) => "could not apply an envelope"@,
            Error::Storage(_) => "storage backend failed"@,
        }
    }

    /// The failure as a person reads it.
    pub fn text(&self) -> (text: String)
        ensures
            text@ == self.message(),
    {
        let mut out: Vec<char> = Vec::new();
        match self {
            Error::Wire(_) => append(&mut out, "could not compute an envelope digest"),
            Error::NotInit => append(&mut out, "ledger must be opened from an Init envelope"),
            Error::EmptyChain => append(&mut out, "cannot replay an empty chain"),
            Error::UnknownHead(head) => {
                append(&mut out, "store holds nothing at ");
                let head = hex_chars(&head.bytes);
                append_chars(&mut out, &head);
            },
            Error::UnknownParent(prev) => {
                append(&mut out, "log holds no parent envelope ");
                let prev = hex_chars(&prev.bytes);
                append_chars(&mut out, &prev);
            },
            Error::Diverged { from, to } => {
                let from = hex_chars(&from.bytes);
                append_chars(&mut out, &from);
                append(&mut out, " and ");
                let to = hex_chars(&to.bytes);
                append_chars(&mut out, &to);
                append(&mut out, " share no ancestor in the log");
            },
            Error::Apply(_) => append(&mut out, "could not apply an envelope"),
            Error::Storage(_) => append(&mut out, "storage backend failed"),
        }
        assert(out@ =~= self.message());
        text_of(&out)
    }

    /// What lies behind the failure, if anything does.
    pub fn source(&self) -> (source: Option<Source<'_, E>>)
        ensures
            match self {
                Error::Wire(error) => source == Some(Source::<E>::Wire(error)),
                Error::Apply(error) => source == Some(Source::Apply(error)),
                Error::Storage(error) => source == Some(Source::Storage(error)),
                _ => source is None,
            },
    {
        match self {
            Error::Wire(error) => Some(Source::Wire(error)),
            Error::Apply(error) => Some(Source::Apply(error)),
            Error::Storage(error) => Some(Source::Storage(error)),
            _ => None,
        }
    }
}

} // verus!
