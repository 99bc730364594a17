//! Envelopes: a message, who signed it, and how the signatures scored.
//!
//! An envelope carries what its canonical encoding determines as plain
//! values: the digest it is filed under, and for each signature whether it
//! verifies under the public key its id derives from.

use vstd::prelude::*;

use crate::digest::{EnvelopeDigest, KeyId};
use crate::msg::{Deed, Msg};
use crate::order::{SortedMap, SortedSet};

verus! {

/// An envelope has no canonical encoding, so nothing can be computed over
/// it.
#[derive(Debug, Clone, Copy, PartialEq, Eq, Structural)]
pub struct WireError;

/// A signature over an envelope.
#[derive(Debug, Clone, Copy, PartialEq, Eq, Structural)]
pub struct Signature {
    /// Whether it verifies over the envelope's signature digest, under the
    /// public key that the id it is filed under derives from.
    pub verifies: bool,
}

/// How an envelope's signatures scored against the trusted keys.
#[derive(Debug, PartialEq, Eq)]
pub enum VerificationStatus {
    /// Nobody has checked yet.
    Unchecked,
    /// These keys' signatures did not verify, or are not trusted.
    Failed { failing_key_ids: SortedSet<KeyId> },
    /// Every signature verified; together they are worth this much.
    AllMatched { total_weight: u32 },
}

/// What a verification status says.
pub enum Status {
    Unchecked,
    Failed(Set<KeyId>),
    AllMatched(u32),
}

impl View for VerificationStatus {
    type V = Status;

    open spec fn view(&self) -> Status {
        match self {
            VerificationStatus::Unchecked => Status::Unchecked,
            VerificationStatus::Failed { failing_key_ids } => Status::Failed(failing_key_ids@),
            VerificationStatus::AllMatched { total_weight } => Status::AllMatched(*total_weight),
        }
    }
}

impl Status {
    /// What the signatures are verified to be worth.
    pub open spec fn weight(self) -> u32 {
        match self {
            Status::AllMatched(weight) => weight,
            _ => 0,
        }
    }
}

/// The same set of ids again.
pub fn copy_ids(ids: &SortedSet<KeyId>) -> (copy: SortedSet<KeyId>)
    ensures
        ids.wf() ==> copy.wf() && copy@ == ids@,
        copy.map.entries@ == ids.map.entries@,
{
    let mut entries: Vec<(KeyId, ())> = Vec::new();
    let mut i: usize = 0;
    while i < ids.map.entries.len()
        invariant
            i <= ids.map.entries@.len(),
            entries@ == ids.map.entries@.take(i as int),
        decreases ids.map.entries@.len() - i,
    {
        entries.push(ids.map.entries[i]);
        assert(entries@ =~= ids.map.entries@.take(i + 1));
        i += 1;
    }
    assert(entries@ =~= ids.map.entries@);
    let map = SortedMap { entries };
    proof {
        if ids.wf() {
            ids.map.same_entries(&map);
        }
    }
    SortedSet { map }
}

impl VerificationStatus {
    pub open spec fn wf(&self) -> bool {
        self matches VerificationStatus::Failed { failing_key_ids } ==> failing_key_ids.wf()
    }

    /// What the signatures are verified to be worth.
    pub fn signature_weight(&self) -> (weight: u32)
        ensures
            weight == self@.weight(),
    {
        match self {
            VerificationStatus::AllMatched { total_weight } => *total_weight,
            _ => 0,
        }
    }
}

impl Clone for VerificationStatus {
    fn clone(&self) -> (copy: Self)
        ensures
            self.wf() ==> copy.wf() && copy@ == self@,
    {
        match self {
            VerificationStatus::Unchecked => VerificationStatus::Unchecked,
            VerificationStatus::Failed { failing_key_ids } => VerificationStatus::Failed {
                failing_key_ids: copy_ids(failing_key_ids),
            },
            VerificationStatus::AllMatched { total_weight } => VerificationStatus::AllMatched {
                total_weight: *total_weight,
            },
        }
    }
}

/// The signatures an envelope carries, one a key.
pub type Signatures = SortedMap<KeyId, Signature>;

/// A message and what is attached to it.
#[derive(Debug, PartialEq, Eq)]
pub struct Envelope {
    /// What it says.
    pub payload: Msg,
    /// What it is filed under; `None` when it has no canonical encoding.
    pub digest: Option<EnvelopeDigest>,
    /// Whether what its signatures cover has a canonical encoding.
    pub signable: bool,
    /// Who signed it.
    pub signatures: Signatures,
    /// How many attested timestamps it carries.
    pub timestamps: u64,
    /// How its signatures scored, on the node that holds it.
    pub status: VerificationStatus,
}

/// What an envelope is.
pub struct Letter {
    pub payload: Deed,
    pub digest: Option<EnvelopeDigest>,
    pub signable: bool,
    pub signatures: Seq<(KeyId, bool)>,
    pub timestamps: u64,
    pub status: Status,
}

/// Who signed, in id order, and whether each signature verifies.
pub open spec fn signatures_view(signatures: Signatures) -> Seq<(KeyId, bool)> {
    signatures.entries@.map_values(|entry: (KeyId, Signature)| (entry.0, entry.1.verifies))
}

impl View for Envelope {
    type V = Letter;

    open spec fn view(&self) -> Letter {
        Letter {
            payload: self.payload@,
            digest: self.digest,
            signable: self.signable,
            signatures: signatures_view(self.signatures),
            timestamps: self.timestamps,
            status: self.status@,
        }
    }
}

impl Letter {
    /// How many distinct keys have verifiably signed, as far as it counts.
    pub open spec fn signers(self) -> u32 {
        match self.status {
            Status::AllMatched(_) => if self.signatures.len() <= u32::MAX {
                self.signatures.len() as u32
            } else {
                u32::MAX
            },
            _ => 0,
        }
    }
}

/// The same signatures again.
fn copy_signatures(signatures: &Signatures) -> (copy: Signatures)
    ensures
        signatures.wf() ==> copy.wf(),
        signatures_view(copy) == signatures_view(*signatures),
        copy.entries@ == signatures.entries@,
{
    let mut entries: Vec<(KeyId, Signature)> = Vec::new();
    let mut i: usize = 0;
    while i < signatures.entries.len()
        invariant
            i <= signatures.entries@.len(),
            entries@ == signatures.entries@.take(i as int),
        decreases signatures.entries@.len() - i,
    {
        entries.push((signatures.entries[i].0, signatures.entries[i].1));
        assert(entries@ =~= signatures.entries@.take(i + 1));
        i += 1;
    }
    assert(entries@ =~= signatures.entries@);
    let copy = SortedMap { entries };
    proof {
        if signatures.wf() {
            signatures.same_entries(&copy);
        }
    }
    copy
}

impl Clone for Envelope {
    fn clone(&self) -> (copy: Self)
        ensures
            self.wf() ==> copy.wf() && copy@ == self@,
    {
        Envelope {
            payload: self.payload.clone(),
            digest: self.digest,
            signable: self.signable,
            signatures: copy_signatures(&self.signatures),
            timestamps: self.timestamps,
            status: self.status.clone(),
        }
    }
}

impl Envelope {
    /// Whether everything the envelope holds is well formed.
    pub open spec fn wf(&self) -> bool {
        &&& self.payload.wf()
        &&& self.signatures.wf()
        &&& self.status.wf()
    }

    /// An unsigned envelope around `payload`, filed under `digest`.
    pub fn new(payload: Msg, digest: EnvelopeDigest) -> (envelope: Self)
        ensures
            envelope.payload == payload,
            envelope@ == (Letter {
                payload: payload@,
                digest: Some(digest),
                signable: true,
                signatures: Seq::empty(),
                timestamps: 0,
                status: Status::Unchecked,
            }),
            payload.wf() ==> envelope.wf(),
    {
        let signatures: Signatures = SortedMap::new();
        let envelope = Envelope {
            payload,
            digest: Some(digest),
            signable: true,
            signatures,
            timestamps: 0,
            status: VerificationStatus::Unchecked,
        };
        assert(signatures_view(signatures) =~= Seq::empty());
        envelope
    }

    /// What the envelope says.
    pub fn payload(&self) -> (payload: &Msg)
        ensures
            *payload == self.payload,
    {
        &self.payload
    }

    /// What the envelope is filed under.
    pub fn digest(&self) -> (digest: Result<EnvelopeDigest, WireError>)
        ensures
            match digest {
                Ok(digest) => self@.digest == Some(digest),
                Err(_) => self@.digest is None,
            },
    {
        match self.digest {
            Some(digest) => Ok(digest),
            None => Err(WireError),
        }
    }

    /// The signatures, by key id.
    pub fn signatures(&self) -> (signatures: &Signatures)
        ensures
            *signatures == self.signatures,
    {
        &self.signatures
    }

    /// How the signatures scored.
    pub fn verification_status(&self) -> (status: &VerificationStatus)
        ensures
            *status == self.status,
    {
        &self.status
    }

    /// Records how the signatures scored.
    pub fn set_verification_status(&mut self, status: VerificationStatus)
        ensures
            final(self)@ == (Letter { status: status@, ..old(self)@ }),
            old(self).wf() && status.wf() ==> final(self).wf(),
    {
        self.status = status;
    }

    /// How many distinct keys have verifiably signed.
    pub fn verified_signers(&self) -> (signers: u32)
        ensures
            signers == self@.signers(),
    {
        match &self.status {
            VerificationStatus::AllMatched { .. } => {
                let n: usize = self.signatures.len();
                if n as u64 <= u32::MAX as u64 {
                    n as u32
                } else {
                    u32::MAX
                }
            },
            _ => 0,
        }
    }
}

} // verus!
