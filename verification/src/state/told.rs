//! What a failure tells its reader.

use vstd::prelude::*;

use crate::digest::{hex_of, EnvelopeDigest, KeyId};
use crate::reading::{
    ends_on, mentions, what_stands_between, what_stands_first, what_stands_last,
};
use crate::state::error::{
    fault_text, keys_fault_text, refusal_text, target_text, Fault, KeysFault, Refusal,
};
use crate::state::nodes::{addr_fault_text, AddrFault};
use crate::subkey::path_text;
use crate::text::decimal;

verus! {

/// The namespace a refusal is about.
pub open spec fn about(refusal: Refusal) -> Option<Seq<char>> {
    match refusal {
        Refusal::UnknownNamespace { key } => Some(key),
        Refusal::UnknownPath { key, .. } => Some(key),
        Refusal::PathTypeMismatch { key, .. } => Some(key),
        Refusal::AmendTypeMismatch { key, .. } => Some(key),
        Refusal::Overflow { key, .. } => Some(key),
        Refusal::InvalidBounds { key, .. } => Some(key),
        Refusal::InvalidValue { key, .. } => Some(key),
        _ => None,
    }
}

/// The place in the namespace a refusal is about, as it is written.
pub open spec fn place_of(refusal: Refusal) -> Option<Seq<char>> {
    match refusal {
        Refusal::UnknownPath { path, .. } => Some(path_text(path)),
        Refusal::PathTypeMismatch { path, .. } => Some(path_text(path)),
        Refusal::AmendTypeMismatch { path: Some(path), .. } => Some(path_text(path)),
        Refusal::Overflow { path: Some(path), .. } => Some(path_text(path)),
        Refusal::InvalidBounds { path: Some(path), .. } => Some(path_text(path)),
        _ => None,
    }
}

/// A refusal names the namespace it is about, and the place in it.
pub proof fn a_refusal_names_its_place(refusal: Refusal)
    ensures
        about(refusal) matches Some(key) ==> mentions(refusal_text(refusal), key),
        place_of(refusal) matches Some(place) ==> mentions(refusal_text(refusal), place),
{
    let text = refusal_text(refusal);
    match refusal {
        Refusal::UnknownNamespace { key } => {
            what_stands_last("no such namespace: "@, key);
        },
        Refusal::UnknownPath { key, path } => {
            what_stands_between("namespace "@, key, " has nothing at "@ + path_text(path));
            assert(text =~= "namespace "@ + key + (" has nothing at "@ + path_text(path)));
            what_stands_last("namespace "@ + key + " has nothing at "@, path_text(path));
        },
        Refusal::PathTypeMismatch { key, path } => {
            what_stands_between("namespace "@, key, " cannot be walked to "@ + path_text(path));
            assert(text =~= "namespace "@ + key + (" cannot be walked to "@ + path_text(path)));
            what_stands_last("namespace "@ + key + " cannot be walked to "@, path_text(path));
        },
        Refusal::AmendTypeMismatch { key, path } => {
            what_stands_between("namespace "@, key, " cannot be amended at "@ + target_text(path));
            assert(text =~= "namespace "@ + key + (" cannot be amended at "@ + target_text(path)));
            what_stands_last("namespace "@ + key + " cannot be amended at "@, target_text(path));
        },
        Refusal::Overflow { key, path } => {
            what_stands_between(
                "namespace "@,
                key,
                " overflows an integer at "@ + target_text(path),
            );
            assert(text =~= "namespace "@ + key + (" overflows an integer at "@ + target_text(
                path,
            )));
            what_stands_last(
                "namespace "@ + key + " overflows an integer at "@,
                target_text(path),
            );
        },
        Refusal::InvalidBounds { key, path } => {
            let end = " to an inverted range"@;
            what_stands_between("namespace "@, key, " clamps "@ + target_text(path) + end);
            assert(text =~= "namespace "@ + key + (" clamps "@ + target_text(path) + end));
            what_stands_between("namespace "@ + key + " clamps "@, target_text(path), end);
        },
        Refusal::InvalidValue { key, fault } => {
            what_stands_between("namespace "@, key, " refused the value: "@ + fault_text(fault));
            assert(text =~= "namespace "@ + key + (" refused the value: "@ + fault_text(fault)));
        },
        _ => {},
    }
}

/// An envelope that follows another than the head is told which it follows
/// first, and which it should last.
pub proof fn a_mismatch_tells_both_ends(expected: EnvelopeDigest, found: EnvelopeDigest)
    ensures
        ({
            let text = refusal_text(Refusal::ChainMismatch { expected, found });
            &&& ("envelope chains onto "@ + hex_of(found.bytes@)).is_prefix_of(text)
            &&& ends_on(text, "the head is "@ + hex_of(expected.bytes@))
        }),
{
    reveal_strlit(", but the head is ");
    reveal_strlit("the head is ");
    let text = refusal_text(Refusal::ChainMismatch { expected, found });
    let first = "envelope chains onto "@ + hex_of(found.bytes@);
    let second = hex_of(expected.bytes@);
    assert(text =~= first + (", but the head is "@ + second));
    what_stands_first(first, ", but the head is "@ + second);
    assert(", but the head is "@ =~= seq![',', ' ', 'b', 'u', 't', ' '] + "the head is "@);
    assert(text =~= first + seq![',', ' ', 'b', 'u', 't', ' '] + ("the head is "@ + second));
    what_stands_last(first + seq![',', ' ', 'b', 'u', 't', ' '], "the head is "@ + second);
}

/// An envelope that is worth too little is told what it is worth first, and
/// what it should be last; so it is with one that too few have signed.
pub proof fn a_shortfall_tells_both_counts(required: u32, found: u32)
    ensures
        ({
            let text = refusal_text(Refusal::InsufficientWeight { required, found });
            &&& ("envelope is worth "@ + decimal(found as nat)).is_prefix_of(text)
            &&& ends_on(text, "minimum weight of "@ + decimal(required as nat))
        }),
        ({
            let text = refusal_text(Refusal::InsufficientSignatures { required, found });
            &&& ("envelope carries "@ + decimal(found as nat)).is_prefix_of(text)
            &&& ends_on(text, "minimum of "@ + decimal(required as nat))
        }),
{
    let need = decimal(required as nat);
    {
        reveal_strlit(", below the minimum weight of ");
        reveal_strlit("minimum weight of ");
        let text = refusal_text(Refusal::InsufficientWeight { required, found });
        let first = "envelope is worth "@ + decimal(found as nat);
        let lead = ", below the minimum weight of "@;
        assert(text =~= first + (lead + need));
        what_stands_first(first, lead + need);
        let some = lead.take(lead.len() - "minimum weight of "@.len());
        assert(lead =~= some + "minimum weight of "@);
        assert(text =~= first + some + ("minimum weight of "@ + need));
        what_stands_last(first + some, "minimum weight of "@ + need);
    }
    {
        reveal_strlit(" verified signatures, below the minimum of ");
        reveal_strlit("minimum of ");
        let text = refusal_text(Refusal::InsufficientSignatures { required, found });
        let first = "envelope carries "@ + decimal(found as nat);
        let lead = " verified signatures, below the minimum of "@;
        assert(text =~= first + (lead + need));
        what_stands_first(first, lead + need);
        let some = lead.take(lead.len() - "minimum of "@.len());
        assert(lead =~= some + "minimum of "@);
        assert(text =~= first + some + ("minimum of "@ + need));
        what_stands_last(first + some, "minimum of "@ + need);
    }
}

/// A value that breaks a rule is told which, and a key that is filed wrong
/// is named: where it is filed, and where it belongs.
pub proof fn a_fault_says_what_is_wrong(key: Seq<char>, fault: Fault, id: Seq<char>, derived: KeyId)
    ensures
        ends_on(refusal_text(Refusal::InvalidValue { key, fault }), fault_text(fault)),
        mentions(keys_fault_text(KeysFault::NotAKey { id }), id),
        mentions(keys_fault_text(KeysFault::IdMismatch { id, derived }), id),
        ends_on(
            keys_fault_text(KeysFault::IdMismatch { id, derived }),
            "derives to "@ + hex_of(derived.bytes@),
        ),
        fault matches Fault::TrustedKeys(reason) ==> fault_text(fault) == keys_fault_text(reason),
        fault matches Fault::ClusterNodes(reason) ==> fault_text(fault) == reason,
{
    what_stands_last("namespace "@ + key + " refused the value: "@, fault_text(fault));
    what_stands_between("the entry under "@, id, " is not a key"@);
    let end = hex_of(derived.bytes@);
    let text = keys_fault_text(KeysFault::IdMismatch { id, derived });
    assert(text =~= "the key filed under "@ + id + (" derives to "@ + end));
    what_stands_between("the key filed under "@, id, " derives to "@ + end);
    reveal_strlit(" derives to ");
    reveal_strlit("derives to ");
    assert(" derives to "@ =~= seq![' '] + "derives to "@);
    assert(text =~= "the key filed under "@ + id + seq![' '] + ("derives to "@ + end));
    what_stands_last("the key filed under "@ + id + seq![' '], "derives to "@ + end);
}

/// The three rules on whole numbers are told apart.
pub proof fn number_rules_are_told_apart()
    ensures
        fault_text(Fault::MinKeepMinutes) != fault_text(Fault::MinEnvelopeWeight),
        fault_text(Fault::MinEnvelopeWeight) != fault_text(Fault::MinEnvelopeSignatures),
        fault_text(Fault::MinKeepMinutes) != fault_text(Fault::MinEnvelopeSignatures),
{
    reveal_strlit("the compaction floor must be a positive whole number of minutes");
    reveal_strlit("the minimum envelope weight must be a non-negative whole number");
    reveal_strlit("the minimum envelope signature count must be a non-negative whole number");
    assert(fault_text(Fault::MinKeepMinutes)[4] == 'c');
    assert(fault_text(Fault::MinEnvelopeWeight)[4] == 'm');
    assert(fault_text(Fault::MinEnvelopeSignatures)[4] == 'm');
    assert(fault_text(Fault::MinEnvelopeWeight).len() != fault_text(
        Fault::MinEnvelopeSignatures,
    ).len());
}

/// What is wrong with an address is named: the field that is not there, the
/// text that cannot be read, and what it was to be read as.
pub proof fn a_bad_address_is_named(fault: AddrFault)
    ensures
        fault matches AddrFault::NotAMap(what) ==> what.is_prefix_of(addr_fault_text(fault)),
        fault matches AddrFault::MissingField(field) ==> mentions(addr_fault_text(fault), field),
        fault matches AddrFault::BadEndpointId(text) ==> mentions(addr_fault_text(fault), text),
        fault matches AddrFault::BadAddr { kind, text } ==> mentions(addr_fault_text(fault), text)
            && ends_on(addr_fault_text(fault), "`"@ + kind + "`"@),
{
    match fault {
        AddrFault::NotAMap(what) => {
            what_stands_first(what, " is not a map"@);
        },
        AddrFault::MissingField(field) => {
            what_stands_between("missing or invalid `"@, field, "` field"@);
        },
        AddrFault::BadEndpointId(text) => {
            what_stands_between("`"@, text, "` is not an endpoint id"@);
        },
        AddrFault::BadAddr { kind, text } => {
            let mid = "` is not an address of type `"@;
            assert(addr_fault_text(fault) =~= "`"@ + text + (mid + kind + "`"@));
            what_stands_between("`"@, text, mid + kind + "`"@);
            reveal_strlit("` is not an address of type `");
            reveal_strlit("`");
            let some = mid.drop_last();
            assert(mid =~= some + "`"@);
            assert(addr_fault_text(fault) =~= "`"@ + text + some + ("`"@ + kind + "`"@));
            what_stands_last("`"@ + text + some, "`"@ + kind + "`"@);
        },
    }
}

} // verus!
