//! Storage regions: a fixed-size identifier derived from a namespace string
//! by Keccak-256, under which a component keeps its persistent entries.
use vstd::prelude::*;
use vstd::string::StringSliceAdditionalSpecFns;

verus! {

/// The namespace that this router's routing table lives under.
pub const DIAMOND_NAMESPACE: &'static str = "diamond.storage.zk.trader";

/// The Keccak-256 digest of a byte string.
pub uninterp spec fn keccak256_of(data: Seq<u8>) -> Seq<u8>;

/// Relies on `stylus_sdk::crypto::keccak`: the 32-byte Keccak-256 digest of
/// `data`, which depends on the bytes of `data` alone.
#[verifier::external_body]
fn keccak(data: &[u8]) -> (r: [u8; 32])
    ensures
        r@ == keccak256_of(data@),
{
    stylus_sdk::crypto::keccak(data).0
}

/// The region identifier of a namespace: the digest of its UTF-8 bytes.
pub open spec fn region_of(namespace: &str) -> Seq<u8> {
    keccak256_of(namespace.spec_bytes())
}

/// The region identifier of this router's routing table.
pub open spec fn diamond_region() -> Seq<u8> {
    region_of(DIAMOND_NAMESPACE)
}

/// Derives the storage region identifier of `namespace`.
pub fn region_id_of(namespace: &str) -> (r: [u8; 32])
    ensures
        r@ == region_of(namespace),
{
    keccak(namespace.as_bytes())
}

/// The storage region identifier of this router's routing table.
pub fn region_id() -> (r: [u8; 32])
    ensures
        r@ == diamond_region(),
{
    region_id_of(DIAMOND_NAMESPACE)
}

/// Region derivation is reproducible: any two results of `region_id` are
/// the same value.
pub proof fn lemma_region_id_stable(a: [u8; 32], b: [u8; 32])
    requires
        a@ == diamond_region(),
        b@ == diamond_region(),
    ensures
        a == b,
{
    assert(a@ =~= b@);
    assert(a == b);
}

} // verus!
