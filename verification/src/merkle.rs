//! Trusted boundary to the Merkle tree library: SHA-256 hashing, roots over
//! leaf hashes, and multi-proofs for subsets of leaves.
use crate::util::views_of;
use vstd::prelude::*;

verus! {

/// The SHA-256 digest of a byte sequence.
pub uninterp spec fn sha256(data: Seq<u8>) -> Seq<u8>;

/// The Merkle root over a non-empty sequence of 32-byte leaf hashes.
pub uninterp spec fn merkle_root(leaves: Seq<Seq<u8>>) -> Seq<u8>;

/// The serialized Merkle multi-proof for the given leaf indices.
pub uninterp spec fn merkle_multiproof(leaves: Seq<Seq<u8>>, indices: Seq<usize>) -> Seq<u8>;

/// The root recomputed from a serialized multi-proof together with the proved
/// leaf hashes, their indices, and the total leaf count; `None` when the proof
/// bytes do not suffice.
pub uninterp spec fn merkle_root_from_proof(
    bytes: Seq<u8>,
    indices: Seq<usize>,
    hashes: Seq<Seq<u8>>,
    total: usize,
) -> Option<Seq<u8>>;

/// Relies on rs_merkle's Sha256 hasher: the digest is 32 bytes and a function
/// of the input alone.
#[verifier::external_body]
pub(crate) fn hash_bytes(data: &Vec<u8>) -> (r: Vec<u8>)
    ensures
        r@ == sha256(data@),
        r@.len() == 32,
{
    <rs_merkle::algorithms::Sha256 as rs_merkle::Hasher>::hash(data.as_slice()).to_vec()
}

/// Relies on rs_merkle's MerkleTree::{from_leaves, root}: the root is a
/// deterministic function of the leaf hashes, and is absent exactly for an
/// empty tree.
#[verifier::external_body]
pub(crate) fn merkle_root_of(leaves: &Vec<Vec<u8>>) -> (r: Option<Vec<u8>>)
    requires
        forall|i: int| 0 <= i < leaves@.len() ==> (#[trigger] leaves@[i])@.len() == 32,
    ensures
        r is Some <==> leaves@.len() > 0,
        r matches Some(h) ==> h@ == merkle_root(views_of(leaves@)) && h@.len() == 32,
{
    let to_arr = |l: &Vec<u8>| { let mut a = [0u8; 32]; a.copy_from_slice(l.as_slice()); a };
    let hs: Vec<[u8; 32]> = leaves.iter().map(to_arr).collect();
    rs_merkle::MerkleTree::<rs_merkle::algorithms::Sha256>::from_leaves(hs.as_slice())
        .root()
        .map(|h| h.to_vec())
}

/// Relies on rs_merkle's MerkleTree::proof and MerkleProof::to_bytes: the
/// serialized multi-proof is a deterministic function of the leaves and the
/// (sorted, distinct, in-bounds) indices, and recomputing a root from it with
/// the proved leaf hashes yields the tree's root, as the library documents.
#[verifier::external_body]
pub(crate) fn merkle_proof_bytes(leaves: &Vec<Vec<u8>>, indices: &Vec<usize>) -> (r: Vec<u8>)
    requires
        leaves@.len() > 0,
        indices@.len() > 0,
        forall|i: int| 0 <= i < leaves@.len() ==> (#[trigger] leaves@[i])@.len() == 32,
        forall|i: int| 0 <= i < indices@.len() ==> (#[trigger] indices@[i]) < leaves@.len(),
        forall|i: int, j: int| 0 <= i < j < indices@.len() ==> indices@[i] < indices@[j],
    ensures
        r@ == merkle_multiproof(views_of(leaves@), indices@),
        merkle_root_from_proof(
            r@,
            indices@,
            indices@.map_values(|i: usize| views_of(leaves@)[i as int]),
            leaves@.len() as usize,
        ) == Option::Some(merkle_root(views_of(leaves@))),
{
    let to_arr = |l: &Vec<u8>| { let mut a = [0u8; 32]; a.copy_from_slice(l.as_slice()); a };
    let hs: Vec<[u8; 32]> = leaves.iter().map(to_arr).collect();
    let tree = rs_merkle::MerkleTree::<rs_merkle::algorithms::Sha256>::from_leaves(hs.as_slice());
    tree.proof(indices.as_slice()).to_bytes()
}

/// Relies on rs_merkle's MerkleProof::{from_bytes, root}: recomputing the root
/// is a deterministic function of the proof bytes, indices, leaf hashes and
/// total count; malformed bytes or insufficient hashes yield an error.
#[verifier::external_body]
pub(crate) fn merkle_compute_root(
    proof_bytes: &Vec<u8>,
    indices: &Vec<usize>,
    hashes: &Vec<Vec<u8>>,
    total: usize,
) -> (r: Option<Vec<u8>>)
    requires
        forall|i: int| 0 <= i < indices@.len() ==> (#[trigger] indices@[i]) < total,
        forall|i: int| 0 <= i < hashes@.len() ==> (#[trigger] hashes@[i])@.len() == 32,
    ensures
        match r {
            Option::Some(h) => merkle_root_from_proof(
                proof_bytes@,
                indices@,
                views_of(hashes@),
                total,
            ) == Option::Some(h@) && h@.len() == 32,
            Option::None => merkle_root_from_proof(
                proof_bytes@,
                indices@,
                views_of(hashes@),
                total,
            ) is None,
        },
{
    let to_arr = |l: &Vec<u8>| { let mut a = [0u8; 32]; a.copy_from_slice(l.as_slice()); a };
    let hs: Vec<[u8; 32]> = hashes.iter().map(to_arr).collect();
    match rs_merkle::MerkleProof::<rs_merkle::algorithms::Sha256>::from_bytes(
        proof_bytes.as_slice(),
    ) {
        Ok(p) => match p.root(indices.as_slice(), hs.as_slice(), total) {
            Ok(h) => Some(h.to_vec()),
            Err(_) => None,
        },
        Err(_) => None,
    }
}

} // verus!
