//! Hierarchical authenticated data store: a two-level composition of Merkle
//! trees. Each subtree is an authenticated ordered key/value map (a leaf
//! tree); the top tree is a SHA-256 Merkle tree over the root hashes of the
//! top-level subtrees, yielding a single database root hash.
pub mod leaftree;
pub mod merkle;
pub mod meta;
pub mod proofs;
pub mod subtree;
pub mod util;

pub use leaftree::{execute_leaf_proof, LeafTree};
pub use proofs::{Proof, ProofQuery, Query};
pub use subtree::Element;
pub use util::{bytes_eq, copy_bytes, push_bytes, views_of};

use vstd::prelude::*;

verus! {

use crate::leaftree::{
    copy_entries, entry_views, spec_apply, spec_get, spec_root_hash, unique_keys, zero_hash,
};
use crate::meta::{
    bincode_index, bincode_parse_index, bincode_parse_prefixes, bincode_prefixes,
    deserialize_index, deserialize_prefixes, pair_views, serialize_index, serialize_prefixes,
};
use crate::merkle::{merkle_root, merkle_root_of};
use crate::subtree::{spec_decode_element, spec_encode_element, ElementView};
use crate::util::{
    assoc_get, assoc_unique, distinct_bytes, lemma_assoc_first_entry, lemma_assoc_found,
    lemma_assoc_none_pointwise, lemma_assoc_not_found, lemma_assoc_push, lemma_assoc_some_index,
    lemma_assoc_update,
};

/// Limit of possible indirections when following references.
pub const MAX_REFERENCE_HOPS: usize = 10;

/// Errors surfaced at operation boundaries.
#[derive(Debug)]
pub enum Error {
    /// The reference resolver revisited a key.
    CyclicReference,
    /// A reference chain exceeded `MAX_REFERENCE_HOPS`.
    ReferenceLimit,
    /// Structure, arity, hash, or path mismatch during proof verification.
    InvalidProof(&'static str),
    /// Missing subtree, empty path where not allowed, or key not found.
    InvalidPath(&'static str),
    /// Underlying store failure, surfaced by the embedding.
    StorageError(&'static str),
    /// Decode failure of a persisted or transferred artifact.
    CorruptedData(&'static str),
}

/// Concatenation of a path's segments, optionally followed by a terminal key.
/// Identifies a subtree (as a storage prefix) or an entry within it.
pub open spec fn spec_compress_path(path: Seq<Seq<u8>>, key: Option<Seq<u8>>) -> Seq<u8> {
    path.flatten() + (match key {
        Option::Some(k) => k,
        Option::None => Seq::empty(),
    })
}

/// Builds a new byte-vector path whose views are the first `m` segments of
/// `path`.
pub fn prefix_of(path: &Vec<Vec<u8>>, m: usize) -> (r: Vec<Vec<u8>>)
    requires
        m <= path@.len(),
    ensures
        views_of(r@) == views_of(path@).take(m as int),
{
    let mut r: Vec<Vec<u8>> = Vec::new();
    let mut i: usize = 0;
    while i < m
        invariant
            i <= m <= path@.len(),
            views_of(r@) =~= views_of(path@).take(i as int),
        decreases m - i,
    {
        r.push(copy_bytes(&path[i]));
        proof {
            assert(views_of(path@).take(i + 1) =~= views_of(path@).take(i as int).push(
                path@[i as int]@,
            ));
            assert(views_of(r@) =~= views_of(path@).take(i + 1));
        }
        i = i + 1;
    }
    proof {
        assert(views_of(r@) =~= views_of(path@).take(m as int));
    }
    r
}

/// Builds the compressed form of `path`, followed by `key` when present.
/// Pure, total, deterministic.
pub fn compress_path(path: &Vec<Vec<u8>>, key: Option<&Vec<u8>>) -> (r: Vec<u8>)
    ensures
        r@ == spec_compress_path(views_of(path@), match key {
            Option::Some(k) => Option::Some(k@),
            Option::None => Option::None,
        }),
{
    let mut r: Vec<u8> = Vec::new();
    let mut i: usize = 0;
    proof {
        assert(views_of(path@).take(0) =~= Seq::<Seq<u8>>::empty());
        assert(Seq::<Seq<u8>>::empty().flatten() =~= Seq::<u8>::empty());
        assert(r@ =~= views_of(path@).take(0).flatten());
    }
    while i < path.len()
        invariant
            i <= path@.len(),
            r@ == views_of(path@).take(i as int).flatten(),
        decreases path@.len() - i,
    {
        proof {
            views_of(path@).take(i as int).lemma_flatten_push(path@[i as int]@);
            assert(views_of(path@).take(i + 1) =~= views_of(path@).take(i as int).push(
                path@[i as int]@,
            ));
        }
        push_bytes(&mut r, &path[i]);
        i = i + 1;
    }
    proof {
        assert(views_of(path@).take(path@.len() as int) =~= views_of(path@));
    }
    match key {
        Option::Some(k) => {
            push_bytes(&mut r, k);
        },
        Option::None => {
            proof {
                assert(r@ =~= r@ + Seq::<u8>::empty());
            }
        },
    }
    r
}

/// The hierarchical authenticated store: a registry of leaf trees keyed by
/// compressed path, the ordered root-leaf index, and a cache of the top
/// Merkle tree's leaf hashes.
pub struct GroveDb {
    root_tree_leaves: Vec<Vec<u8>>,
    root_leaf_keys: Vec<Vec<u8>>,
    subtrees: Vec<(Vec<u8>, LeafTree)>,
}

impl GroveDb {
    /// The leaf-tree registry: compressed path to entry list, in insertion
    /// order.
    pub closed spec fn registry(&self) -> Seq<(Seq<u8>, Seq<(Seq<u8>, Seq<u8>)>)> {
        self.subtrees@.map_values(|p: (Vec<u8>, LeafTree)| (p.0@, p.1@))
    }

    /// The root-leaf index: position `i` holds the compressed path of the
    /// top-level subtree assigned slot `i`. Positions are dense by
    /// construction.
    pub closed spec fn positions(&self) -> Seq<Seq<u8>> {
        views_of(self.root_leaf_keys@)
    }

    /// The cached leaf hashes of the top Merkle tree.
    pub closed spec fn top_leaves(&self) -> Seq<Seq<u8>> {
        views_of(self.root_tree_leaves@)
    }

    /// The entries of the leaf tree registered at `prefix` (empty when no
    /// such tree exists).
    pub open spec fn tree_at(&self, prefix: Seq<u8>) -> Seq<(Seq<u8>, Seq<u8>)> {
        reg_tree_at(self.registry(), prefix)
    }

    /// Structural well-formedness: registry keys unique, root-leaf paths
    /// distinct and registered, every tree's keys unique.
    pub open spec fn wf0(&self) -> bool {
        &&& assoc_unique(self.registry())
        &&& (forall|i: int, j: int|
            0 <= i < j < self.positions().len() ==> self.positions()[i] != self.positions()[j])
        &&& (forall|i: int|
            0 <= i < self.positions().len() ==> assoc_get(
                self.registry(),
                #[trigger] self.positions()[i],
            ) is Some)
        &&& (forall|i: int|
            0 <= i < self.registry().len() ==> unique_keys(
                (#[trigger] self.registry()[i]).1,
            ))
    }

    /// The top-tree cache is in sync: one 32-byte leaf hash per root-leaf
    /// position, equal to the root hash of the subtree assigned that slot.
    pub open spec fn leaves_ok(&self) -> bool {
        &&& self.top_leaves().len() == self.positions().len()
        &&& (forall|i: int|
            0 <= i < self.positions().len() ==> (#[trigger] self.top_leaves()[i]).len() == 32)
        &&& (forall|i: int|
            0 <= i < self.positions().len() ==> #[trigger] self.top_leaves()[i] == spec_root_hash(
                self.tree_at(self.positions()[i]),
            ))
    }

    /// Full well-formedness, restored by every mutating operation.
    pub open spec fn wf(&self) -> bool {
        self.wf0() && self.leaves_ok()
    }

    /// The database root hash: the all-zero hash for an empty store, else
    /// the Merkle root over the top leaf hashes.
    pub open spec fn spec_db_root(&self) -> Seq<u8> {
        if self.positions().len() == 0 {
            zero_hash()
        } else {
            merkle_root(self.top_leaves())
        }
    }

    /// Finds the registry slot of `prefix`, if registered.
    fn find_subtree(&self, prefix: &Vec<u8>) -> (r: Option<usize>)
        ensures
            match r {
                Option::Some(i) => i < self.registry().len() && self.registry()[i as int].0
                    == prefix@ && (forall|j: int|
                    0 <= j < i ==> (#[trigger] self.registry()[j]).0 != prefix@) && assoc_get(
                    self.registry(),
                    prefix@,
                ) == Option::Some(self.registry()[i as int].1),
                Option::None => assoc_get(self.registry(), prefix@) is None,
            },
    {
        let mut i: usize = 0;
        while i < self.subtrees.len()
            invariant
                i <= self.subtrees@.len(),
                self.registry().len() == self.subtrees@.len(),
                forall|j: int| 0 <= j < i ==> (#[trigger] self.registry()[j]).0 != prefix@,
            decreases self.subtrees@.len() - i,
        {
            if bytes_eq(&self.subtrees[i].0, prefix) {
                proof {
                    lemma_assoc_found(self.registry(), prefix@, i as int);
                }
                return Option::Some(i);
            }
            i = i + 1;
        }
        proof {
            lemma_assoc_not_found(self.registry(), prefix@);
        }
        Option::None
    }

    /// Finds the root-leaf position of `prefix`, if assigned.
    fn find_position(&self, prefix: &Vec<u8>) -> (r: Option<usize>)
        ensures
            match r {
                Option::Some(i) => i < self.positions().len() && self.positions()[i as int]
                    == prefix@,
                Option::None => forall|j: int|
                    0 <= j < self.positions().len() ==> self.positions()[j] != prefix@,
            },
    {
        let mut i: usize = 0;
        while i < self.root_leaf_keys.len()
            invariant
                i <= self.root_leaf_keys@.len(),
                self.positions().len() == self.root_leaf_keys@.len(),
                forall|j: int| 0 <= j < i ==> self.positions()[j] != prefix@,
            decreases self.root_leaf_keys@.len() - i,
        {
            if bytes_eq(&self.root_leaf_keys[i], prefix) {
                return Option::Some(i);
            }
            i = i + 1;
        }
        Option::None
    }

    /// Rebuilds the cached top-tree leaf hashes from the current subtree
    /// roots, in root-leaf index order.
    fn build_root_tree(&mut self)
        requires
            old(self).wf0(),
        ensures
            final(self).wf(),
            final(self).registry() == old(self).registry(),
            final(self).positions() == old(self).positions(),
    {
        let mut leaves: Vec<Vec<u8>> = Vec::new();
        let mut i: usize = 0;
        while i < self.root_leaf_keys.len()
            invariant
                self.wf0(),
                *self == *old(self),
                i <= self.root_leaf_keys@.len(),
                self.positions().len() == self.root_leaf_keys@.len(),
                leaves@.len() == i,
                forall|j: int| 0 <= j < i ==> (#[trigger] leaves@[j])@.len() == 32,
                forall|j: int|
                    0 <= j < i ==> (#[trigger] leaves@[j])@ == spec_root_hash(
                        self.tree_at(self.positions()[j]),
                    ),
            decreases self.root_leaf_keys@.len() - i,
        {
            match self.find_subtree(&self.root_leaf_keys[i]) {
                Option::Some(t) => {
                    let root = self.subtrees[t].1.root_hash();
                    leaves.push(root);
                },
                Option::None => {
                    proof {
                        assert(self.positions()[i as int] == self.root_leaf_keys@[i as int]@);
                        assert(assoc_get(self.registry(), self.positions()[i as int]) is Some);
                        assert(false);
                    }
                },
            }
            i = i + 1;
        }
        self.root_tree_leaves = leaves;
        proof {
            assert(final(self).registry() =~= old(self).registry());
        }
    }

    /// Fetches the element stored under `path` and `key` without following
    /// references. Fails with an invalid-path error when the subtree or the
    /// key is absent, and with corrupted data when the value does not decode.
    pub fn get_raw(&self, path: &Vec<Vec<u8>>, key: &Vec<u8>) -> (r: Result<Element, Error>)
        ensures
            ({
                let cp = spec_compress_path(views_of(path@), Option::None);
                match assoc_get(self.registry(), cp) {
                    Option::None => r matches Result::Err(e) && e is InvalidPath,
                    Option::Some(es) => match spec_get(es, key@) {
                        Option::None => r matches Result::Err(e) && e is InvalidPath,
                        Option::Some(v) => match spec_decode_element(v) {
                            Option::None => r matches Result::Err(e) && e is CorruptedData,
                            Option::Some(ev) => r matches Result::Ok(e) && e@ == ev,
                        },
                    },
                }
            }),
    {
        let cp = compress_path(path, Option::None);
        match self.find_subtree(&cp) {
            Option::None => Result::Err(Error::InvalidPath("no subtree found under that path")),
            Option::Some(i) => match self.subtrees[i].1.get(key) {
                Option::None => Result::Err(Error::InvalidPath("key not found in Merk")),
                Option::Some(v) => Element::decode(&v),
            },
        }
    }

    /// The inputs on which `get` finds an element: the subtree and the key
    /// exist, the stored bytes decode, and any reference chain resolves to a
    /// plain element within the hop limit.
    pub open spec fn spec_get_ok(&self, path: Seq<Seq<u8>>, key: Seq<u8>) -> bool {
        match assoc_get(self.registry(), spec_compress_path(path, Option::None)) {
            Option::None => false,
            Option::Some(es) => match spec_get(es, key) {
                Option::None => false,
                Option::Some(v) => match spec_decode_element(v) {
                    Option::None => false,
                    Option::Some(ElementView::Reference(rk)) => crate::subtree::spec_follow(
                        es,
                        rk,
                        Seq::empty(),
                        MAX_REFERENCE_HOPS as nat,
                    ) is Found,
                    Option::Some(_) => true,
                },
            },
        }
    }

    /// Fetches the element stored under `path` and `key`, following
    /// references within the containing leaf tree, up to the hop limit and
    /// failing on cycles. A successful result is never a reference.
    pub fn get(&self, path: &Vec<Vec<u8>>, key: &Vec<u8>) -> (r: Result<Element, Error>)
        ensures
            r is Ok <==> self.spec_get_ok(views_of(path@), key@),
            ({
                let cp = spec_compress_path(views_of(path@), Option::None);
                match assoc_get(self.registry(), cp) {
                    Option::None => r matches Result::Err(e) && e is InvalidPath,
                    Option::Some(es) => match spec_get(es, key@) {
                        Option::None => r matches Result::Err(e) && e is InvalidPath,
                        Option::Some(v) => match spec_decode_element(v) {
                            Option::None => r matches Result::Err(e) && e is CorruptedData,
                            Option::Some(ElementView::Reference(rk)) => crate::subtree::outcome_ok(
                                r,
                                crate::subtree::spec_follow(
                                    es,
                                    rk,
                                    Seq::empty(),
                                    MAX_REFERENCE_HOPS as nat,
                                ),
                            ),
                            Option::Some(ev) => r matches Result::Ok(e) && e@ == ev,
                        },
                    },
                }
            }),
            r matches Result::Ok(e) ==> !(e@ is Reference),
    {
        let cp = compress_path(path, Option::None);
        match self.find_subtree(&cp) {
            Option::None => Result::Err(Error::InvalidPath("no subtree found under that path")),
            Option::Some(i) => match self.subtrees[i].1.get(key) {
                Option::None => Result::Err(Error::InvalidPath("key not found in Merk")),
                Option::Some(v) => match Element::decode(&v) {
                    Result::Err(e) => Result::Err(e),
                    Result::Ok(el) => {
                        proof {
                            crate::subtree::lemma_follow_no_reference(
                                self.subtrees@[i as int].1@,
                                match el@ {
                                    ElementView::Reference(rk) => rk,
                                    _ => Seq::empty(),
                                },
                                Seq::empty(),
                                MAX_REFERENCE_HOPS as nat,
                            );
                        }
                        el.follow_reference(&self.subtrees[i].1)
                    },
                },
            },
        }
    }

    /// Rewrites one binding of the leaf tree in registry slot `i`.
    fn apply_to_subtree(&mut self, i: usize, key: &Vec<u8>, value: &Vec<u8>)
        requires
            i < old(self).registry().len(),
        ensures
            final(self).registry() == old(self).registry().update(
                i as int,
                (
                    old(self).registry()[i as int].0,
                    spec_apply(old(self).registry()[i as int].1, key@, value@),
                ),
            ),
            final(self).positions() == old(self).positions(),
            final(self).top_leaves() == old(self).top_leaves(),
    {
        let ghost orig = self.subtrees@;
        let kv = self.subtrees.remove(i);
        let k = kv.0;
        let mut lt = kv.1;
        lt.apply(key, value);
        self.subtrees.insert(i, (k, lt));
        proof {
            assert(self.subtrees@ =~= orig.update(i as int, (orig[i as int].0, lt)));
            assert(final(self).registry() =~= old(self).registry().update(
                i as int,
                (
                    old(self).registry()[i as int].0,
                    spec_apply(old(self).registry()[i as int].1, key@, value@),
                ),
            ));
        }
    }

    /// Registers a new leaf tree under a fresh compressed path.
    fn add_subtree(&mut self, prefix: Vec<u8>, lt: LeafTree)
        ensures
            final(self).registry() == old(self).registry().push((prefix@, lt@)),
            final(self).positions() == old(self).positions(),
            final(self).top_leaves() == old(self).top_leaves(),
    {
        let ghost orig = self.subtrees@;
        self.subtrees.push((prefix, lt));
        proof {
            assert(final(self).registry() =~= old(self).registry().push(
                (self.subtrees@.last().0@, self.subtrees@.last().1@),
            ));
        }
    }

    /// Walks a mutation's path upward: each enclosing leaf tree's marker for
    /// the inner subtree is rewritten with the inner tree's current root
    /// hash, and the top Merkle tree is rebuilt at the root level.
    fn propagate_changes(&mut self, path: &Vec<Vec<u8>>)
        requires
            old(self).wf0(),
            chain_present(old(self).registry(), views_of(path@)),
        ensures
            final(self).wf(),
            final(self).positions() == old(self).positions(),
            final(self).registry().len() == old(self).registry().len(),
            forall|t: int|
                0 <= t < old(self).registry().len() ==> (#[trigger] final(self).registry()[t]).0
                    == old(self).registry()[t].0,
            forall|p: Seq<u8>|
                (forall|j: int|
                    1 <= j < path@.len() ==> p != spec_compress_path(
                        views_of(path@).take(j),
                        Option::None,
                    )) ==> #[trigger] assoc_get(final(self).registry(), p) == assoc_get(
                    old(self).registry(),
                    p,
                ),
            proper_path(views_of(path@)) ==> forall|j: int|
                1 <= j < path@.len() ==> link_ok(final(self).registry(), views_of(path@), j),
            proper_path(views_of(path@)) ==> forall|j: int, k2: Seq<u8>|
                1 <= j < path@.len() && k2 != views_of(path@)[j] ==> #[trigger] spec_get(
                    reg_tree_at(
                        final(self).registry(),
                        spec_compress_path(views_of(path@).take(j), Option::None),
                    ),
                    k2,
                ) == spec_get(
                    reg_tree_at(
                        old(self).registry(),
                        spec_compress_path(views_of(path@).take(j), Option::None),
                    ),
                    k2,
                ),
        decreases path@.len(),
    {
        let ghost vp = views_of(path@);
        let n = path.len();
        if n <= 1 {
            self.build_root_tree();
        } else {
            let parent_path = prefix_of(path, n - 1);
            let ghost vparent = views_of(parent_path@);
            let child_cp = compress_path(path, Option::None);
            let parent_cp = compress_path(&parent_path, Option::None);
            proof {
                assert(vp.take(n as int) =~= vp);
                assert(child_cp@ == spec_compress_path(vp.take(n as int), Option::None));
                assert(parent_cp@ == spec_compress_path(vp.take(n - 1), Option::None));
            }
            let ci = match self.find_subtree(&child_cp) {
                Option::Some(ci) => ci,
                Option::None => {
                    proof {
                        assert(false);
                    }
                    return ;
                },
            };
            let child_root = self.subtrees[ci].1.root_hash();
            proof {
                assert(self.registry()[ci as int].1 == self.subtrees@[ci as int].1@);
                assert(child_root@ == spec_root_hash(reg_tree_at(self.registry(), child_cp@)));
            }
            let element = Element::Tree(child_root);
            let bytes = element.encode();
            let pi = match self.find_subtree(&parent_cp) {
                Option::Some(pi) => pi,
                Option::None => {
                    proof {
                        assert(false);
                    }
                    return ;
                },
            };
            let ghost reg0 = self.registry();
            let ghost parent_es = reg0[pi as int].1;
            self.apply_to_subtree(pi, &path[n - 1], &bytes);
            let ghost reg1 = self.registry();
            proof {
                lemma_assoc_update(reg0, pi as int, spec_apply(parent_es, vp[n - 1], bytes@));
                crate::leaftree::lemma_apply_semantics(parent_es, vp[n - 1], bytes@);
                // Structural well-formedness survives the single-tree update.
                assert(self.wf0());
                assert(vparent == vp.take(n - 1));
                assert(forall|j: int| 0 <= j <= vparent.len() ==> vparent.take(j) =~= vp.take(j));
                assert(chain_present(reg1, vparent));
            }
            self.propagate_changes(&parent_path);
            proof {
                let regf = final(self).registry();
                assert(forall|j: int| 0 <= j <= vparent.len() ==> vparent.take(j) =~= vp.take(j));
                if proper_path(vp) {
                    assert(proper_path(vparent));
                    // Links established by the recursive call carry over.
                    assert forall|j: int| 1 <= j < n - 1 implies link_ok(regf, vp, j) by {
                        assert(link_ok(regf, vparent, j));
                        assert(vparent[j] == vp[j]);
                    }
                    // The deepest link survives the recursion: the parent and
                    // child prefixes are longer than every prefix it touches.
                    assert forall|m: int| 1 <= m < n - 1 implies parent_cp@
                        != spec_compress_path(vparent.take(m), Option::None) && child_cp@
                        != spec_compress_path(vparent.take(m), Option::None) by {
                        lemma_compress_extend(vp, m, n - 1);
                        lemma_compress_extend(vp, m, n as int);
                        assert(vparent.take(m) =~= vp.take(m));
                    }
                    assert(assoc_get(regf, parent_cp@) == assoc_get(reg1, parent_cp@));
                    assert(assoc_get(regf, child_cp@) == assoc_get(reg1, child_cp@));
                    lemma_compress_extend(vp, n - 1, n as int);
                    assert(parent_cp@ != child_cp@);
                    assert(spec_get(reg_tree_at(reg1, parent_cp@), vp[n - 1]) == Option::Some(
                        bytes@,
                    ));
                    crate::subtree::lemma_element_codec_round_trip(element@);
                    assert(link_ok(regf, vp, n - 1));
                    // Key-level frame: each chain tree was rewritten only at
                    // its propagated key.
                    assert forall|j: int, k2: Seq<u8>| 1 <= j < n && k2 != vp[j] implies
                        #[trigger] spec_get(
                        reg_tree_at(regf, spec_compress_path(vp.take(j), Option::None)),
                        k2,
                    ) == spec_get(
                        reg_tree_at(reg0, spec_compress_path(vp.take(j), Option::None)),
                        k2,
                    ) by {
                        assert(vparent.take(j) =~= vp.take(j));
                        if j < n - 1 {
                            assert(vparent[j] == vp[j]);
                            assert(spec_get(
                                reg_tree_at(
                                    regf,
                                    spec_compress_path(vparent.take(j), Option::None),
                                ),
                                k2,
                            ) == spec_get(
                                reg_tree_at(
                                    reg1,
                                    spec_compress_path(vparent.take(j), Option::None),
                                ),
                                k2,
                            ));
                            lemma_compress_extend(vp, j, n - 1);
                            assert(assoc_get(
                                reg1,
                                spec_compress_path(vp.take(j), Option::None),
                            ) == assoc_get(reg0, spec_compress_path(vp.take(j), Option::None)));
                        } else {
                            assert(assoc_get(regf, parent_cp@) == assoc_get(reg1, parent_cp@));
                            assert(assoc_get(reg1, parent_cp@) == Option::Some(
                                spec_apply(parent_es, vp[n - 1], bytes@),
                            ));
                            assert(spec_get(spec_apply(parent_es, vp[n - 1], bytes@), k2)
                                == spec_get(parent_es, k2));
                            assert(assoc_get(reg0, parent_cp@) == Option::Some(parent_es));
                        }
                    }
                }
            }
        }
    }

    /// The inputs on which `insert` succeeds: only subtrees may be placed at
    /// the root level, and every enclosing subtree along the path must
    /// already exist.
    pub open spec fn spec_insert_ok(&self, path: Seq<Seq<u8>>, elem: ElementView) -> bool {
        if elem is Tree {
            path.len() == 0 || chain_present(self.registry(), path)
        } else {
            path.len() > 0 && chain_present(self.registry(), path)
        }
    }

    /// Whether every enclosing subtree along `path` is registered.
    fn check_chain(&self, path: &Vec<Vec<u8>>) -> (r: bool)
        ensures
            r <==> chain_present(self.registry(), views_of(path@)),
    {
        let mut j: usize = 0;
        while j < path.len()
            invariant
                j <= path@.len(),
                forall|m: int|
                    1 <= m <= j ==> assoc_get(
                        self.registry(),
                        #[trigger] spec_compress_path(views_of(path@).take(m), Option::None),
                    ) is Some,
            decreases path@.len() - j,
        {
            let pfx = prefix_of(path, j + 1);
            let cpj = compress_path(&pfx, Option::None);
            proof {
                assert(cpj@ == spec_compress_path(views_of(path@).take(j + 1), Option::None));
            }
            match self.find_subtree(&cpj) {
                Option::None => {
                    return false;
                },
                Option::Some(_) => {},
            }
            j = j + 1;
        }
        true
    }

    /// Inserts `element` under `path` and `key`. Subtree markers create (or
    /// re-open) the nested leaf tree and, at the root level, assign the next
    /// free root-leaf position; other elements are encoded into the existing
    /// leaf tree. The change is propagated up to the database root before
    /// the call returns; on failure the store is left unchanged.
    pub fn insert(&mut self, path: &Vec<Vec<u8>>, key: Vec<u8>, element: Element) -> (r: Result<
        (),
        Error,
    >)
        requires
            old(self).wf(),
        ensures
            final(self).wf(),
            r is Ok <==> old(self).spec_insert_ok(views_of(path@), element@),
            r matches Err(e) ==> e is InvalidPath && final(self).registry() == old(self).registry()
                && final(self).positions() == old(self).positions() && final(self).top_leaves()
                == old(self).top_leaves(),
            r is Ok && !(element@ is Tree) && proper_path(views_of(path@)) ==> ({
                let cp = spec_compress_path(views_of(path@), Option::None);
                &&& assoc_get(final(self).registry(), cp) matches Option::Some(es)
                    && spec_get(es, key@) == Option::Some(spec_encode_element(element@))
                &&& forall|j: int|
                    1 <= j < path@.len() ==> link_ok(final(self).registry(), views_of(path@), j)
            }),
            r is Ok && element@ is Tree && path@.len() == 0 ==> ({
                &&& assoc_get(final(self).registry(), key@) is Some
                &&& (if old(self).positions().contains(key@) {
                    final(self).positions() == old(self).positions()
                } else {
                    final(self).positions() == old(self).positions().push(key@)
                })
            }),
            r is Ok && element@ is Tree && path@.len() > 0 && proper_path(
                views_of(path@).push(key@),
            ) ==> ({
                &&& assoc_get(
                    final(self).registry(),
                    spec_compress_path(views_of(path@), Option::Some(key@)),
                ) is Some
                &&& forall|j: int|
                    1 <= j <= path@.len() ==> link_ok(
                        final(self).registry(),
                        views_of(path@).push(key@),
                        j,
                    )
            }),
            r is Ok && !(element@ is Tree) ==> final(self).positions() == old(self).positions(),
            r is Ok ==> spec_insert_frame(
                old(self).registry(),
                final(self).registry(),
                views_of(path@),
                key@,
                element@,
            ),
            r is Ok && !(element@ is Tree) && proper_path(views_of(path@))
                ==> spec_insert_content(
                old(self).registry(),
                final(self).registry(),
                views_of(path@),
                key@,
                element@,
            ),
            r is Ok && element@ is Tree && path@.len() > 0 && proper_path(
                views_of(path@).push(key@),
            ) ==> spec_insert_content(
                old(self).registry(),
                final(self).registry(),
                views_of(path@),
                key@,
                element@,
            ),
    {
        let ghost vp = views_of(path@);
        let ghost elemv = element@;
        let is_tree = match &element {
            Element::Tree(_) => true,
            _ => false,
        };
        if is_tree && path.len() == 0 {
            // A new top-level subtree: register the leaf tree under the key
            // itself and give it a stable root-leaf position.
            let cpk = copy_bytes(&key);
            let ghost reg0 = self.registry();
            match self.find_subtree(&cpk) {
                Option::Some(_) => {},
                Option::None => {
                    self.add_subtree(cpk, LeafTree::new());
                    proof {
                        lemma_assoc_none_pointwise(reg0, key@);
                        lemma_assoc_push(reg0, key@, Seq::<(Seq<u8>, Seq<u8>)>::empty());
                        assert(unique_keys(Seq::<(Seq<u8>, Seq<u8>)>::empty()));
                        assert(self.wf0());
                    }
                },
            }
            proof {
                assert(forall|p: Seq<u8>|
                    p != key@ ==> #[trigger] assoc_get(self.registry(), p) == assoc_get(reg0, p));
                assert(assoc_get(self.registry(), key@) == Option::Some(reg_tree_at(reg0, key@)));
            }
            let ghost reg_mid = self.registry();
            match self.find_position(&key) {
                Option::Some(_) => {},
                Option::None => {
                    let ghost pos0 = self.positions();
                    self.root_leaf_keys.push(copy_bytes(&key));
                    proof {
                        assert(self.positions() =~= pos0.push(key@));
                        assert(self.wf0());
                    }
                },
            }
            let mut sp: Vec<Vec<u8>> = Vec::new();
            sp.push(copy_bytes(&key));
            proof {
                assert(views_of(sp@) =~= seq![key@]);
                assert(views_of(sp@).take(1) =~= views_of(sp@));
                views_of(sp@).lemma_flatten_one_element();
                assert(views_of(sp@).flatten() == key@);
                assert(spec_compress_path(views_of(sp@), Option::None) =~= key@);
            }
            self.propagate_changes(&sp);
            proof {
                assert forall|p: Seq<u8>| p != key@ implies #[trigger] assoc_get(
                    final(self).registry(),
                    p,
                ) == assoc_get(old(self).registry(), p) by {
                    assert(assoc_get(final(self).registry(), p) == assoc_get(reg_mid, p));
                }
                assert(assoc_get(final(self).registry(), key@) == assoc_get(reg_mid, key@));
                assert(spec_insert_frame(
                    old(self).registry(),
                    final(self).registry(),
                    vp,
                    key@,
                    element@,
                ));
            }
            return Result::Ok(());
        }
        if path.len() == 0 {
            return Result::Err(
                Error::InvalidPath("only subtrees are allowed as root tree's leafs"),
            );
        }
        if !self.check_chain(path) {
            return Result::Err(Error::InvalidPath("no subtree found under that path"));
        }
        let n = path.len();
        let cp = compress_path(path, Option::None);
        proof {
            assert(vp.take(n as int) =~= vp);
            assert(cp@ == spec_compress_path(vp.take(n as int), Option::None));
        }
        let ghost reg_pre = self.registry();
        let value;
        let ghost ppk = vp.push(key@);
        if is_tree {
            // Open (or create) the nested leaf tree and mark the parent
            // entry with its current root hash.
            let cpk = compress_path(path, Option::Some(&key));
            let ghost rega = self.registry();
            match self.find_subtree(&cpk) {
                Option::Some(ti) => {
                    proof {
                        assert(forall|p: Seq<u8>|
                            p != cpk@ ==> #[trigger] assoc_get(self.registry(), p) == assoc_get(
                                reg_pre,
                                p,
                            ));
                        assert(assoc_get(self.registry(), cpk@) == Option::Some(
                            reg_tree_at(reg_pre, cpk@),
                        ));
                    }
                },
                Option::None => {
                    let cpk2 = copy_bytes(&cpk);
                    self.add_subtree(cpk2, LeafTree::new());
                    proof {
                        lemma_assoc_none_pointwise(rega, cpk@);
                        lemma_assoc_push(rega, cpk@, Seq::<(Seq<u8>, Seq<u8>)>::empty());
                        assert(unique_keys(Seq::<(Seq<u8>, Seq<u8>)>::empty()));
                        assert(self.wf0());
                        assert(forall|j: int| 0 <= j <= vp.len() ==> vp.take(j) =~= vp.take(j));
                        assert(chain_present(self.registry(), vp));
                        assert(forall|p: Seq<u8>|
                            p != cpk@ ==> #[trigger] assoc_get(self.registry(), p) == assoc_get(
                                reg_pre,
                                p,
                            ));
                        assert(assoc_get(self.registry(), cpk@) == Option::Some(
                            reg_tree_at(reg_pre, cpk@),
                        ));
                    }
                },
            }
            let ci = match self.find_subtree(&cpk) {
                Option::Some(ci) => ci,
                Option::None => {
                    proof {
                        assert(false);
                    }
                    return Result::Err(Error::InvalidPath("no subtree found under that path"));
                },
            };
            let child_root = self.subtrees[ci].1.root_hash();
            proof {
                assert(self.registry()[ci as int].1 == self.subtrees@[ci as int].1@);
                assert(child_root@ == spec_root_hash(reg_tree_at(self.registry(), cpk@)));
            }
            let ghost crv = child_root@;
            value = Element::Tree(child_root);
            proof {
                assert(value@ == ElementView::Tree(crv));
                assert(crate::subtree::wf_element(value@));
            }
        } else {
            value = element;
            proof {
                crate::subtree::lemma_element_view_wf(&value);
            }
        }
        let bytes = value.encode();
        let pi = match self.find_subtree(&cp) {
            Option::Some(pi) => pi,
            Option::None => {
                proof {
                    assert(false);
                }
                return Result::Err(Error::InvalidPath("no subtree found under that path"));
            },
        };
        let ghost regb = self.registry();
        let ghost parent_es = regb[pi as int].1;
        self.apply_to_subtree(pi, &key, &bytes);
        let ghost regc = self.registry();
        proof {
            lemma_assoc_update(regb, pi as int, spec_apply(parent_es, key@, bytes@));
            crate::leaftree::lemma_apply_semantics(parent_es, key@, bytes@);
            assert(self.wf0());
            assert(chain_present(regc, vp));
        }
        self.propagate_changes(path);
        proof {
            let regf = final(self).registry();
            let cpk_g = spec_compress_path(vp, Option::Some(key@));
            // Frame: every binding off the written tree, the propagation
            // chain and (for a subtree marker) the new child is unchanged.
            assert forall|p: Seq<u8>|
                ((forall|j: int|
                    1 <= j <= n ==> p != spec_compress_path(
                        vp.take(j),
                        Option::None,
                    )) && (elemv is Tree ==> p != cpk_g)) implies #[trigger] assoc_get(regf, p)
                == assoc_get(old(self).registry(), p) by {
                assert(p != cp@);
                assert(assoc_get(regf, p) == assoc_get(regc, p));
                assert(assoc_get(regc, p) == assoc_get(regb, p));
                if is_tree {
                    assert(assoc_get(regb, p) == assoc_get(reg_pre, p));
                } else {
                    assert(regb == reg_pre);
                }
            }
            assert(spec_insert_frame(old(self).registry(), regf, vp, key@, elemv));
            let g = if is_tree {
                proper_path(ppk)
            } else {
                proper_path(vp)
            };
            if g {
                if is_tree {
                    assert(proper_path(vp)) by {
                        assert(forall|j: int| 1 <= j < vp.len() ==> ppk[j] == vp[j]);
                    }
                }
                // The parent entry written above survives propagation: every
                // prefix the propagation touches is strictly shorter.
                assert forall|m: int| 1 <= m < n implies cp@ != spec_compress_path(
                    vp.take(m),
                    Option::None,
                ) by {
                    lemma_compress_extend(vp, m, n as int);
                }
                assert(assoc_get(regf, cp@) == assoc_get(regc, cp@));
                assert(assoc_get(regc, cp@) == Option::Some(
                    spec_apply(parent_es, key@, bytes@),
                ));
                assert(spec_get(spec_apply(parent_es, key@, bytes@), key@) == Option::Some(
                    bytes@,
                ));
                if is_tree {
                    let cpk_s = spec_compress_path(vp, Option::Some(key@));
                    assert(cpk_s == spec_compress_path(ppk.take(n + 1), Option::None)) by {
                        assert(ppk.take(n + 1) =~= ppk);
                        assert(vp.flatten() + key@ =~= ppk.flatten()) by {
                            vp.lemma_flatten_push(key@);
                        };
                    }
                    // The nested tree itself is untouched by propagation.
                    assert forall|m: int| 1 <= m < n implies cpk_s != spec_compress_path(
                        vp.take(m),
                        Option::None,
                    ) by {
                        lemma_compress_extend(ppk, m, n + 1);
                        assert(ppk.take(m) =~= vp.take(m));
                    }
                    assert(assoc_get(regf, cpk_s) == assoc_get(regc, cpk_s));
                    assert(key@.len() > 0);
                    lemma_compress_extend(ppk, n as int, n + 1);
                    assert(ppk.take(n as int) =~= vp);
                    assert(cpk_s != cp@);
                    crate::subtree::lemma_element_codec_round_trip(value@);
                    assert forall|j: int| 1 <= j <= n implies link_ok(regf, ppk, j) by {
                        assert(forall|m: int| 0 <= m <= n ==> ppk.take(m) =~= vp.take(m));
                        if j < n {
                            assert(link_ok(regf, vp, j));
                            assert(ppk[j] == vp[j]);
                        } else {
                            assert(link_ok(regf, ppk, n as int));
                        }
                    }
                } else {
                    crate::subtree::lemma_element_codec_round_trip(value@);
                }
                // Content: the written tree is its old self with exactly the
                // one binding rewritten; the nested tree keeps its prior
                // entries; other chain trees change only at their propagated
                // key.
                assert(reg_tree_at(regb, cp@) == parent_es);
                if is_tree {
                    assert(cpk_g != cp@);
                    assert(assoc_get(regb, cp@) == assoc_get(reg_pre, cp@));
                    assert(assoc_get(regc, cpk_g) == assoc_get(regb, cpk_g));
                    assert(assoc_get(regf, cpk_g) == assoc_get(regb, cpk_g));
                    assert(assoc_get(regf, cpk_g) == Option::Some(reg_tree_at(reg_pre, cpk_g)));
                    assert(reg_tree_at(regf, cpk_g) == reg_tree_at(regb, cpk_g));
                    assert(value@ == ElementView::Tree(
                        spec_root_hash(reg_tree_at(regf, cpk_g)),
                    ));
                } else {
                    assert(regb == reg_pre);
                    assert(value@ == elemv);
                }
                assert(reg_tree_at(regb, cp@) == reg_tree_at(reg_pre, cp@));
                assert(assoc_get(regf, cp@) == Option::Some(
                    spec_apply(
                        reg_tree_at(old(self).registry(), cp@),
                        key@,
                        spec_encode_element(
                            if elemv is Tree {
                                ElementView::Tree(spec_root_hash(reg_tree_at(regf, cpk_g)))
                            } else {
                                elemv
                            },
                        ),
                    ),
                ));
                assert forall|j: int, k2: Seq<u8>| 1 <= j < n && k2 != vp[j] implies #[trigger]
                    spec_get(
                    reg_tree_at(regf, spec_compress_path(vp.take(j), Option::None)),
                    k2,
                ) == spec_get(
                    reg_tree_at(
                        old(self).registry(),
                        spec_compress_path(vp.take(j), Option::None),
                    ),
                    k2,
                ) by {
                    let cpj = spec_compress_path(vp.take(j), Option::None);
                    assert(spec_get(reg_tree_at(regf, cpj), k2) == spec_get(
                        reg_tree_at(regc, cpj),
                        k2,
                    ));
                    assert(cpj != cp@);
                    assert(assoc_get(regc, cpj) == assoc_get(regb, cpj));
                    if is_tree {
                        lemma_compress_extend(ppk, j, n + 1);
                        assert(ppk.take(j) =~= vp.take(j));
                        assert(cpj != cpk_g);
                        assert(assoc_get(regb, cpj) == assoc_get(reg_pre, cpj));
                    } else {
                        assert(regb == reg_pre);
                    }
                }
                assert(spec_insert_content(old(self).registry(), regf, vp, key@, elemv));
            }
        }
        Result::Ok(())
    }

    /// Inserts unless `get` already finds an element under `path` and `key`;
    /// reports whether an insertion took place. Errors from the insertion
    /// propagate.
    pub fn insert_if_not_exists(&mut self, path: &Vec<Vec<u8>>, key: Vec<u8>, element: Element)
        -> (r: Result<bool, Error>)
        requires
            old(self).wf(),
        ensures
            final(self).wf(),
            (r matches Result::Ok(false)) <==> old(self).spec_get_ok(views_of(path@), key@),
            (r matches Result::Ok(true)) <==> (!old(self).spec_get_ok(views_of(path@), key@)
                && old(self).spec_insert_ok(views_of(path@), element@)),
            r matches Result::Ok(false) ==> final(self).registry() == old(self).registry()
                && final(self).positions() == old(self).positions() && final(self).top_leaves()
                == old(self).top_leaves(),
            r matches Result::Err(e) ==> e is InvalidPath && final(self).registry() == old(
                self,
            ).registry() && final(self).positions() == old(self).positions(),
            r matches Result::Ok(true) ==> spec_insert_frame(
                old(self).registry(),
                final(self).registry(),
                views_of(path@),
                key@,
                element@,
            ),
            r matches Result::Ok(true) && !(element@ is Tree) && proper_path(views_of(path@))
                ==> spec_insert_content(
                old(self).registry(),
                final(self).registry(),
                views_of(path@),
                key@,
                element@,
            ) && (forall|j: int|
                1 <= j < path@.len() ==> link_ok(final(self).registry(), views_of(path@), j)),
            r matches Result::Ok(true) && element@ is Tree && path@.len() > 0 && proper_path(
                views_of(path@).push(key@),
            ) ==> spec_insert_content(
                old(self).registry(),
                final(self).registry(),
                views_of(path@),
                key@,
                element@,
            ) && (forall|j: int|
                1 <= j <= path@.len() ==> link_ok(
                    final(self).registry(),
                    views_of(path@).push(key@),
                    j,
                )),
            r matches Result::Ok(true) && element@ is Tree && path@.len() == 0 ==> ({
                &&& assoc_get(final(self).registry(), key@) is Some
                &&& (if old(self).positions().contains(key@) {
                    final(self).positions() == old(self).positions()
                } else {
                    final(self).positions() == old(self).positions().push(key@)
                })
            }),
            r matches Result::Ok(true) && !(element@ is Tree) ==> final(self).positions() == old(
                self,
            ).positions(),
    {
        match self.get(path, &key) {
            Result::Ok(_) => Result::Ok(false),
            Result::Err(_) => match self.insert(path, key, element) {
                Result::Ok(_) => Result::Ok(true),
                Result::Err(e) => Result::Err(e),
            },
        }
    }

    /// Serializes the two meta artifacts that persist the store's topology:
    /// the registered subtree prefixes and the root-leaf position map. The
    /// embedding writes them to stable storage after topology changes.
    pub fn store_subtrees_keys_data(&self) -> (r: Result<(Vec<u8>, Vec<u8>), Error>)
        ensures
            r is Ok,
            match r {
                Result::Ok(blobs) => blobs.0@ == bincode_prefixes(reg_keys(self.registry()))
                    && bincode_parse_prefixes(blobs.0@) == Option::Some(reg_keys(self.registry()))
                    && blobs.1@ == bincode_index(index_pairs(self.positions()))
                    && bincode_parse_index(blobs.1@) == Option::Some(
                    index_pairs(self.positions()),
                ),
                Result::Err(e) => e is CorruptedData,
            },
    {
        let mut prefixes: Vec<Vec<u8>> = Vec::new();
        let mut i: usize = 0;
        while i < self.subtrees.len()
            invariant
                i <= self.subtrees@.len(),
                self.registry().len() == self.subtrees@.len(),
                views_of(prefixes@) =~= reg_keys(self.registry()).take(i as int),
            decreases self.subtrees@.len() - i,
        {
            prefixes.push(copy_bytes(&self.subtrees[i].0));
            proof {
                assert(reg_keys(self.registry()).take(i + 1) =~= reg_keys(
                    self.registry(),
                ).take(i as int).push(self.registry()[i as int].0));
                assert(views_of(prefixes@) =~= reg_keys(self.registry()).take(i + 1));
            }
            i = i + 1;
        }
        proof {
            assert(views_of(prefixes@) =~= reg_keys(self.registry()));
        }
        let mut pairs: Vec<(Vec<u8>, u64)> = Vec::new();
        let mut j: usize = 0;
        while j < self.root_leaf_keys.len()
            invariant
                j <= self.root_leaf_keys@.len(),
                self.positions().len() == self.root_leaf_keys@.len(),
                pair_views(pairs@) =~= index_pairs(self.positions()).take(j as int),
            decreases self.root_leaf_keys@.len() - j,
        {
            pairs.push((copy_bytes(&self.root_leaf_keys[j]), j as u64));
            proof {
                assert(index_pairs(self.positions()).take(j + 1) =~= index_pairs(
                    self.positions(),
                ).take(j as int).push((self.positions()[j as int], j as u64)));
                assert(pair_views(pairs@) =~= index_pairs(self.positions()).take(j + 1));
            }
            j = j + 1;
        }
        proof {
            assert(pair_views(pairs@) =~= index_pairs(self.positions()));
        }
        match serialize_prefixes(&prefixes) {
            Option::None => Result::Err(Error::CorruptedData("unable to serialize prefixes")),
            Option::Some(a) => match serialize_index(&pairs) {
                Option::None => Result::Err(
                    Error::CorruptedData("unable to serialize root leafs"),
                ),
                Option::Some(b) => Result::Ok((a, b)),
            },
        }
    }

    /// Copies out every registered subtree with its entries, as the backing
    /// page store holds them.
    pub fn dump_subtrees(&self) -> (r: Vec<(Vec<u8>, Vec<(Vec<u8>, Vec<u8>)>)>)
        ensures
            stored_views(r@) == self.registry(),
    {
        let mut r: Vec<(Vec<u8>, Vec<(Vec<u8>, Vec<u8>)>)> = Vec::new();
        let mut i: usize = 0;
        while i < self.subtrees.len()
            invariant
                i <= self.subtrees@.len(),
                self.registry().len() == self.subtrees@.len(),
                stored_views(r@) =~= self.registry().take(i as int),
            decreases self.subtrees@.len() - i,
        {
            let prefix = copy_bytes(&self.subtrees[i].0);
            let entries = self.subtrees[i].1.entries_vec();
            r.push((prefix, entries));
            proof {
                assert(self.registry().take(i + 1) =~= self.registry().take(i as int).push(
                    self.registry()[i as int],
                ));
                assert(stored_views(r@) =~= self.registry().take(i + 1));
            }
            i = i + 1;
        }
        proof {
            assert(stored_views(r@) =~= self.registry());
        }
        r
    }

    /// Restores a store from its persisted topology: the two meta blobs (as
    /// written by `store_subtrees_keys_data`, either possibly absent on a
    /// fresh store) and the persisted contents of each subtree prefix. Any
    /// artifact that does not decode or is inconsistent is corrupted data.
    pub fn open(
        subtrees_blob: Option<&Vec<u8>>,
        root_leafs_blob: Option<&Vec<u8>>,
        stored: &Vec<(Vec<u8>, Vec<(Vec<u8>, Vec<u8>)>)>,
    ) -> (r: Result<GroveDb, Error>)
        ensures
            r is Ok <==> spec_open_ok(
                opt_view(subtrees_blob),
                opt_view(root_leafs_blob),
                stored_views(stored@),
            ),
            match r {
                Result::Ok(db) => {
                    &&& db.wf()
                    &&& (subtrees_blob is None ==> db.registry().len() == 0)
                    &&& (match subtrees_blob {
                        Option::Some(b) => bincode_parse_prefixes(b@) matches Option::Some(keys)
                            && (forall|i: int|
                            0 <= i < keys.len() ==> assoc_get(db.registry(), #[trigger] keys[i])
                                == Option::Some(reg_tree_at(stored_views(stored@), keys[i]))),
                        Option::None => true,
                    })
                    &&& (forall|t: int|
                        0 <= t < db.registry().len() ==> spec_parsed_prefixes(
                            opt_view(subtrees_blob),
                        ).contains((#[trigger] db.registry()[t]).0))
                    &&& (root_leafs_blob is None ==> db.positions().len() == 0)
                    &&& (match root_leafs_blob {
                        Option::Some(b) => bincode_parse_index(b@) matches Option::Some(pairs)
                            && db.positions().len() == pairs.len() && (forall|pos: int|
                            0 <= pos < pairs.len() ==> #[trigger] position_from_pairs(
                                db.positions(),
                                pairs,
                                pos,
                            )),
                        Option::None => true,
                    })
                },
                Result::Err(e) => e is CorruptedData,
            },
    {
        let mut db = GroveDb {
            root_tree_leaves: Vec::new(),
            root_leaf_keys: Vec::new(),
            subtrees: Vec::new(),
        };
        proof {
            assert(db.registry() =~= Seq::<(Seq<u8>, Seq<(Seq<u8>, Seq<u8>)>)>::empty());
            assert(db.positions() =~= Seq::<Seq<u8>>::empty());
        }
        let prefixes: Vec<Vec<u8>> = match subtrees_blob {
            Option::None => Vec::new(),
            Option::Some(b) => match deserialize_prefixes(b) {
                Option::None => {
                    return Result::Err(Error::CorruptedData("unable to deserialize prefixes"));
                },
                Option::Some(v) => v,
            },
        };
        let ghost sbv = opt_view(subtrees_blob);
        let ghost rbv = opt_view(root_leafs_blob);
        let ghost sv = stored_views(stored@);
        proof {
            assert(views_of(prefixes@) =~= spec_parsed_prefixes(sbv));
            assert(views_of(prefixes@).take(0) =~= Seq::<Seq<u8>>::empty());
        }
        let mut i: usize = 0;
        while i < prefixes.len()
            invariant
                i <= prefixes@.len(),
                db.wf0(),
                db.positions().len() == 0,
                db.registry().len() <= i,
                subtrees_blob is None ==> prefixes@.len() == 0,
                sbv == opt_view(subtrees_blob),
                sv == stored_views(stored@),
                views_of(prefixes@) == spec_parsed_prefixes(sbv),
                subtrees_blob matches Option::Some(b) ==> bincode_parse_prefixes(b@) is Some,
                forall|m: int|
                    0 <= m < i ==> assoc_get(
                        db.registry(),
                        #[trigger] views_of(prefixes@)[m],
                    ) == Option::Some(reg_tree_at(stored_views(stored@), views_of(prefixes@)[m])),
                forall|p: Seq<u8>|
                    assoc_get(db.registry(), p) is Some ==> #[trigger] assoc_get(db.registry(), p)
                        == Option::Some(reg_tree_at(stored_views(stored@), p)),
                forall|p: Seq<u8>|
                    (#[trigger] assoc_get(db.registry(), p)) is Some <==> views_of(
                        prefixes@,
                    ).take(i as int).contains(p),
                forall|m: int|
                    0 <= m < i ==> unique_keys(
                        reg_tree_at(stored_views(stored@), #[trigger] views_of(prefixes@)[m]),
                    ),
            decreases prefixes@.len() - i,
        {
            let ghost regi = db.registry();
            let ghost keyi = prefixes@[i as int]@;
            match db.find_subtree(&prefixes[i]) {
                Option::Some(ti) => {
                    proof {
                        assert(assoc_get(regi, keyi) == Option::Some(
                            reg_tree_at(stored_views(stored@), keyi),
                        ));
                        crate::util::lemma_assoc_first_entry(regi, keyi);
                        assert(unique_keys(reg_tree_at(stored_views(stored@), keyi)));
                    }
                },
                Option::None => {
                    let entries: Vec<(Vec<u8>, Vec<u8>)> = match find_stored(
                        stored,
                        &prefixes[i],
                    ) {
                        Option::Some(s) => copy_entries(&stored[s].1),
                        Option::None => Vec::new(),
                    };
                    proof {
                        assert(entry_views(entries@) =~= reg_tree_at(
                            stored_views(stored@),
                            prefixes@[i as int]@,
                        ));
                    }
                    let lt = LeafTree::from_entries(entries);
                    if !lt.has_unique_keys() {
                        proof {
                            assert(!unique_keys(reg_tree_at(sv, spec_parsed_prefixes(sbv)[i as int])));
                            assert(!spec_open_ok(sbv, rbv, sv));
                        }
                        return Result::Err(Error::CorruptedData("corrupted subtree data"));
                    }
                    let p = copy_bytes(&prefixes[i]);
                    db.add_subtree(p, lt);
                    proof {
                        lemma_assoc_none_pointwise(regi, prefixes@[i as int]@);
                        lemma_assoc_push(regi, prefixes@[i as int]@, entry_views(entries@));
                        assert(db.wf0());
                    }
                },
            }
            proof {
                assert(views_of(prefixes@).take(i + 1) =~= views_of(prefixes@).take(
                    i as int,
                ).push(keyi));
                assert forall|p: Seq<u8>| (#[trigger] assoc_get(db.registry(), p)) is Some
                    <==> views_of(prefixes@).take(i + 1).contains(p) by {
                    crate::util::lemma_contains_push(
                        views_of(prefixes@).take(i as int),
                        keyi,
                        p,
                    );
                    if p == keyi {
                        assert(assoc_get(db.registry(), p) is Some);
                    }
                }
            }
            i = i + 1;
        }
        proof {
            assert(views_of(prefixes@).take(prefixes@.len() as int) =~= views_of(prefixes@));
        }
        let pairs: Vec<(Vec<u8>, u64)> = match root_leafs_blob {
            Option::None => Vec::new(),
            Option::Some(b) => match deserialize_index(b) {
                Option::None => {
                    proof {
                        assert(!spec_open_ok(sbv, rbv, sv));
                    }
                    return Result::Err(Error::CorruptedData("unable to deserialize root leafs"));
                },
                Option::Some(v) => v,
            },
        };
        proof {
            assert(pair_views(pairs@) =~= spec_parsed_pairs(rbv));
        }
        let n = pairs.len();
        let ghost reg_done = db.registry();
        let mut pos: usize = 0;
        while pos < n
            invariant
                pos <= n,
                n == pairs@.len(),
                root_leafs_blob is None ==> n == 0,
                db.registry() == reg_done,
                assoc_unique(db.registry()),
                forall|i: int|
                    0 <= i < db.registry().len() ==> unique_keys(
                        (#[trigger] db.registry()[i]).1,
                    ),
                db.positions().len() == pos,
                sbv == opt_view(subtrees_blob),
                rbv == opt_view(root_leafs_blob),
                sv == stored_views(stored@),
                views_of(prefixes@) == spec_parsed_prefixes(sbv),
                pair_views(pairs@) == spec_parsed_pairs(rbv),
                subtrees_blob matches Option::Some(b) ==> bincode_parse_prefixes(b@) is Some,
                root_leafs_blob matches Option::Some(b) ==> bincode_parse_index(b@) is Some,
                forall|p: Seq<u8>|
                    (#[trigger] assoc_get(db.registry(), p)) is Some <==> views_of(
                        prefixes@,
                    ).contains(p),
                forall|m: int|
                    0 <= m < views_of(prefixes@).len() ==> unique_keys(
                        reg_tree_at(stored_views(stored@), #[trigger] views_of(prefixes@)[m]),
                    ),
                forall|m: int|
                    0 <= m < pos ==> #[trigger] first_pos_path(pair_views(pairs@), m)
                        == Option::Some(db.positions()[m]),
                forall|m: int|
                    0 <= m < pos ==> #[trigger] position_from_pairs(
                        db.positions(),
                        pair_views(pairs@),
                        m,
                    ),
                forall|m: int|
                    0 <= m < pos ==> assoc_get(
                        db.registry(),
                        #[trigger] db.positions()[m],
                    ) is Some,
            decreases n - pos,
        {
            let t = match find_pair(&pairs, pos as u64) {
                Option::None => {
                    proof {
                        lemma_first_pos_not_found(pair_views(pairs@), pos as int);
                        assert(!spec_open_ok(sbv, rbv, sv));
                    }
                    return Result::Err(Error::CorruptedData("missing root leaf position"));
                },
                Option::Some(t) => t,
            };
            proof {
                lemma_first_pos_found(pair_views(pairs@), pos as int, t as int);
            }
            match db.find_subtree(&pairs[t].0) {
                Option::None => {
                    proof {
                        assert(!views_of(prefixes@).contains(pair_views(pairs@)[t as int].0));
                        assert(!spec_open_ok(sbv, rbv, sv));
                    }
                    return Result::Err(Error::CorruptedData("unknown root leaf prefix"));
                },
                Option::Some(_) => {},
            }
            let ghost pos0 = db.positions();
            db.root_leaf_keys.push(copy_bytes(&pairs[t].0));
            proof {
                assert(db.positions() =~= pos0.push(pairs@[t as int].0@));
                assert(pair_views(pairs@)[t as int].1 == pos);
                assert(pair_views(pairs@)[t as int].0 == db.positions()[pos as int]);
                assert forall|m: int| 0 <= m < pos + 1 implies #[trigger] position_from_pairs(
                    db.positions(),
                    pair_views(pairs@),
                    m,
                ) by {
                    if m < pos {
                        assert(position_from_pairs(pos0, pair_views(pairs@), m));
                        let w = choose|w: int|
                            0 <= w < pair_views(pairs@).len() && (#[trigger] pair_views(
                                pairs@,
                            )[w]).1 == m && pos0[m] == pair_views(pairs@)[w].0;
                        assert(db.positions()[m] == pos0[m]);
                        assert((pair_views(pairs@)[w]).1 == m && db.positions()[m] == pair_views(
                            pairs@,
                        )[w].0);
                    } else {
                        assert((pair_views(pairs@)[t as int]).1 == m && db.positions()[m]
                            == pair_views(pairs@)[t as int].0);
                    }
                }
                assert forall|m: int| 0 <= m < pos + 1 implies #[trigger] first_pos_path(
                    pair_views(pairs@),
                    m,
                ) == Option::Some(db.positions()[m]) by {
                    if m < pos {
                        assert(db.positions()[m] == pos0[m]);
                    }
                }
            }
            pos = pos + 1;
        }
        if !distinct_bytes(&db.root_leaf_keys) {
            proof {
                let w = choose|w1: int, w2: int|
                    0 <= w1 < w2 < db.root_leaf_keys@.len() && views_of(db.root_leaf_keys@)[w1]
                        == views_of(db.root_leaf_keys@)[w2];
                assert(first_pos_path(pair_views(pairs@), w.0) == first_pos_path(
                    pair_views(pairs@),
                    w.1,
                ));
                assert(!spec_open_ok(sbv, rbv, sv));
            }
            return Result::Err(Error::CorruptedData("duplicate root leaf"));
        }
        proof {
            assert(forall|m: int|
                0 <= m < db.positions().len() ==> #[trigger] db.positions()[m] == views_of(
                    db.root_leaf_keys@,
                )[m]);
            assert(db.wf0());
            // Every accepted artifact satisfies the acceptance condition.
            assert forall|posm: int| 0 <= posm < spec_parsed_pairs(rbv).len() implies (
            #[trigger] first_pos_path(spec_parsed_pairs(rbv), posm) matches Option::Some(pp)
                && spec_parsed_prefixes(sbv).contains(pp)) by {
                assert(first_pos_path(pair_views(pairs@), posm) == Option::Some(
                    db.positions()[posm],
                ));
                assert(assoc_get(db.registry(), db.positions()[posm]) is Some);
            }
            assert(spec_open_ok(sbv, rbv, sv));
            // Only listed prefixes are registered.
            assert forall|t: int| 0 <= t < db.registry().len() implies spec_parsed_prefixes(
                sbv,
            ).contains((#[trigger] db.registry()[t]).0) by {
                lemma_assoc_found(db.registry(), db.registry()[t].0, t);
                assert(assoc_get(db.registry(), db.registry()[t].0) is Some);
            }
        }
        db.build_root_tree();
        Result::Ok(db)
    }

    /// Produces a consistent copy of the store and reopens it, as a
    /// checkpoint does with the backing store's files: the meta artifacts
    /// and the page contents are written out and read back. The reopened
    /// store carries the same topology, entries and root hash.
    pub fn checkpoint(&self) -> (r: Result<GroveDb, Error>)
        requires
            self.wf(),
        ensures
            r is Ok,
            match r {
                Result::Ok(db2) => {
                    &&& db2.wf()
                    &&& db2.positions() == self.positions()
                    &&& (forall|i: int|
                        0 <= i < self.positions().len() ==> db2.tree_at(
                            #[trigger] self.positions()[i],
                        ) == self.tree_at(self.positions()[i]))
                    &&& (forall|p: Seq<u8>|
                        #[trigger] assoc_get(db2.registry(), p) == assoc_get(self.registry(), p))
                    &&& db2.spec_db_root() == self.spec_db_root()
                },
                Result::Err(e) => e is CorruptedData,
            },
    {
        let blobs = match self.store_subtrees_keys_data() {
            Result::Ok(blobs) => blobs,
            Result::Err(_) => {
                proof {
                    assert(false);
                }
                return Result::Err(Error::CorruptedData("unable to serialize prefixes"));
            },
        };
        let stored = self.dump_subtrees();
        proof {
            let sbv = opt_view(Option::Some(&blobs.0));
            let rbv = opt_view(Option::Some(&blobs.1));
            let sv = stored_views(stored@);
            let keys = reg_keys(self.registry());
            let pairs = index_pairs(self.positions());
            assert(spec_parsed_prefixes(sbv) == keys);
            assert(spec_parsed_pairs(rbv) == pairs);
            // The dumped artifacts satisfy the acceptance condition.
            assert forall|i: int| 0 <= i < keys.len() implies unique_keys(
                reg_tree_at(sv, #[trigger] keys[i]),
            ) by {
                lemma_assoc_found(self.registry(), self.registry()[i].0, i);
                lemma_assoc_first_entry(self.registry(), keys[i]);
            }
            assert(self.positions().len() == self.root_leaf_keys.len());
            assert forall|posm: int| 0 <= posm < pairs.len() implies (
            #[trigger] first_pos_path(pairs, posm) matches Option::Some(pp) && keys.contains(
                pp,
            )) by {
                assert(pairs[posm] == (self.positions()[posm], posm as u64));
                assert(forall|u: int| 0 <= u < posm ==> (#[trigger] pairs[u]).1 != posm);
                lemma_first_pos_found(pairs, posm, posm);
                lemma_assoc_some_index(self.registry(), self.positions()[posm]);
                let j = choose|j: int|
                    0 <= j < self.registry().len() && (#[trigger] self.registry()[j]).0
                        == self.positions()[posm];
                assert(keys[j] == self.positions()[posm]);
                assert(keys.contains(self.positions()[posm]));
            }
            assert forall|p1: int, p2: int| 0 <= p1 < p2 < pairs.len() implies first_pos_path(
                pairs,
                p1,
            ) != first_pos_path(pairs, p2) by {
                assert(pairs[p1] == (self.positions()[p1], p1 as u64));
                assert(pairs[p2] == (self.positions()[p2], p2 as u64));
                assert(forall|u: int| 0 <= u < p1 ==> (#[trigger] pairs[u]).1 != p1);
                assert(forall|u: int| 0 <= u < p2 ==> (#[trigger] pairs[u]).1 != p2);
                lemma_first_pos_found(pairs, p1, p1);
                lemma_first_pos_found(pairs, p2, p2);
                assert(self.positions()[p1] != self.positions()[p2]);
            }
            assert(spec_open_ok(sbv, rbv, sv));
        }
        let r = GroveDb::open(Option::Some(&blobs.0), Option::Some(&blobs.1), &stored);
        match r {
            Result::Ok(db2) => {
                proof {
                    let keys = reg_keys(self.registry());
                    let pairs = index_pairs(self.positions());
                    assert(db2.positions().len() == self.positions().len());
                    assert forall|m: int| 0 <= m < self.positions().len() implies db2.positions()[m]
                        == self.positions()[m] by {
                        assert(position_from_pairs(db2.positions(), pairs, m));
                        let t = choose|t: int|
                            0 <= t < pairs.len() && (#[trigger] pairs[t]).1 == m
                                && db2.positions()[m] == pairs[t].0;
                        assert(self.positions().len() == self.root_leaf_keys.len());
                        assert(pairs[t] == (self.positions()[t], t as u64));
                        assert(t <= u64::MAX);
                        assert(t == m);
                        assert(db2.positions()[m] == self.positions()[m]);
                    }
                    assert(db2.positions() =~= self.positions());
                    assert forall|i: int| 0 <= i < self.positions().len() implies db2.tree_at(
                        #[trigger] self.positions()[i],
                    ) == self.tree_at(self.positions()[i]) by {
                        let p = self.positions()[i];
                        lemma_assoc_some_index(self.registry(), p);
                        let j = choose|j: int|
                            0 <= j < self.registry().len() && (#[trigger] self.registry()[j]).0
                                == p;
                        assert(keys[j] == p);
                        assert(assoc_get(db2.registry(), p) == Option::Some(
                            reg_tree_at(stored_views(stored@), p),
                        ));
                    }
                    // Full registry preservation, nested subtrees included.
                    assert forall|p: Seq<u8>| #[trigger] assoc_get(db2.registry(), p)
                        == assoc_get(self.registry(), p) by {
                        if assoc_get(self.registry(), p) is Some {
                            lemma_assoc_some_index(self.registry(), p);
                            let j = choose|j: int|
                                0 <= j < self.registry().len() && (
                                #[trigger] self.registry()[j]).0 == p;
                            assert(keys[j] == p);
                            assert(assoc_get(db2.registry(), p) == Option::Some(
                                reg_tree_at(stored_views(stored@), p),
                            ));
                            assert(stored_views(stored@) == self.registry());
                        } else {
                            if assoc_get(db2.registry(), p) is Some {
                                lemma_assoc_some_index(db2.registry(), p);
                                let j2 = choose|j2: int|
                                    0 <= j2 < db2.registry().len() && (
                                    #[trigger] db2.registry()[j2]).0 == p;
                                assert(spec_parsed_prefixes(
                                    opt_view(Option::Some(&blobs.0)),
                                ).contains(p));
                                let j3 = choose|j3: int|
                                    0 <= j3 < keys.len() && keys[j3] == p;
                                assert(self.registry()[j3].0 == p);
                                lemma_assoc_found(self.registry(), p, j3);
                                assert(false);
                            }
                        }
                    }
                    lemma_root_determined(&db2, self);
                }
                Result::Ok(db2)
            },
            Result::Err(_) => {
                proof {
                    assert(false);
                }
                Result::Err(Error::CorruptedData("unable to deserialize prefixes"))
            },
        }
    }

    /// Recomputes the database root hash from the cached top-tree leaves.
    /// Deterministic; defined (all zeros) for an empty store.
    pub fn root_hash(&self) -> (r: Vec<u8>)
        requires
            self.wf(),
        ensures
            r@ == self.spec_db_root(),
            r@.len() == 32,
    {
        proof {
            assert(forall|i: int|
                0 <= i < self.root_tree_leaves@.len() ==> (
                #[trigger] self.root_tree_leaves@[i])@ == self.top_leaves()[i]);
        }
        match merkle_root_of(&self.root_tree_leaves) {
            Option::Some(h) => h,
            Option::None => crate::leaftree::zero_hash_vec(),
        }
    }
}

/// Whether every enclosing subtree along `path` is registered, the deepest
/// one included.
pub open spec fn chain_present(
    reg: Seq<(Seq<u8>, Seq<(Seq<u8>, Seq<u8>)>)>,
    path: Seq<Seq<u8>>,
) -> bool {
    forall|j: int|
        1 <= j <= path.len() ==> assoc_get(
            reg,
            #[trigger] spec_compress_path(path.take(j), Option::None),
        ) is Some
}

/// The upward link at level `j` of `path` is consistent: the tree at the
/// first `j` segments stores, under the segment that follows, a tree marker
/// carrying the current root hash of the tree at the first `j + 1` segments.
pub open spec fn link_ok(
    reg: Seq<(Seq<u8>, Seq<(Seq<u8>, Seq<u8>)>)>,
    path: Seq<Seq<u8>>,
    j: int,
) -> bool {
    match spec_get(reg_tree_at(reg, spec_compress_path(path.take(j), Option::None)), path[j]) {
        Option::Some(v) => spec_decode_element(v) == Option::Some(
            ElementView::Tree(
                spec_root_hash(
                    reg_tree_at(reg, spec_compress_path(path.take(j + 1), Option::None)),
                ),
            ),
        ),
        Option::None => false,
    }
}

/// What any successful insertion leaves untouched: every compressed prefix
/// other than the written tree, the propagation chain, and (for a subtree
/// marker) the newly opened child keeps its registry binding; a root-level
/// subtree insertion binds the key to its prior tree (empty when fresh) and
/// nothing else.
pub open spec fn spec_insert_frame(
    pre: Seq<(Seq<u8>, Seq<(Seq<u8>, Seq<u8>)>)>,
    post: Seq<(Seq<u8>, Seq<(Seq<u8>, Seq<u8>)>)>,
    path: Seq<Seq<u8>>,
    key: Seq<u8>,
    elem: ElementView,
) -> bool {
    if path.len() == 0 {
        &&& (forall|p: Seq<u8>| p != key ==> #[trigger] assoc_get(post, p) == assoc_get(pre, p))
        &&& assoc_get(post, key) == Option::Some(reg_tree_at(pre, key))
    } else {
        forall|p: Seq<u8>|
            (forall|j: int|
                1 <= j <= path.len() ==> p != spec_compress_path(path.take(j), Option::None)) && (
            elem is Tree ==> p != spec_compress_path(path, Option::Some(key))) ==> #[trigger]
                assoc_get(post, p) == assoc_get(pre, p)
    }
}

/// What a successful insertion stores, for a collision-free path: the
/// written tree is its old self with exactly the one binding rewritten (a
/// subtree marker carrying the nested tree's current root hash), the nested
/// tree itself keeps its prior entries, and every other tree on the
/// propagation chain changes only at its propagated key.
pub open spec fn spec_insert_content(
    pre: Seq<(Seq<u8>, Seq<(Seq<u8>, Seq<u8>)>)>,
    post: Seq<(Seq<u8>, Seq<(Seq<u8>, Seq<u8>)>)>,
    path: Seq<Seq<u8>>,
    key: Seq<u8>,
    elem: ElementView,
) -> bool {
    let cp = spec_compress_path(path, Option::None);
    let cpk = spec_compress_path(path, Option::Some(key));
    let stored = if elem is Tree {
        ElementView::Tree(spec_root_hash(reg_tree_at(post, cpk)))
    } else {
        elem
    };
    &&& assoc_get(post, cp) == Option::Some(
        spec_apply(reg_tree_at(pre, cp), key, spec_encode_element(stored)),
    )
    &&& (elem is Tree ==> assoc_get(post, cpk) == Option::Some(reg_tree_at(pre, cpk)))
    &&& (forall|j: int, k2: Seq<u8>|
        1 <= j < path.len() && k2 != path[j] ==> #[trigger] spec_get(
            reg_tree_at(post, spec_compress_path(path.take(j), Option::None)),
            k2,
        ) == spec_get(reg_tree_at(pre, spec_compress_path(path.take(j), Option::None)), k2))
}

/// Segments after the first are nonempty, which keeps the compressed
/// prefixes along the path pairwise distinct.
pub open spec fn proper_path(path: Seq<Seq<u8>>) -> bool {
    forall|j: int| 1 <= j < path.len() ==> (#[trigger] path[j]).len() > 0
}

/// A longer prefix of a path compresses to strictly more bytes when one of
/// the added segments is nonempty.
pub proof fn lemma_compress_extend(path: Seq<Seq<u8>>, m: int, j: int)
    requires
        0 <= m < j <= path.len(),
        path[m].len() > 0,
    ensures
        spec_compress_path(path.take(j), Option::None).len() > spec_compress_path(
            path.take(m),
            Option::None,
        ).len(),
{
    let a = path.take(m);
    let b = path.subrange(m, j);
    assert(path.take(j) =~= a + b);
    vstd::seq_lib::lemma_flatten_concat(a, b);
    assert(b[0] == path[m]);
    assert(b.flatten() == b.first().add(b.drop_first().flatten()));
    assert(b.flatten().len() >= path[m].len());
    assert(spec_compress_path(path.take(j), Option::None) =~= path.take(j).flatten());
    assert(spec_compress_path(a, Option::None) =~= a.flatten());
}

/// Entries of a registered subtree are well formed: they are held in real
/// vectors, so every length fits in a u64.
pub proof fn lemma_subtree_entries_wf(db: &GroveDb, t: int)
    requires
        0 <= t < db.registry().len(),
    ensures
        crate::leaftree::wf_entries(db.registry()[t].1),
{
    assert(db.registry()[t].1 == db.subtrees@[t].1@);
    crate::leaftree::lemma_leaftree_entries_wf(&db.subtrees@[t].1);
}

/// Reading back a stored element: when the leaf tree at a path's compressed
/// prefix holds the encoding of a well-formed non-reference element under
/// `key` — as it does right after that element was inserted there — a `get`
/// of that path and key succeeds, and decoding gives the element back.
pub proof fn lemma_stored_element_reads_back(
    db: &GroveDb,
    path: Seq<Seq<u8>>,
    key: Seq<u8>,
    e: ElementView,
)
    requires
        assoc_get(db.registry(), spec_compress_path(path, Option::None)) matches Option::Some(es)
            && spec_get(es, key) == Option::Some(spec_encode_element(e)),
        crate::subtree::wf_element(e),
        !(e is Reference),
    ensures
        db.spec_get_ok(path, key),
        spec_decode_element(spec_encode_element(e)) == Option::Some(e),
{
    crate::subtree::lemma_element_codec_round_trip(e);
}

/// In every well-formed store, the cached top-tree leaves equal a fresh
/// rebuild from the current subtree root hashes: recomputing the root hash
/// by walking the registry gives the cached result back.
pub proof fn lemma_top_cache_is_rebuild(db: &GroveDb)
    requires
        db.wf(),
    ensures
        db.top_leaves().len() == db.positions().len(),
        forall|i: int|
            0 <= i < db.positions().len() ==> #[trigger] db.top_leaves()[i] == spec_root_hash(
                db.tree_at(db.positions()[i]),
            ),
{
}

/// The database root hash is a function of the persisted state alone: two
/// well-formed stores with the same root-leaf index and the same subtree
/// contents per position have the same root hash.
pub proof fn lemma_root_determined(a: &GroveDb, b: &GroveDb)
    requires
        a.wf(),
        b.wf(),
        a.positions() == b.positions(),
        forall|i: int|
            0 <= i < a.positions().len() ==> a.tree_at(#[trigger] a.positions()[i]) == b.tree_at(
                b.positions()[i],
            ),
    ensures
        a.spec_db_root() == b.spec_db_root(),
{
    assert(a.top_leaves() =~= b.top_leaves());
}

/// Finds the first persisted pair carrying the explicit position `pos`.
fn find_pair(pairs: &Vec<(Vec<u8>, u64)>, pos: u64) -> (r: Option<usize>)
    ensures
        match r {
            Option::Some(t) => t < pairs@.len() && pair_views(pairs@)[t as int].1 == pos && (
            forall|u: int| 0 <= u < t ==> (#[trigger] pair_views(pairs@)[u]).1 != pos),
            Option::None => forall|u: int|
                0 <= u < pairs@.len() ==> (#[trigger] pair_views(pairs@)[u]).1 != pos,
        },
{
    let mut t: usize = 0;
    while t < pairs.len()
        invariant
            t <= pairs@.len(),
            forall|u: int| 0 <= u < t ==> (#[trigger] pair_views(pairs@)[u]).1 != pos,
        decreases pairs@.len() - t,
    {
        if pairs[t].1 == pos {
            return Option::Some(t);
        }
        t = t + 1;
    }
    Option::None
}

/// Finds the slot of `key` among the persisted subtree contents.
fn find_stored(stored: &Vec<(Vec<u8>, Vec<(Vec<u8>, Vec<u8>)>)>, key: &Vec<u8>) -> (r: Option<
    usize,
>)
    ensures
        match r {
            Option::Some(i) => i < stored@.len() && stored_views(stored@)[i as int].0 == key@
                && assoc_get(stored_views(stored@), key@) == Option::Some(
                stored_views(stored@)[i as int].1,
            ),
            Option::None => assoc_get(stored_views(stored@), key@) is None,
        },
{
    let mut i: usize = 0;
    while i < stored.len()
        invariant
            i <= stored@.len(),
            stored_views(stored@).len() == stored@.len(),
            forall|j: int| 0 <= j < i ==> (#[trigger] stored_views(stored@)[j]).0 != key@,
        decreases stored@.len() - i,
    {
        if bytes_eq(&stored[i].0, key) {
            proof {
                lemma_assoc_found(stored_views(stored@), key@, i as int);
            }
            return Option::Some(i);
        }
        i = i + 1;
    }
    proof {
        lemma_assoc_not_found(stored_views(stored@), key@);
    }
    Option::None
}

/// The view of an optional byte-vector argument.
pub open spec fn opt_view(o: Option<&Vec<u8>>) -> Option<Seq<u8>> {
    match o {
        Option::Some(b) => Option::Some(b@),
        Option::None => Option::None,
    }
}

/// The prefixes a persisted subtree list parses to (empty when absent or
/// unparsable).
pub open spec fn spec_parsed_prefixes(sb: Option<Seq<u8>>) -> Seq<Seq<u8>> {
    match sb {
        Option::Some(b) => match bincode_parse_prefixes(b) {
            Option::Some(k) => k,
            Option::None => Seq::empty(),
        },
        Option::None => Seq::empty(),
    }
}

/// The pairs a persisted root-leaf index parses to (empty when absent or
/// unparsable).
pub open spec fn spec_parsed_pairs(rb: Option<Seq<u8>>) -> Seq<(Seq<u8>, u64)> {
    match rb {
        Option::Some(b) => match bincode_parse_index(b) {
            Option::Some(i) => i,
            Option::None => Seq::empty(),
        },
        Option::None => Seq::empty(),
    }
}

/// The path some persisted pair assigns to position `pos`; the first such
/// pair wins.
pub open spec fn first_pos_path(pairs: Seq<(Seq<u8>, u64)>, pos: int) -> Option<Seq<u8>>
    decreases pairs.len(),
{
    if pairs.len() == 0 {
        Option::None
    } else if pairs[0].1 == pos {
        Option::Some(pairs[0].0)
    } else {
        first_pos_path(pairs.skip(1), pos)
    }
}

/// A first pair at slot `t` determines the path assigned to `pos`.
proof fn lemma_first_pos_found(pairs: Seq<(Seq<u8>, u64)>, pos: int, t: int)
    requires
        0 <= t < pairs.len(),
        pairs[t].1 == pos,
        forall|u: int| 0 <= u < t ==> (#[trigger] pairs[u]).1 != pos,
    ensures
        first_pos_path(pairs, pos) == Option::Some(pairs[t].0),
    decreases t,
{
    if t > 0 {
        assert(forall|u: int| 0 <= u < pairs.skip(1).len() ==> pairs.skip(1)[u] == pairs[u + 1]);
        lemma_first_pos_found(pairs.skip(1), pos, t - 1);
    }
}

/// No pair carrying `pos` means no path is assigned to it.
proof fn lemma_first_pos_not_found(pairs: Seq<(Seq<u8>, u64)>, pos: int)
    requires
        forall|u: int| 0 <= u < pairs.len() ==> (#[trigger] pairs[u]).1 != pos,
    ensures
        first_pos_path(pairs, pos) is None,
    decreases pairs.len(),
{
    if pairs.len() > 0 {
        assert(forall|u: int| 0 <= u < pairs.skip(1).len() ==> pairs.skip(1)[u] == pairs[u + 1]);
        lemma_first_pos_not_found(pairs.skip(1), pos);
    }
}

/// The persisted artifacts `open` accepts: both blobs parse, each listed
/// subtree's stored entries have unique keys, the index's first pair for
/// each position below its count names a listed prefix, and no two
/// positions share a path.
pub open spec fn spec_open_ok(
    sb: Option<Seq<u8>>,
    rb: Option<Seq<u8>>,
    stored: Seq<(Seq<u8>, Seq<(Seq<u8>, Seq<u8>)>)>,
) -> bool {
    let keys = spec_parsed_prefixes(sb);
    let pairs = spec_parsed_pairs(rb);
    &&& (match sb {
        Option::Some(b) => bincode_parse_prefixes(b) is Some,
        Option::None => true,
    })
    &&& (match rb {
        Option::Some(b) => bincode_parse_index(b) is Some,
        Option::None => true,
    })
    &&& (forall|i: int|
        0 <= i < keys.len() ==> unique_keys(reg_tree_at(stored, #[trigger] keys[i])))
    &&& (forall|pos: int|
        0 <= pos < pairs.len() ==> (#[trigger] first_pos_path(pairs, pos)
            matches Option::Some(pp) && keys.contains(pp)))
    &&& (forall|p1: int, p2: int|
        0 <= p1 < p2 < pairs.len() ==> first_pos_path(pairs, p1) != first_pos_path(pairs, p2))
}

/// Slot `pos` of a rebuilt root-leaf index carries the path of some
/// persisted pair with that explicit position.
pub open spec fn position_from_pairs(
    pos_seq: Seq<Seq<u8>>,
    pairs: Seq<(Seq<u8>, u64)>,
    pos: int,
) -> bool {
    exists|i: int|
        0 <= i < pairs.len() && (#[trigger] pairs[i]).1 == pos && pos_seq[pos] == pairs[i].0
}

/// The registered compressed paths, in registration order.
pub open spec fn reg_keys(reg: Seq<(Seq<u8>, Seq<(Seq<u8>, Seq<u8>)>)>) -> Seq<Seq<u8>> {
    reg.map_values(|p: (Seq<u8>, Seq<(Seq<u8>, Seq<u8>)>)| p.0)
}

/// The persisted form of the root-leaf index: each path with its explicit
/// position.
pub open spec fn index_pairs(pos: Seq<Seq<u8>>) -> Seq<(Seq<u8>, u64)> {
    Seq::new(pos.len(), |i: int| (pos[i], i as u64))
}

/// The views of persisted subtree contents: prefix and entry list pairs.
pub open spec fn stored_views(s: Seq<(Vec<u8>, Vec<(Vec<u8>, Vec<u8>)>)>) -> Seq<
    (Seq<u8>, Seq<(Seq<u8>, Seq<u8>)>),
> {
    s.map_values(|p: (Vec<u8>, Vec<(Vec<u8>, Vec<u8>)>)| (p.0@, entry_views(p.1@)))
}

/// The entries of the tree registered at `prefix` in `reg` (empty when no
/// such tree exists).
pub open spec fn reg_tree_at(
    reg: Seq<(Seq<u8>, Seq<(Seq<u8>, Seq<u8>)>)>,
    prefix: Seq<u8>,
) -> Seq<(Seq<u8>, Seq<u8>)> {
    match assoc_get(reg, prefix) {
        Option::Some(es) => es,
        Option::None => Seq::empty(),
    }
}

} // verus!
