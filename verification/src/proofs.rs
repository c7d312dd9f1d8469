//! Multi-path proof construction and verification: one combined proof object
//! for a batch of queries, verified against the database root hash.
use crate::leaftree::{
    execute_leaf_proof, spec_decode_entries, spec_encode_entries, spec_get, spec_root_hash,
    LeafTree,
};
use crate::merkle::{
    merkle_compute_root, merkle_multiproof, merkle_proof_bytes, merkle_root,
    merkle_root_from_proof,
};
use crate::meta::{bincode_parse_index, deserialize_index, pair_views};
use crate::subtree::{spec_decode_element, Element, ElementView};
use crate::util::{
    assoc_get, assoc_unique, bytes_eq, copy_bytes, lemma_assoc_found, lemma_assoc_none_pointwise,
    lemma_assoc_not_found, lemma_assoc_push, views_of,
};
use crate::{
    chain_present, compress_path, prefix_of, reg_tree_at, spec_compress_path, Error, GroveDb,
};
use vstd::prelude::*;

verus! {

/// A set of requested keys within one subtree.
pub struct Query {
    keys: Vec<Vec<u8>>,
}

impl Query {
    /// The requested keys, in insertion order.
    pub closed spec fn keys_view(&self) -> Seq<Seq<u8>> {
        views_of(self.keys@)
    }

    /// An empty query.
    pub fn new() -> (r: Query)
        ensures
            r.keys_view() =~= Seq::<Seq<u8>>::empty(),
    {
        Query { keys: Vec::new() }
    }

    /// Adds one requested key.
    pub fn insert_key(&mut self, key: Vec<u8>)
        ensures
            final(self).keys_view() == old(self).keys_view().push(key@),
    {
        let ghost orig = self.keys_view();
        self.keys.push(key);
        proof {
            assert(self.keys_view() =~= orig.push(self.keys@.last()@));
        }
    }

    /// The number of requested keys.
    pub fn len(&self) -> (r: usize)
        ensures
            r == self.keys_view().len(),
    {
        self.keys.len()
    }

    /// A copy of the requested key at `i`.
    pub fn key_at(&self, i: usize) -> (r: Vec<u8>)
        requires
            i < self.keys_view().len(),
        ensures
            r@ == self.keys_view()[i as int],
    {
        copy_bytes(&self.keys[i])
    }
}

/// One requested path with the keys to prove within it.
pub struct ProofQuery {
    /// The path of the queried subtree.
    pub path: Vec<Vec<u8>>,
    /// The keys requested within it.
    pub query: Query,
}

/// A combined proof for a batch of queries: the queried paths in caller
/// order, one serialized proof per touched subtree, and a multi-proof for
/// the touched top-tree leaves.
pub struct Proof {
    query_paths: Vec<Vec<Vec<u8>>>,
    proofs: Vec<(Vec<u8>, Vec<u8>)>,
    root_proof: Vec<u8>,
}

impl Proof {
    /// The queried paths, in caller order.
    pub closed spec fn paths_view(&self) -> Seq<Seq<Seq<u8>>> {
        self.query_paths@.map_values(|p: Vec<Vec<u8>>| views_of(p@))
    }

    /// The per-subtree proofs: compressed path and proof bytes pairs.
    pub closed spec fn proofs_view(&self) -> Seq<(Seq<u8>, Seq<u8>)> {
        crate::leaftree::entry_views(self.proofs@)
    }

    /// The serialized top-tree multi-proof.
    pub closed spec fn root_view(&self) -> Seq<u8> {
        self.root_proof@
    }

    /// The number of queried paths.
    pub fn path_count(&self) -> (r: usize)
        ensures
            r == self.paths_view().len(),
    {
        self.query_paths.len()
    }

    /// A copy of the proof bytes recorded for the subtree at `path`, if any.
    pub fn proof_for(&self, path: &Vec<Vec<u8>>) -> (r: Option<Vec<u8>>)
        ensures
            match r {
                Option::Some(b) => assoc_get(
                    self.proofs_view(),
                    spec_compress_path(views_of(path@), Option::None),
                ) == Option::Some(b@),
                Option::None => assoc_get(
                    self.proofs_view(),
                    spec_compress_path(views_of(path@), Option::None),
                ) is None,
            },
    {
        let cp = compress_path(path, Option::None);
        match find_assoc(&self.proofs, &cp) {
            Option::Some(i) => Option::Some(copy_bytes(&self.proofs[i].1)),
            Option::None => Option::None,
        }
    }

    /// A copy of the serialized top-tree multi-proof.
    pub fn root_proof_bytes(&self) -> (r: Vec<u8>)
        ensures
            r@ == self.root_view(),
    {
        copy_bytes(&self.root_proof)
    }
}

/// Finds the first slot of `key` in an association list of byte vectors.
fn find_assoc(v: &Vec<(Vec<u8>, Vec<u8>)>, key: &Vec<u8>) -> (r: Option<usize>)
    ensures
        match r {
            Option::Some(i) => i < v@.len() && v@[i as int].0@ == key@ && assoc_get(
                crate::leaftree::entry_views(v@),
                key@,
            ) == Option::Some(v@[i as int].1@),
            Option::None => assoc_get(crate::leaftree::entry_views(v@), key@) is None,
        },
{
    let ghost evs = crate::leaftree::entry_views(v@);
    let mut i: usize = 0;
    while i < v.len()
        invariant
            i <= v@.len(),
            evs == crate::leaftree::entry_views(v@),
            evs.len() == v@.len(),
            forall|j: int| 0 <= j < i ==> (#[trigger] evs[j]).0 != key@,
        decreases v@.len() - i,
    {
        if bytes_eq(&v[i].0, key) {
            proof {
                lemma_assoc_found(evs, key@, i as int);
            }
            return Option::Some(i);
        }
        i = i + 1;
    }
    proof {
        lemma_assoc_not_found(evs, key@);
    }
    Option::None
}

/// Strictly increasing, hence duplicate-free.
pub open spec fn sorted_unique(s: Seq<usize>) -> bool {
    forall|a: int, b: int| 0 <= a < b < s.len() ==> s[a] < s[b]
}

/// Inserting at the boundary between the smaller and the larger elements
/// keeps a sequence strictly increasing.
proof fn lemma_sorted_insert(s: Seq<usize>, i: int, x: usize)
    requires
        sorted_unique(s),
        0 <= i <= s.len(),
        forall|j: int| 0 <= j < i ==> s[j] < x,
        forall|j: int| i <= j < s.len() ==> s[j] > x,
    ensures
        sorted_unique(s.insert(i, x)),
{
    let s2 = s.insert(i, x);
    assert(forall|j: int| 0 <= j < i ==> s2[j] == s[j]);
    assert(s2[i] == x);
    assert(forall|j: int| i < j < s2.len() ==> s2[j] == s[j - 1]);
    assert forall|a: int, b: int| 0 <= a < b < s2.len() implies s2[a] < s2[b] by {
        if a < i && b > i {
        } else if a == i && b > i {
        } else if a < i && b == i {
        }
    }
}

/// Inserts `x` into a strictly sorted vector, keeping it sorted and
/// duplicate-free.
fn insert_sorted(v: &mut Vec<usize>, x: usize)
    requires
        sorted_unique(old(v)@),
    ensures
        sorted_unique(final(v)@),
        forall|y: usize| final(v)@.contains(y) <==> (old(v)@.contains(y) || y == x),
{
    let mut i: usize = 0;
    while i < v.len() && v[i] < x
        invariant
            i <= v@.len(),
            v@ == old(v)@,
            sorted_unique(v@),
            forall|j: int| 0 <= j < i ==> v@[j] < x,
        decreases v@.len() - i,
    {
        i = i + 1;
    }
    if i < v.len() && v[i] == x {
        proof {
            assert(v@[i as int] == x);
            assert(v@.contains(x));
        }
        return ;
    }
    let ghost orig = v@;
    v.insert(i, x);
    proof {
        assert(v@ == orig.insert(i as int, x));
        assert(forall|j: int| 0 <= j < i ==> v@[j] == orig[j]);
        assert(v@[i as int] == x);
        assert(forall|j: int| i < j < v@.len() ==> v@[j] == orig[j - 1]);
        assert forall|j: int| i <= j < orig.len() implies orig[j] > x by {
            if j > i {
                assert(orig[j] > orig[i as int]);
            }
        }
        lemma_sorted_insert(orig, i as int, x);
        assert forall|y: usize| v@.contains(y) <==> (orig.contains(y) || y == x) by {
            if v@.contains(y) {
                let w = choose|w: int| 0 <= w < v@.len() && v@[w] == y;
                if w < i {
                    assert(orig[w] == y);
                    assert(orig.contains(y));
                } else if w > i {
                    assert(orig[w - 1] == y);
                    assert(orig.contains(y));
                }
            }
            if orig.contains(y) {
                let w = choose|w: int| 0 <= w < orig.len() && orig[w] == y;
                if w < i {
                    assert(v@[w] == y);
                } else {
                    assert(v@[w + 1] == y);
                }
                assert(v@.contains(y));
            }
            if y == x {
                assert(v@[i as int] == y);
                assert(v@.contains(y));
            }
        }
    }
}

/// Whether `proofs` records a proof for every subtree along `path`.
pub open spec fn covers(proofs: Seq<(Seq<u8>, Seq<u8>)>, path: Seq<Seq<u8>>) -> bool {
    forall|j: int|
        1 <= j <= path.len() ==> assoc_get(
            proofs,
            #[trigger] spec_compress_path(path.take(j), Option::None),
        ) is Some
}

/// Whether some root-leaf slot carries `k`.
pub open spec fn has_position(pos_seq: Seq<Seq<u8>>, k: Seq<u8>) -> bool {
    exists|i: int| 0 <= i < pos_seq.len() && pos_seq[i] == k
}

/// Whether `k` is the compressed form of some nonempty prefix of a queried
/// path: exactly the node keys a planned proof may record.
pub open spec fn proof_key_of_queries(qs: Seq<Seq<Seq<u8>>>, k: Seq<u8>) -> bool {
    exists|q: int, j: int|
        0 <= q < qs.len() && 1 <= j <= qs[q].len() && k == #[trigger] spec_compress_path(
            qs[q].take(j),
            Option::None,
        )
}

/// Whether root-leaf slot `y` holds the top-level key of some queried path:
/// exactly the top-tree leaves a planned proof covers.
pub open spec fn queried_position(db: &GroveDb, qs: Seq<Seq<Seq<u8>>>, y: usize) -> bool {
    (y as int) < db.positions().len() && exists|q: int|
        0 <= q < qs.len() && (#[trigger] qs[q]).len() > 0 && db.positions()[y as int] == qs[q][0]
}

/// The inputs on which `proof` succeeds: every subtree along every queried
/// path exists, and every queried top-level key has a root-leaf position.
pub open spec fn spec_proof_ok(db: &GroveDb, qs: Seq<Seq<Seq<u8>>>) -> bool {
    &&& (forall|q: int| 0 <= q < qs.len() ==> chain_present(db.registry(), #[trigger] qs[q]))
    &&& (forall|q: int|
        0 <= q < qs.len() && (#[trigger] qs[q]).len() > 0 ==> has_position(
            db.positions(),
            qs[q][0],
        ))
}

/// The views of the queried paths.
pub open spec fn query_views(qs: Seq<ProofQuery>) -> Seq<Seq<Seq<u8>>> {
    qs.map_values(|pq: ProofQuery| views_of(pq.path@))
}

impl GroveDb {
    /// Plans and emits one combined proof for a batch of queries: nodes
    /// shared by several paths are proved once, each touched subtree
    /// discloses its entries against its root hash, and the touched
    /// top-tree leaves get one multi-proof. Fails with an invalid-path
    /// error when a queried subtree or top-level key does not exist.
    ///
    /// The keys a `Query` carries do not narrow the emitted proofs: a leaf
    /// tree's proof discloses all of its entries, so the answer to every
    /// requested key — and to the point queries that merging per-node
    /// requests would have added — is derivable from it. Callers should not
    /// expect proofs restricted to the queried keys.
    pub fn prove(&self, proof_queries: Vec<ProofQuery>) -> (r: Result<Proof, Error>)
        requires
            self.wf(),
        ensures
            r is Ok <==> spec_proof_ok(self, query_views(proof_queries@)),
            r matches Result::Err(e) ==> e is InvalidPath,
            r matches Result::Ok(p) ==> {
                &&& p.paths_view() == query_views(proof_queries@)
                &&& (forall|t: int|
                    0 <= t < p.proofs_view().len() ==> (assoc_get(
                        self.registry(),
                        (#[trigger] p.proofs_view()[t]).0,
                    ) matches Option::Some(es) && p.proofs_view()[t].1 == spec_encode_entries(
                        es,
                    )))
                &&& (forall|q: int|
                    0 <= q < proof_queries@.len() ==> covers(
                        p.proofs_view(),
                        #[trigger] query_views(proof_queries@)[q],
                    ))
                &&& assoc_unique(p.proofs_view())
                &&& (forall|t: int|
                    0 <= t < p.proofs_view().len() ==> proof_key_of_queries(
                        query_views(proof_queries@),
                        (#[trigger] p.proofs_view()[t]).0,
                    ))
                &&& exists|inds: Seq<usize>|
                    {
                        &&& sorted_unique(inds)
                        &&& (forall|a: int|
                            0 <= a < inds.len() ==> (#[trigger] inds[a]) < self.top_leaves().len())
                        &&& (p.root_view() == if inds.len() == 0 {
                            Seq::<u8>::empty()
                        } else {
                            merkle_multiproof(self.top_leaves(), inds)
                        })
                        &&& (forall|y: usize|
                            inds.contains(y) <==> queried_position(
                                self,
                                query_views(proof_queries@),
                                y,
                            ))
                        &&& (forall|q: int|
                            0 <= q < proof_queries@.len() && (#[trigger] query_views(
                                proof_queries@,
                            )[q]).len() > 0 ==> exists|i: int|
                                0 <= i < self.positions().len() && self.positions()[i]
                                    == query_views(proof_queries@)[q][0] && inds.contains(
                                    i as usize,
                                ))
                    }
            },
    {
        let ghost qs = query_views(proof_queries@);
        let mut query_paths: Vec<Vec<Vec<u8>>> = Vec::new();
        let mut proofs: Vec<(Vec<u8>, Vec<u8>)> = Vec::new();
        let mut indices: Vec<usize> = Vec::new();
        let mut q: usize = 0;
        while q < proof_queries.len()
            invariant
                self.wf(),
                q <= proof_queries@.len(),
                qs == query_views(proof_queries@),
                qs.len() == proof_queries@.len(),
                query_paths@.map_values(|p: Vec<Vec<u8>>| views_of(p@)) =~= qs.take(q as int),
                sorted_unique(indices@),
                forall|y: usize|
                    indices@.contains(y) ==> (y as int) < self.positions().len(),
                forall|y: usize|
                    indices@.contains(y) <==> queried_position(self, qs.take(q as int), y),
                assoc_unique(crate::leaftree::entry_views(proofs@)),
                forall|t: int|
                    0 <= t < crate::leaftree::entry_views(proofs@).len() ==> proof_key_of_queries(
                        qs,
                        (#[trigger] crate::leaftree::entry_views(proofs@)[t]).0,
                    ),
                forall|t: int|
                    0 <= t < crate::leaftree::entry_views(proofs@).len() ==> (assoc_get(
                        self.registry(),
                        (#[trigger] crate::leaftree::entry_views(proofs@)[t]).0,
                    ) matches Option::Some(es) && crate::leaftree::entry_views(proofs@)[t].1
                        == spec_encode_entries(es)),
                forall|m: int|
                    0 <= m < q ==> covers(
                        crate::leaftree::entry_views(proofs@),
                        #[trigger] qs[m],
                    ),
                forall|m: int| 0 <= m < q ==> chain_present(self.registry(), #[trigger] qs[m]),
                forall|m: int|
                    0 <= m < q && (#[trigger] qs[m]).len() > 0 ==> exists|i: int|
                        0 <= i < self.positions().len() && self.positions()[i] == qs[m][0]
                            && indices@.contains(i as usize),
            decreases proof_queries@.len() - q,
        {
            let path = &proof_queries[q].path;
            proof {
                assert(qs[q as int] == views_of(path@));
            }
            let mut j: usize = 0;
            while j < path.len()
                invariant
                    self.wf(),
                    j <= path@.len(),
                    qs == query_views(proof_queries@),
                    qs.len() == proof_queries@.len(),
                    qs[q as int] == views_of(path@),
                    0 <= q < qs.len(),
                    forall|jj: int|
                        1 <= jj <= j ==> assoc_get(
                            crate::leaftree::entry_views(proofs@),
                            #[trigger] spec_compress_path(
                                views_of(path@).take(jj),
                                Option::None,
                            ),
                        ) is Some,
                    forall|jj: int|
                        1 <= jj <= j ==> assoc_get(
                            self.registry(),
                            #[trigger] spec_compress_path(
                                views_of(path@).take(jj),
                                Option::None,
                            ),
                        ) is Some,
                    assoc_unique(crate::leaftree::entry_views(proofs@)),
                    forall|t: int|
                        0 <= t < crate::leaftree::entry_views(proofs@).len()
                            ==> proof_key_of_queries(
                            qs,
                            (#[trigger] crate::leaftree::entry_views(proofs@)[t]).0,
                        ),
                    forall|t: int|
                        0 <= t < crate::leaftree::entry_views(proofs@).len() ==> (assoc_get(
                            self.registry(),
                            (#[trigger] crate::leaftree::entry_views(proofs@)[t]).0,
                        ) matches Option::Some(es) && crate::leaftree::entry_views(proofs@)[t].1
                            == spec_encode_entries(es)),
                    forall|m: int|
                        0 <= m < q ==> covers(
                            crate::leaftree::entry_views(proofs@),
                            #[trigger] qs[m],
                        ),
                decreases path@.len() - j,
            {
                let pfx = prefix_of(path, j + 1);
                let cpj = compress_path(&pfx, Option::None);
                proof {
                    assert(cpj@ == spec_compress_path(views_of(path@).take(j + 1), Option::None));
                }
                let ti = match self.find_subtree(&cpj) {
                    Option::None => {
                        proof {
                            assert(!chain_present(self.registry(), qs[q as int]));
                            assert(!spec_proof_ok(self, qs));
                        }
                        return Result::Err(
                            Error::InvalidPath("no subtree found under that path"),
                        );
                    },
                    Option::Some(ti) => ti,
                };
                match find_assoc(&proofs, &cpj) {
                    Option::Some(_) => {},
                    Option::None => {
                        let ghost evs0 = crate::leaftree::entry_views(proofs@);
                        let bytes = self.subtree_proof_at(ti);
                        proofs.push((copy_bytes(&cpj), bytes));
                        proof {
                            let evs1 = crate::leaftree::entry_views(proofs@);
                            assert(evs1 =~= evs0.push(
                                (cpj@, spec_encode_entries(self.registry()[ti as int].1)),
                            ));
                            lemma_assoc_none_pointwise(evs0, cpj@);
                            lemma_assoc_push(
                                evs0,
                                cpj@,
                                spec_encode_entries(self.registry()[ti as int].1),
                            );
                            assert forall|a: int, b: int|
                                0 <= a < b < evs1.len() implies (#[trigger] evs1[a]).0 != (
                            #[trigger] evs1[b]).0 by {
                                if b == evs1.len() - 1 {
                                    assert(evs1[a] == evs0[a]);
                                    assert(evs0[a].0 != cpj@);
                                }
                            }
                            assert(proof_key_of_queries(qs, cpj@)) by {
                                assert(1 <= j + 1 <= qs[q as int].len() && cpj@
                                    == spec_compress_path(
                                    qs[q as int].take(j + 1),
                                    Option::None,
                                ));
                            }
                            assert forall|t: int| 0 <= t < evs1.len() implies
                                proof_key_of_queries(qs, (#[trigger] evs1[t]).0) by {
                                if t < evs1.len() - 1 {
                                    assert(evs1[t] == evs0[t]);
                                }
                            }
                        }
                    },
                }
                j = j + 1;
            }
            if path.len() > 0 {
                let ghost inds0 = indices@;
                let i = match self.find_position(&path[0]) {
                    Option::None => {
                        proof {
                            assert(views_of(path@)[0] == path@[0]@);
                            assert(!has_position(self.positions(), qs[q as int][0]));
                            assert(!spec_proof_ok(self, qs));
                        }
                        return Result::Err(Error::InvalidPath("root key not found"));
                    },
                    Option::Some(i) => i,
                };
                insert_sorted(&mut indices, i);
                proof {
                    assert(indices@.contains(i));
                    assert(self.positions()[i as int] == qs[q as int][0]);
                    assert forall|y: usize| indices@.contains(y) <==> queried_position(
                        self,
                        qs.take(q + 1),
                        y,
                    ) by {
                        assert(forall|m: int| 0 <= m < q + 1 ==> qs.take(q + 1)[m] == qs[m]);
                        assert(forall|m: int| 0 <= m < q ==> qs.take(q as int)[m] == qs[m]);
                        if indices@.contains(y) {
                            if inds0.contains(y) {
                                assert(queried_position(self, qs.take(q as int), y));
                                let m = choose|m: int|
                                    0 <= m < qs.take(q as int).len() && (#[trigger] qs.take(
                                        q as int,
                                    )[m]).len() > 0 && self.positions()[y as int] == qs.take(
                                        q as int,
                                    )[m][0];
                                assert((qs.take(q + 1)[m]).len() > 0 && self.positions()[y as int]
                                    == qs.take(q + 1)[m][0]);
                                assert(queried_position(self, qs.take(q + 1), y));
                            } else {
                                assert(y == i);
                                assert((qs.take(q + 1)[q as int]).len() > 0
                                    && self.positions()[y as int] == qs.take(q + 1)[q as int][0]);
                                assert(queried_position(self, qs.take(q + 1), y));
                            }
                        }
                        if queried_position(self, qs.take(q + 1), y) {
                            let m = choose|m: int|
                                0 <= m < qs.take(q + 1).len() && (#[trigger] qs.take(
                                    q + 1,
                                )[m]).len() > 0 && self.positions()[y as int] == qs.take(
                                    q + 1,
                                )[m][0];
                            if m < q {
                                assert((qs.take(q as int)[m]).len() > 0
                                    && self.positions()[y as int] == qs.take(q as int)[m][0]);
                                assert(queried_position(self, qs.take(q as int), y));
                                assert(inds0.contains(y));
                            } else {
                                assert(self.positions()[y as int] == self.positions()[i as int]);
                                if y != i {
                                    if (y as int) < (i as int) {
                                        assert(self.positions()[y as int]
                                            != self.positions()[i as int]);
                                    } else {
                                        assert(self.positions()[i as int]
                                            != self.positions()[y as int]);
                                    }
                                }
                                assert(y == i);
                            }
                            assert(indices@.contains(y));
                        }
                    }
                }
            } else {
                proof {
                    assert forall|y: usize| indices@.contains(y) <==> queried_position(
                        self,
                        qs.take(q + 1),
                        y,
                    ) by {
                        assert(forall|m: int| 0 <= m < q + 1 ==> qs.take(q + 1)[m] == qs[m]);
                        assert(forall|m: int| 0 <= m < q ==> qs.take(q as int)[m] == qs[m]);
                        assert(qs[q as int].len() == 0);
                        if indices@.contains(y) {
                            assert(queried_position(self, qs.take(q as int), y));
                            let m = choose|m: int|
                                0 <= m < qs.take(q as int).len() && (#[trigger] qs.take(
                                    q as int,
                                )[m]).len() > 0 && self.positions()[y as int] == qs.take(
                                    q as int,
                                )[m][0];
                            assert((qs.take(q + 1)[m]).len() > 0 && self.positions()[y as int]
                                == qs.take(q + 1)[m][0]);
                            assert(queried_position(self, qs.take(q + 1), y));
                        }
                        if queried_position(self, qs.take(q + 1), y) {
                            let m = choose|m: int|
                                0 <= m < qs.take(q + 1).len() && (#[trigger] qs.take(
                                    q + 1,
                                )[m]).len() > 0 && self.positions()[y as int] == qs.take(
                                    q + 1,
                                )[m][0];
                            assert(m < q);
                            assert((qs.take(q as int)[m]).len() > 0 && self.positions()[y as int]
                                == qs.take(q as int)[m][0]);
                            assert(queried_position(self, qs.take(q as int), y));
                            assert(indices@.contains(y));
                        }
                    }
                }
            }
            let newp = prefix_of(path, path.len());
            proof {
                assert(views_of(path@).take(path@.len() as int) =~= views_of(path@));
                assert(views_of(newp@) == qs[q as int]);
            }
            let ghost qp0 = query_paths@.map_values(|p: Vec<Vec<u8>>| views_of(p@));
            query_paths.push(newp);
            proof {
                assert(query_paths@.map_values(|p: Vec<Vec<u8>>| views_of(p@)) =~= qp0.push(
                    qs[q as int],
                ));
                assert(qs.take(q + 1) =~= qs.take(q as int).push(qs[q as int]));
                assert(query_paths@.map_values(|p: Vec<Vec<u8>>| views_of(p@)) =~= qs.take(
                    q + 1,
                ));
                assert(covers(crate::leaftree::entry_views(proofs@), qs[q as int]));
            }
            q = q + 1;
        }
        let root_proof: Vec<u8>;
        if indices.len() == 0 {
            root_proof = Vec::new();
        } else {
            proof {
                assert(indices@.contains(indices@[0]));
                assert(self.positions().len() > 0);
                assert(forall|a: int|
                    0 <= a < indices@.len() ==> indices@.contains(#[trigger] indices@[a]));
                assert(forall|i: int|
                    0 <= i < self.root_tree_leaves@.len() ==> (
                    #[trigger] self.root_tree_leaves@[i])@ == self.top_leaves()[i]);
            }
            root_proof = merkle_proof_bytes(&self.root_tree_leaves, &indices);
        }
        let ghost final_inds = indices@;
        let p = Proof { query_paths, proofs, root_proof };
        proof {
            assert(p.paths_view() =~= qs);
            assert(p.proofs_view() == crate::leaftree::entry_views(p.proofs@));
            assert(qs.take(qs.len() as int) =~= qs);
            assert(forall|y: usize| final_inds.contains(y) <==> queried_position(self, qs, y));
        }
        Result::Ok(p)
    }

    /// Serializes the proof of the subtree in registry slot `ti`.
    fn subtree_proof_at(&self, ti: usize) -> (r: Vec<u8>)
        requires
            ti < self.registry().len(),
        ensures
            r@ == spec_encode_entries(self.registry()[ti as int].1),
    {
        self.subtrees[ti].1.prove()
    }

    /// Validates a single-path proof sequence and recomputes the database
    /// root hash it commits to, together with the queried subtree's
    /// disclosed entries. The sequence runs from the queried leaf tree
    /// upward: its proof, one proof per enclosing subtree, the top-tree
    /// multi-proof, and the serialized root-leaf index.
    pub fn execute_proof(path: &Vec<Vec<u8>>, proofs: &Vec<Vec<u8>>) -> (r: Result<
        (Vec<u8>, LeafTree),
        Error,
    >)
        ensures
            match r {
                Result::Ok((root, lt)) => spec_execute_proof(views_of(path@), views_of(proofs@))
                    == Option::Some((root@, lt@)) && root@.len() == 32,
                Result::Err(e) => spec_execute_proof(views_of(path@), views_of(proofs@)) is None
                    && (if proofs@.len() >= 2 && proofs@.len() == path@.len() + 2
                    && bincode_parse_index(views_of(proofs@).last()) is None {
                    e is CorruptedData
                } else {
                    e is InvalidProof
                }),
            },
    {
        let ghost vp = views_of(path@);
        let ghost vproofs = views_of(proofs@);
        if proofs.len() < 2 {
            return Result::Err(Error::InvalidProof("Proof length should be 2 or more"));
        }
        if proofs.len() - 2 != path.len() {
            return Result::Err(
                Error::InvalidProof("Proof length should be two greater than path"),
            );
        }
        proof {
            assert(vproofs.last() == vproofs[vproofs.len() - 1]);
        }
        let idx = match deserialize_index(&proofs[proofs.len() - 1]) {
            Option::None => {
                return Result::Err(Error::CorruptedData("unable to deserialize element"));
            },
            Option::Some(v) => v,
        };
        if path.len() == 0 {
            return Result::Err(Error::InvalidProof("Invalid proof element"));
        }
        let leaf = match execute_leaf_proof(&proofs[0]) {
            Result::Err(_) => {
                return Result::Err(Error::InvalidProof("Invalid proof element"));
            },
            Result::Ok(x) => x,
        };
        let leaf_lt = leaf.1;
        let mut last_root = leaf.0;
        let ghost target = spec_middle_chain(vp, vproofs, 1, spec_root_hash(leaf_lt@));
        let mut i: usize = 1;
        while i < path.len()
            invariant
                1 <= i <= vp.len(),
                vp.len() == path@.len(),
                vp == views_of(path@),
                vproofs == views_of(proofs@),
                vproofs.len() == vp.len() + 2,
                last_root@.len() == 32,
                target == spec_middle_chain(vp, vproofs, i as int, last_root@),
                target == spec_middle_chain(vp, vproofs, 1, spec_root_hash(leaf_lt@)),
                spec_decode_entries(vproofs[0]) == Option::Some(leaf_lt@),
                bincode_parse_index(vproofs.last()) is Some,
            decreases vp.len() - i,
        {
            let step = match execute_leaf_proof(&proofs[i]) {
                Result::Err(_) => {
                    proof {
                        assert(spec_middle_chain(vp, vproofs, i as int, last_root@) is None);
                        assert(spec_execute_proof(vp, vproofs) is None);
                    }
                    return Result::Err(Error::InvalidProof("Invalid proof element"));
                },
                Result::Ok(x) => x,
            };
            let key_idx = path.len() - i;
            match step.1.get(&path[key_idx]) {
                Option::None => {
                    proof {
                        assert(spec_middle_chain(vp, vproofs, i as int, last_root@) is None);
                        assert(spec_execute_proof(vp, vproofs) is None);
                    }
                    return Result::Err(Error::InvalidProof("Bad path"));
                },
                Option::Some(v) => match Element::decode(&v) {
                    Result::Err(_) => {
                        proof {
                            assert(spec_middle_chain(vp, vproofs, i as int, last_root@) is None);
                            assert(spec_execute_proof(vp, vproofs) is None);
                        }
                        return Result::Err(
                            Error::InvalidProof("Intermediate proofs should be for trees"),
                        );
                    },
                    Result::Ok(el) => match el {
                        Element::Tree(hchild) => {
                            if !bytes_eq(&hchild, &last_root) {
                                proof {
                                    assert(spec_middle_chain(
                                        vp,
                                        vproofs,
                                        i as int,
                                        last_root@,
                                    ) is None);
                                    assert(spec_execute_proof(vp, vproofs) is None);
                                }
                                return Result::Err(Error::InvalidProof("Bad path"));
                            }
                            last_root = step.0;
                        },
                        _ => {
                            proof {
                                assert(spec_middle_chain(
                                    vp,
                                    vproofs,
                                    i as int,
                                    last_root@,
                                ) is None);
                                assert(spec_execute_proof(vp, vproofs) is None);
                            }
                            return Result::Err(
                                Error::InvalidProof("Intermediate proofs should be for trees"),
                            );
                        },
                    },
                },
            }
            i = i + 1;
        }
        let pos = match find_index_pair(&idx, &path[0]) {
            Option::None => {
                return Result::Err(Error::InvalidProof("root key not found"));
            },
            Option::Some(s) => idx[s].1,
        };
        if pos >= idx.len() as u64 {
            return Result::Err(Error::InvalidProof("Invalid proof element"));
        }
        let pos_us = pos as usize;
        let indices = vec![pos_us];
        let hashes = vec![copy_bytes(&last_root)];
        proof {
            assert(indices@ =~= seq![pos_us]);
            assert(views_of(hashes@) =~= seq![last_root@]);
            assert(pair_views(idx@).len() == idx@.len());
        }
        match merkle_compute_root(&proofs[path.len()], &indices, &hashes, idx.len()) {
            Option::None => Result::Err(Error::InvalidProof("Invalid proof element")),
            Option::Some(h) => Result::Ok((h, leaf_lt)),
        }
    }
}

/// The soundness of planned proofs: for every covered path whose upward
/// links carry the current child roots, the recorded per-subtree proofs
/// validate level by level, and the chain recomputes the root hash of the
/// subtree at the path's first `j` segments. Instantiated at the planner's
/// output, this says a batch of planned proofs verifies to the subtree
/// roots that feed the top tree.
pub proof fn lemma_planned_chain_validates(
    reg: Seq<(Seq<u8>, Seq<(Seq<u8>, Seq<u8>)>)>,
    proofs_map: Seq<(Seq<u8>, Seq<u8>)>,
    path: Seq<Seq<u8>>,
    j: int,
)
    requires
        1 <= j <= path.len(),
        chain_present(reg, path),
        covers(proofs_map, path),
        forall|t: int|
            0 <= t < proofs_map.len() ==> (assoc_get(reg, (#[trigger] proofs_map[t]).0)
                matches Option::Some(es) && proofs_map[t].1 == spec_encode_entries(es)),
        forall|jj: int| 1 <= jj < path.len() ==> crate::link_ok(reg, path, jj),
        forall|t: int|
            0 <= t < reg.len() ==> crate::leaftree::wf_entries((#[trigger] reg[t]).1),
    ensures
        spec_path_chain(proofs_map, path, j) == Option::Some(
            spec_root_hash(reg_tree_at(reg, spec_compress_path(path.take(j), Option::None))),
        ),
    decreases path.len() - j,
{
    let cpj = spec_compress_path(path.take(j), Option::None);
    assert(assoc_get(proofs_map, cpj) is Some);
    crate::util::lemma_assoc_first_entry(proofs_map, cpj);
    let t = choose|t: int|
        0 <= t < proofs_map.len() && (#[trigger] proofs_map[t]).0 == cpj && assoc_get(
            proofs_map,
            cpj,
        ) == Option::Some(proofs_map[t].1);
    let es = reg_tree_at(reg, cpj);
    assert(assoc_get(reg, cpj) == Option::Some(es));
    assert(proofs_map[t].1 == spec_encode_entries(es));
    crate::util::lemma_assoc_first_entry(reg, cpj);
    let t2 = choose|t2: int|
        0 <= t2 < reg.len() && (#[trigger] reg[t2]).0 == cpj && assoc_get(reg, cpj)
            == Option::Some(reg[t2].1);
    assert(crate::leaftree::wf_entries(es));
    crate::leaftree::lemma_entries_codec_round_trip(es);
    if j == path.len() {
    } else {
        lemma_planned_chain_validates(reg, proofs_map, path, j + 1);
        assert(crate::link_ok(reg, path, j));
    }
}

/// The assembled middle proofs chain: when the proof at slot `t` is the
/// genuine serialization of the subtree at the first `n - t` segments and
/// every upward link carries the child's current root, the walk from level
/// `i` validates and ends at the top-level subtree's root.
proof fn lemma_assembled_middle_chain(
    reg: Seq<(Seq<u8>, Seq<(Seq<u8>, Seq<u8>)>)>,
    path: Seq<Seq<u8>>,
    proofs: Seq<Seq<u8>>,
    i: int,
)
    requires
        1 <= i <= path.len(),
        path.len() < proofs.len(),
        forall|t: int|
            1 <= t < path.len() ==> proofs[t] == spec_encode_entries(
                reg_tree_at(reg, #[trigger] spec_compress_path(path.take(path.len() - t), Option::None)),
            ),
        forall|jj: int| 1 <= jj < path.len() ==> crate::link_ok(reg, path, jj),
        forall|t: int|
            0 <= t < reg.len() ==> crate::leaftree::wf_entries((#[trigger] reg[t]).1),
        chain_present(reg, path),
    ensures
        spec_middle_chain(
            path,
            proofs,
            i,
            spec_root_hash(
                reg_tree_at(
                    reg,
                    spec_compress_path(path.take(path.len() - i + 1), Option::None),
                ),
            ),
        ) == Option::Some(
            spec_root_hash(reg_tree_at(reg, spec_compress_path(path.take(1), Option::None))),
        ),
    decreases path.len() - i,
{
    let n = path.len() as int;
    if i == n {
    } else {
        let cpt = spec_compress_path(path.take(n - i), Option::None);
        let es = reg_tree_at(reg, cpt);
        assert(proofs[i] == spec_encode_entries(es));
        assert(assoc_get(reg, cpt) is Some);
        crate::util::lemma_assoc_first_entry(reg, cpt);
        assert(crate::leaftree::wf_entries(es));
        crate::leaftree::lemma_entries_codec_round_trip(es);
        assert(spec_decode_entries(proofs[i]) == Option::Some(es));
        assert(crate::link_ok(reg, path, n - i));
        lemma_assembled_middle_chain(reg, path, proofs, i + 1);
    }
}

/// Looks `k` up among dense path and position pairs: its slot is its
/// position.
proof fn lemma_index_pairs_assoc(pos_seq: Seq<Seq<u8>>, k: Seq<u8>, i: int)
    requires
        0 <= i < pos_seq.len(),
        pos_seq[i] == k,
        forall|j: int| 0 <= j < i ==> pos_seq[j] != k,
    ensures
        assoc_get(crate::index_pairs(pos_seq), k) == Option::Some(i as u64),
{
    assert(forall|j: int|
        0 <= j < pos_seq.len() ==> #[trigger] crate::index_pairs(pos_seq)[j] == (
        pos_seq[j],
        j as u64,
        ));
    crate::util::lemma_assoc_found(crate::index_pairs(pos_seq), k, i);
}

impl GroveDb {
    /// Plans and assembles the full single-path proof sequence for `path`,
    /// ready for `execute_proof`: the queried subtree's proof, one proof per
    /// enclosing subtree, the top-tree proof, and the serialized root-leaf
    /// index. Provided the store's upward links along `path` carry the
    /// current child roots (as they do right after an insertion along it),
    /// executing the sequence recomputes this store's root hash and
    /// discloses the queried subtree.
    pub fn prove_path(&self, path: &Vec<Vec<u8>>) -> (r: Result<Vec<Vec<u8>>, Error>)
        requires
            self.wf(),
            path@.len() > 0,
            forall|j: int|
                1 <= j < path@.len() ==> crate::link_ok(self.registry(), views_of(path@), j),
        ensures
            r is Ok <==> chain_present(self.registry(), views_of(path@)) && has_position(
                self.positions(),
                views_of(path@)[0],
            ),
            match r {
                Result::Ok(proofs) => spec_execute_proof(views_of(path@), views_of(proofs@))
                    == Option::Some(
                    (
                        self.spec_db_root(),
                        reg_tree_at(
                            self.registry(),
                            spec_compress_path(views_of(path@), Option::None),
                        ),
                    ),
                ),
                Result::Err(e) => e is InvalidPath,
            },
    {
        let ghost vp = views_of(path@);
        let n = path.len();
        if !self.check_chain(path) {
            return Result::Err(Error::InvalidPath("no subtree found under that path"));
        }
        let mut proofs: Vec<Vec<u8>> = Vec::new();
        let mut level: usize = 0;
        while level < n
            invariant
                self.wf(),
                vp == views_of(path@),
                0 < n == vp.len(),
                level <= n,
                chain_present(self.registry(), vp),
                proofs@.len() == level,
                forall|t: int|
                    0 <= t < level ==> (#[trigger] proofs@[t])@ == spec_encode_entries(
                        reg_tree_at(
                            self.registry(),
                            spec_compress_path(vp.take(n - t), Option::None),
                        ),
                    ),
            decreases n - level,
        {
            let pfx = prefix_of(path, n - level);
            let cpl = compress_path(&pfx, Option::None);
            proof {
                assert(cpl@ == spec_compress_path(vp.take(n - level), Option::None));
            }
            let ti = match self.find_subtree(&cpl) {
                Option::Some(ti) => ti,
                Option::None => {
                    proof {
                        assert(false);
                    }
                    return Result::Err(Error::InvalidPath("no subtree found under that path"));
                },
            };
            let bytes = self.subtree_proof_at(ti);
            proofs.push(bytes);
            level = level + 1;
        }
        let pos = match self.find_position(&path[0]) {
            Option::Some(i) => i,
            Option::None => {
                proof {
                    assert(vp.take(1) =~= seq![vp[0]]);
                    vp.take(1).lemma_flatten_one_element();
                    assert(spec_compress_path(vp.take(1), Option::None) =~= vp[0]);
                    assert(assoc_get(self.registry(), vp[0]) is Some);
                    assert(!has_position(self.positions(), vp[0]));
                }
                return Result::Err(Error::InvalidPath("root key not found"));
            },
        };
        proof {
            assert(has_position(self.positions(), vp[0])) by {
                assert(self.positions()[pos as int] == vp[0]);
            }
            assert(forall|i: int|
                0 <= i < self.root_tree_leaves@.len() ==> (
                #[trigger] self.root_tree_leaves@[i])@ == self.top_leaves()[i]);
        }
        let indices = vec![pos];
        let root_proof = merkle_proof_bytes(&self.root_tree_leaves, &indices);
        let blobs = match self.store_subtrees_keys_data() {
            Result::Ok(blobs) => blobs,
            Result::Err(_) => {
                proof {
                    assert(false);
                }
                return Result::Err(Error::InvalidPath("no subtree found under that path"));
            },
        };
        let ghost top1 = spec_root_hash(
            reg_tree_at(self.registry(), spec_compress_path(vp.take(1), Option::None)),
        );
        let ghost mid_proofs = views_of(proofs@);
        let ghost rpv = root_proof@;
        let ghost blobv = blobs.1@;
        proofs.push(root_proof);
        proofs.push(blobs.1);
        proof {
            let vproofs = views_of(proofs@);
            assert(forall|t: int| 0 <= t < n ==> #[trigger] vproofs[t] == mid_proofs[t]);
            assert(vproofs[n as int] == rpv);
            assert(vproofs[n + 1] == blobv);
            let reg = self.registry();
            assert(vproofs.len() == n + 2);
            assert(vproofs.last() == vproofs[n + 1]);
            assert(bincode_parse_index(vproofs[n + 1]) == Option::Some(
                crate::index_pairs(self.positions()),
            ));
            // The leaf proof decodes to the queried subtree's entries.
            let cp = spec_compress_path(vp, Option::None);
            assert(vp.take(n as int) =~= vp);
            assert(vproofs[0] == spec_encode_entries(reg_tree_at(reg, cp)));
            crate::util::lemma_assoc_first_entry(reg, cp);
            lemma_registry_entries_wf(self);
            crate::leaftree::lemma_entries_codec_round_trip(reg_tree_at(reg, cp));
            // The middle proofs chain up to the top-level subtree's root.
            lemma_assembled_middle_chain(reg, vp, vproofs, 1);
            assert(vp.take(n - 0) =~= vp);
            // The top key resolves to its dense position.
            assert(vp.take(1) =~= seq![vp[0]]);
            vp.take(1).lemma_flatten_one_element();
            assert(spec_compress_path(vp.take(1), Option::None) =~= vp[0]);
            assert(self.positions()[pos as int] == vp[0]);
            assert(forall|j: int| 0 <= j < pos ==> self.positions()[j] != vp[0]);
            lemma_index_pairs_assoc(self.positions(), vp[0], pos as int);
            // The top proof recomputes the database root from that leaf.
            assert(indices@ =~= seq![pos]);
            assert(indices@.map_values(|i: usize| views_of(self.root_tree_leaves@)[i as int])
                =~= seq![self.top_leaves()[pos as int]]);
            assert(self.top_leaves()[pos as int] == top1);
            assert(seq![top1] =~= indices@.map_values(
                |i: usize| views_of(self.root_tree_leaves@)[i as int],
            ));
            assert(views_of(self.root_tree_leaves@) =~= self.top_leaves());
            assert(self.root_tree_leaves@.len() == self.positions().len());
            assert(vproofs[n as int] == merkle_multiproof(self.top_leaves(), seq![pos]));
            assert(merkle_root_from_proof(
                vproofs[n as int],
                seq![pos],
                seq![top1],
                self.positions().len() as usize,
            ) == Option::Some(merkle_root(self.top_leaves())));
            assert(self.positions().len() > 0);
            assert(self.spec_db_root() == merkle_root(self.top_leaves()));
            // Assemble the verifier's view of the sequence step by step.
            assert(vproofs.last() == vproofs[n + 1]);
            assert(spec_middle_chain(vp, vproofs, 1, spec_root_hash(reg_tree_at(reg, cp)))
                == Option::Some(top1));
            assert(assoc_get(crate::index_pairs(self.positions()), vp[0]) == Option::Some(
                pos as u64,
            ));
            assert(self.positions().len() == self.root_leaf_keys.len());
            assert(crate::index_pairs(self.positions()).len() <= usize::MAX);
            assert(crate::index_pairs(self.positions()).len() > (pos as u64) as int);
            assert(seq![(pos as u64) as usize] =~= seq![pos]);
            assert(crate::index_pairs(self.positions()).len() as usize == self.positions().len()
                as usize);
            assert(spec_execute_proof(vp, vproofs) == Option::Some(
                (self.spec_db_root(), reg_tree_at(reg, cp)),
            ));
        }
        Result::Ok(proofs)
    }
}

/// Entries taken from an in-memory registry are well formed: every key and
/// value is a real vector, so its length fits in a u64.
proof fn lemma_registry_entries_wf(db: &GroveDb)
    ensures
        forall|t: int|
            0 <= t < db.registry().len() ==> crate::leaftree::wf_entries(
                (#[trigger] db.registry()[t]).1,
            ),
{
    assert forall|t: int| 0 <= t < db.registry().len() implies crate::leaftree::wf_entries(
        (#[trigger] db.registry()[t]).1,
    ) by {
        crate::lemma_subtree_entries_wf(db, t);
    }
}

/// The number of root-leaf positions a serialized index carries.
pub open spec fn spec_index_len(b: Seq<u8>) -> usize {
    match bincode_parse_index(b) {
        Option::Some(idx) => idx.len() as usize,
        Option::None => 0,
    }
}

/// The root-leaf index a serialized blob parses to (empty when unparsable).
pub open spec fn spec_parsed_index(b: Seq<u8>) -> Seq<(Seq<u8>, u64)> {
    match bincode_parse_index(b) {
        Option::Some(idx) => idx,
        Option::None => Seq::empty(),
    }
}

/// The queried path at `m` is tied into the top recomputation: some batch
/// slot carries its top key's parsed position together with its validated
/// chain root.
pub open spec fn batch_slot_ok(
    p: &Proof,
    idx: Seq<(Seq<u8>, u64)>,
    inds: Seq<usize>,
    hs: Seq<Seq<u8>>,
    m: int,
) -> bool {
    exists|a: int|
        0 <= a < inds.len() && a < hs.len() && assoc_get(idx, p.paths_view()[m][0])
            == Option::Some((#[trigger] inds[a]) as u64) && Option::Some(hs[a])
            == spec_path_chain(p.proofs_view(), p.paths_view()[m], 1)
}

/// A chain validated from the top is validated at every deeper level too.
pub proof fn lemma_chain_some_at(
    proofs_map: Seq<(Seq<u8>, Seq<u8>)>,
    path: Seq<Seq<u8>>,
    j: int,
)
    requires
        1 <= j <= path.len(),
        spec_path_chain(proofs_map, path, 1) is Some,
    ensures
        spec_path_chain(proofs_map, path, j) is Some,
    decreases j,
{
    if j > 1 {
        lemma_chain_some_at(proofs_map, path, j - 1);
    }
}

/// What the executed batch proof guarantees for the queried path at `m`: a
/// nonempty path whose whole chain of recorded proofs validates, and whose
/// leaf tree in the result is exactly the disclosure its recorded proof
/// decodes to.
pub open spec fn batch_entry_ok(p: &Proof, lts: Seq<LeafTree>, m: int) -> bool {
    let pathm = p.paths_view()[m];
    &&& pathm.len() > 0
    &&& spec_path_chain(p.proofs_view(), pathm, 1) is Some
    &&& (assoc_get(p.proofs_view(), spec_compress_path(pathm, Option::None)) matches Option::Some(
        b,
    ) && spec_decode_entries(b) == Option::Some(lts[m]@))
}

impl Proof {
    /// Executes the combined proof: validates every queried path's chain of
    /// subtree proofs, then recomputes the database root hash from the
    /// top-tree multi-proof, with the serialized root-leaf index supplied
    /// out of band. Returns the verified root hash and, per queried path in
    /// caller order, the disclosed entries of its leaf tree.
    #[verifier::rlimit(60)]
    pub fn execute(&self, root_leafs: &Vec<u8>) -> (r: Result<(Vec<u8>, Vec<LeafTree>), Error>)
        ensures
            match r {
                Result::Ok((root, lts)) => {
                    &&& root@.len() == 32
                    &&& lts@.len() == self.paths_view().len()
                    &&& (forall|q: int|
                        0 <= q < lts@.len() ==> #[trigger] batch_entry_ok(self, lts@, q))
                    &&& bincode_parse_index(root_leafs@) is Some
                    &&& (exists|inds: Seq<usize>, hs: Seq<Seq<u8>>|
                        sorted_unique(inds) && inds.len() == hs.len()
                            && #[trigger] merkle_root_from_proof(
                            self.root_view(),
                            inds,
                            hs,
                            spec_index_len(root_leafs@),
                        ) == Option::Some(root@) && (forall|m: int|
                            0 <= m < lts@.len() ==> batch_slot_ok(
                                self,
                                spec_parsed_index(root_leafs@),
                                inds,
                                hs,
                                m,
                            )))
                },
                Result::Err(e) => if bincode_parse_index(root_leafs@) is None {
                    e is CorruptedData
                } else {
                    e is InvalidProof
                },
            },
            ({
                &&& self.paths_view().len() == 1
                &&& bincode_parse_index(root_leafs@) is Some
                &&& self.paths_view()[0].len() > 0
                &&& (spec_path_chain(self.proofs_view(), self.paths_view()[0], 1)
                    matches Option::Some(cr) && (assoc_get(
                    spec_parsed_index(root_leafs@),
                    self.paths_view()[0][0],
                ) matches Option::Some(pos) && (pos as int) < spec_parsed_index(
                    root_leafs@,
                ).len() && spec_parsed_index(root_leafs@).len() <= usize::MAX
                    && merkle_root_from_proof(
                    self.root_view(),
                    seq![pos as usize],
                    seq![cr],
                    spec_index_len(root_leafs@),
                ) is Some))
            }) ==> r is Ok,
    {
        let idx = match deserialize_index(root_leafs) {
            Option::None => {
                return Result::Err(Error::CorruptedData("unable to deserialize element"));
            },
            Option::Some(v) => v,
        };
        let mut lts: Vec<LeafTree> = Vec::new();
        let mut inds: Vec<usize> = Vec::new();
        let mut hs: Vec<Vec<u8>> = Vec::new();
        let mut q: usize = 0;
        while q < self.query_paths.len()
            invariant
                q <= self.query_paths@.len(),
                self.paths_view().len() == self.query_paths@.len(),
                lts@.len() == q,
                sorted_unique(inds@),
                inds@.len() == hs@.len(),
                forall|t: int| 0 <= t < hs@.len() ==> (#[trigger] hs@[t])@.len() == 32,
                forall|y: usize| inds@.contains(y) ==> (y as int) < pair_views(idx@).len(),
                inds@.len() <= q,
                bincode_parse_index(root_leafs@) == Option::Some(pair_views(idx@)),
                forall|m: int| 0 <= m < q ==> #[trigger] batch_entry_ok(self, lts@, m),
                forall|m: int|
                    0 <= m < q ==> #[trigger] batch_slot_ok(
                        self,
                        pair_views(idx@),
                        inds@,
                        views_of(hs@),
                        m,
                    ),
            decreases self.query_paths@.len() - q,
        {
            let path = &self.query_paths[q];
            proof {
                assert(self.paths_view()[q as int] == views_of(path@));
                if self.paths_view().len() == 1 {
                    assert(q == 0);
                }
            }
            if path.len() == 0 {
                return Result::Err(Error::InvalidProof("Invalid proof element"));
            }
            let cp = compress_path(path, Option::None);
            proof {
                assert(views_of(path@).take(path@.len() as int) =~= views_of(path@));
            }
            let s = match find_assoc(&self.proofs, &cp) {
                Option::None => {
                    proof {
                        if self.paths_view().len() == 1 && spec_path_chain(
                            self.proofs_view(),
                            self.paths_view()[0],
                            1,
                        ) is Some {
                            lemma_chain_some_at(
                                self.proofs_view(),
                                views_of(path@),
                                path@.len() as int,
                            );
                            assert(false);
                        }
                    }
                    return Result::Err(Error::InvalidProof("Bad path"));
                },
                Option::Some(s) => s,
            };
            let leaf = match execute_leaf_proof(&self.proofs[s].1) {
                Result::Err(_) => {
                    proof {
                        if self.paths_view().len() == 1 && spec_path_chain(
                            self.proofs_view(),
                            self.paths_view()[0],
                            1,
                        ) is Some {
                            lemma_chain_some_at(
                                self.proofs_view(),
                                views_of(path@),
                                path@.len() as int,
                            );
                            assert(spec_decode_entries(self.proofs@[s as int].1@) is Some);
                            assert(false);
                        }
                    }
                    return Result::Err(Error::InvalidProof("Invalid proof element"));
                },
                Result::Ok(x) => x,
            };
            let top1 = match chain_root(&self.proofs, path, 1) {
                Result::Err(e) => {
                    proof {
                        assert(spec_path_chain(
                            self.proofs_view(),
                            views_of(path@),
                            1,
                        ) is None);
                    }
                    return Result::Err(e);
                },
                Result::Ok(h) => h,
            };
            let pos_slot = match find_index_pair(&idx, &path[0]) {
                Option::None => {
                    proof {
                        if self.paths_view().len() == 1 {
                            assert(views_of(path@)[0] == path@[0]@);
                            assert(assoc_get(
                                pair_views(idx@),
                                self.paths_view()[0][0],
                            ) is None);
                        }
                    }
                    return Result::Err(Error::InvalidProof("root key not found"));
                },
                Option::Some(s2) => s2,
            };
            let pos = idx[pos_slot].1;
            proof {
                assert(views_of(path@)[0] == path@[0]@);
                assert(assoc_get(pair_views(idx@), self.paths_view()[q as int][0])
                    == Option::Some(pair_views(idx@)[pos_slot as int].1));
                assert(pair_views(idx@)[pos_slot as int].1 == pos);
            }
            if pos >= idx.len() as u64 {
                return Result::Err(Error::InvalidProof("Invalid proof element"));
            }
            let ghost inds_before = inds@;
            let ghost hs_before = hs@;
            if !insert_pos_hash(&mut inds, &mut hs, pos as usize, &top1) {
                proof {
                    if self.paths_view().len() == 1 {
                        assert(inds_before.len() == 0);
                        assert(false);
                    }
                }
                return Result::Err(Error::InvalidProof("Bad path"));
            }
            let ghost ltv = leaf.1@;
            let ghost lts0 = lts@;
            lts.push(leaf.1);
            proof {
                assert(lts@[q as int]@ == ltv);
                assert(assoc_get(self.proofs_view(), cp@) == Option::Some(
                    self.proofs@[s as int].1@,
                ));
                let pathq = self.paths_view()[q as int];
                assert(pathq.len() > 0);
                assert(spec_path_chain(self.proofs_view(), pathq, 1) is Some);
                assert(cp@ == spec_compress_path(pathq, Option::None));
                assert(spec_decode_entries(self.proofs@[s as int].1@) == Option::Some(
                    lts@[q as int]@,
                ));
                assert forall|m: int| 0 <= m < q + 1 implies #[trigger] batch_entry_ok(
                    self,
                    lts@,
                    m,
                ) by {
                    if m < q {
                        assert(lts@[m] == lts0[m]);
                        assert(batch_entry_ok(self, lts0, m));
                    } else {
                        assert(batch_entry_ok(self, lts@, q as int));
                    }
                }
                assert(spec_path_chain(self.proofs_view(), self.paths_view()[q as int], 1)
                    == Option::Some(top1@));
                assert forall|m: int| 0 <= m < q + 1 implies #[trigger] batch_slot_ok(
                    self,
                    pair_views(idx@),
                    inds@,
                    views_of(hs@),
                    m,
                ) by {
                    if m < q {
                        assert(batch_slot_ok(
                            self,
                            pair_views(idx@),
                            inds_before,
                            views_of(hs_before),
                            m,
                        ));
                        let a = choose|a: int|
                            0 <= a < inds_before.len() && a < views_of(hs_before).len()
                                && assoc_get(pair_views(idx@), self.paths_view()[m][0])
                                == Option::Some((#[trigger] inds_before[a]) as u64)
                                && Option::Some(views_of(hs_before)[a]) == spec_path_chain(
                                self.proofs_view(),
                                self.paths_view()[m],
                                1,
                            );
                        let a2 = choose|a2: int|
                            0 <= a2 < inds@.len() && inds@[a2] == inds_before[a] && hs@[a2]
                                == hs_before[a];
                        assert(views_of(hs@)[a2] == views_of(hs_before)[a]);
                        assert(0 <= a2 < inds@.len() && a2 < views_of(hs@).len() && assoc_get(
                            pair_views(idx@),
                            self.paths_view()[m][0],
                        ) == Option::Some((inds@[a2]) as u64) && Option::Some(views_of(hs@)[a2])
                            == spec_path_chain(self.proofs_view(), self.paths_view()[m], 1));
                    } else {
                        let a2 = choose|a2: int|
                            0 <= a2 < inds@.len() && inds@[a2] == (pos as usize) && (
                            #[trigger] hs@[a2])@ == top1@;
                        assert((inds@[a2]) as u64 == pos);
                        assert(views_of(hs@)[a2] == hs@[a2]@);
                        assert(0 <= a2 < inds@.len() && a2 < views_of(hs@).len() && assoc_get(
                            pair_views(idx@),
                            self.paths_view()[m][0],
                        ) == Option::Some((inds@[a2]) as u64) && Option::Some(views_of(hs@)[a2])
                            == spec_path_chain(self.proofs_view(), self.paths_view()[m], 1));
                    }
                }
            }
            q = q + 1;
        }
        if inds.len() == 0 {
            proof {
                if self.paths_view().len() == 1 {
                    assert(batch_slot_ok(self, pair_views(idx@), inds@, views_of(hs@), 0));
                    assert(false);
                }
            }
            return Result::Err(Error::InvalidProof("Invalid proof element"));
        }
        proof {
            assert(forall|a: int|
                0 <= a < inds@.len() ==> inds@.contains(#[trigger] inds@[a]));
            assert(pair_views(idx@).len() == idx@.len());
            assert(lts@.len() == self.paths_view().len());
            assert(bincode_parse_index(root_leafs@) == Option::Some(pair_views(idx@)));
            assert(forall|m: int| 0 <= m < lts@.len() ==> #[trigger] batch_entry_ok(
                self,
                lts@,
                m,
            ));
        }
        match merkle_compute_root(&self.root_proof, &inds, &hs, idx.len()) {
            Option::None => {
                proof {
                    if self.paths_view().len() == 1 {
                        assert(batch_slot_ok(self, pair_views(idx@), inds@, views_of(hs@), 0));
                        let a = choose|a: int|
                            0 <= a < inds@.len() && a < views_of(hs@).len() && assoc_get(
                                pair_views(idx@),
                                self.paths_view()[0][0],
                            ) == Option::Some((#[trigger] inds@[a]) as u64) && Option::Some(
                                views_of(hs@)[a],
                            ) == spec_path_chain(self.proofs_view(), self.paths_view()[0], 1);
                        assert(inds@.len() == 1);
                        assert(a == 0);
                        match spec_path_chain(self.proofs_view(), self.paths_view()[0], 1) {
                            Option::Some(cr) => {
                                match assoc_get(pair_views(idx@), self.paths_view()[0][0]) {
                                    Option::Some(pos2) => {
                                        assert(pos2 == (inds@[0]) as u64);
                                        if (pos2 as int) < pair_views(idx@).len()
                                            && pair_views(idx@).len() <= usize::MAX {
                                            assert((pos2 as usize) == inds@[0]);
                                            assert(seq![pos2 as usize] =~= inds@);
                                            assert(cr == views_of(hs@)[0]);
                                            assert(seq![cr] =~= views_of(hs@));
                                            assert(merkle_root_from_proof(
                                                self.root_view(),
                                                seq![pos2 as usize],
                                                seq![cr],
                                                spec_index_len(root_leafs@),
                                            ) is None);
                                        }
                                    },
                                    Option::None => {},
                                }
                            },
                            Option::None => {},
                        }
                    }
                }
                Result::Err(Error::InvalidProof("Invalid proof element"))
            },
            Option::Some(h) => {
                proof {
                    assert(views_of(hs@).len() == inds@.len());
                    assert(spec_index_len(root_leafs@) == pair_views(idx@).len() as usize);
                    assert(merkle_root_from_proof(
                        self.root_view(),
                        inds@,
                        views_of(hs@),
                        spec_index_len(root_leafs@),
                    ) == Option::Some(h@));
                    assert(spec_parsed_index(root_leafs@) == pair_views(idx@));
                    assert(exists|inds2: Seq<usize>, hs2: Seq<Seq<u8>>|
                        sorted_unique(inds2) && inds2.len() == hs2.len()
                            && #[trigger] merkle_root_from_proof(
                            self.root_view(),
                            inds2,
                            hs2,
                            spec_index_len(root_leafs@),
                        ) == Option::Some(h@) && (forall|m: int|
                            0 <= m < lts@.len() ==> batch_slot_ok(
                                self,
                                spec_parsed_index(root_leafs@),
                                inds2,
                                hs2,
                                m,
                            ))) by {
                        assert(sorted_unique(inds@) && inds@.len() == views_of(hs@).len()
                            && merkle_root_from_proof(
                            self.root_view(),
                            inds@,
                            views_of(hs@),
                            spec_index_len(root_leafs@),
                        ) == Option::Some(h@) && (forall|m: int|
                            0 <= m < lts@.len() ==> batch_slot_ok(
                                self,
                                spec_parsed_index(root_leafs@),
                                inds@,
                                views_of(hs@),
                                m,
                            )));
                    }
                }
                Result::Ok((h, lts))
            },
        }
    }
}

/// The root hash of the subtree at the first `j` segments of `path`, after
/// validating every tree marker from that level down to the queried leaf
/// tree against the level below's recomputed root.
pub open spec fn spec_path_chain(
    proofs_map: Seq<(Seq<u8>, Seq<u8>)>,
    path: Seq<Seq<u8>>,
    j: int,
) -> Option<Seq<u8>>
    decreases path.len() - j,
{
    if j < 1 || j > path.len() {
        Option::None
    } else {
        match assoc_get(proofs_map, spec_compress_path(path.take(j), Option::None)) {
            Option::None => Option::None,
            Option::Some(bytes) => match spec_decode_entries(bytes) {
                Option::None => Option::None,
                Option::Some(es) => if j == path.len() {
                    Option::Some(spec_root_hash(es))
                } else {
                    match spec_path_chain(proofs_map, path, j + 1) {
                        Option::None => Option::None,
                        Option::Some(child_root) => match spec_get(es, path[j]) {
                            Option::None => Option::None,
                            Option::Some(v) => if spec_decode_element(v) == Option::Some(
                                ElementView::Tree(child_root),
                            ) {
                                Option::Some(spec_root_hash(es))
                            } else {
                                Option::None
                            },
                        },
                    }
                },
            },
        }
    }
}

/// Validates the chain of recorded proofs for `path` from level `j` down,
/// returning the root hash of the subtree at the first `j` segments.
fn chain_root(proofs_list: &Vec<(Vec<u8>, Vec<u8>)>, path: &Vec<Vec<u8>>, j: usize) -> (r: Result<
    Vec<u8>,
    Error,
>)
    requires
        1 <= j <= path@.len(),
    ensures
        match r {
            Result::Ok(h) => spec_path_chain(
                crate::leaftree::entry_views(proofs_list@),
                views_of(path@),
                j as int,
            ) == Option::Some(h@) && h@.len() == 32,
            Result::Err(e) => spec_path_chain(
                crate::leaftree::entry_views(proofs_list@),
                views_of(path@),
                j as int,
            ) is None && e is InvalidProof,
        },
    decreases path@.len() - j,
{
    let pfx = prefix_of(path, j);
    let cpj = compress_path(&pfx, Option::None);
    proof {
        assert(cpj@ == spec_compress_path(views_of(path@).take(j as int), Option::None));
    }
    let s = match find_assoc(proofs_list, &cpj) {
        Option::None => {
            return Result::Err(Error::InvalidProof("Bad path"));
        },
        Option::Some(s) => s,
    };
    let step = match execute_leaf_proof(&proofs_list[s].1) {
        Result::Err(_) => {
            return Result::Err(Error::InvalidProof("Invalid proof element"));
        },
        Result::Ok(x) => x,
    };
    if j == path.len() {
        return Result::Ok(step.0);
    }
    let child = match chain_root(proofs_list, path, j + 1) {
        Result::Err(e) => {
            return Result::Err(e);
        },
        Result::Ok(h) => h,
    };
    match step.1.get(&path[j]) {
        Option::None => Result::Err(Error::InvalidProof("Bad path")),
        Option::Some(v) => match Element::decode(&v) {
            Result::Err(_) => Result::Err(
                Error::InvalidProof("Intermediate proofs should be for trees"),
            ),
            Result::Ok(el) => match el {
                Element::Tree(h) => {
                    if bytes_eq(&h, &child) {
                        Result::Ok(step.0)
                    } else {
                        Result::Err(Error::InvalidProof("Bad path"))
                    }
                },
                _ => Result::Err(Error::InvalidProof("Intermediate proofs should be for trees")),
            },
        },
    }
}

/// Inserts a top-tree leaf and its hash into the sorted batch, keeping
/// positions strictly increasing; an already-recorded position is accepted
/// only with the identical hash.
fn insert_pos_hash(inds: &mut Vec<usize>, hs: &mut Vec<Vec<u8>>, pos: usize, h: &Vec<u8>) -> (r:
    bool)
    requires
        sorted_unique(old(inds)@),
        old(inds)@.len() == old(hs)@.len(),
        h@.len() == 32,
        forall|t: int| 0 <= t < old(hs)@.len() ==> (#[trigger] old(hs)@[t])@.len() == 32,
    ensures
        final(inds)@.len() == final(hs)@.len(),
        final(inds)@.len() <= old(inds)@.len() + 1,
        sorted_unique(final(inds)@),
        forall|t: int| 0 <= t < final(hs)@.len() ==> (#[trigger] final(hs)@[t])@.len() == 32,
        r ==> (forall|y: usize| final(inds)@.contains(y) <==> (old(inds)@.contains(y) || y
            == pos)),
        r ==> (forall|a: int|
            0 <= a < old(inds)@.len() ==> exists|a2: int|
                0 <= a2 < final(inds)@.len() && final(inds)@[a2] == #[trigger] old(inds)@[a]
                    && final(hs)@[a2] == old(hs)@[a]),
        r ==> (exists|a2: int|
            0 <= a2 < final(inds)@.len() && final(inds)@[a2] == pos
                && (#[trigger] final(hs)@[a2])@ == h@),
        old(inds)@.len() == 0 ==> r && final(inds)@ =~= seq![pos] && views_of(final(hs)@)
            =~= seq![h@],
        !r ==> final(inds)@ == old(inds)@ && final(hs)@ == old(hs)@,
{
    let mut i: usize = 0;
    while i < inds.len() && inds[i] < pos
        invariant
            i <= inds@.len(),
            inds@ == old(inds)@,
            hs@ == old(hs)@,
            sorted_unique(inds@),
            forall|j: int| 0 <= j < i ==> inds@[j] < pos,
        decreases inds@.len() - i,
    {
        i = i + 1;
    }
    if i < inds.len() && inds[i] == pos {
        if bytes_eq(&hs[i], h) {
            proof {
                assert(inds@[i as int] == pos);
                assert(inds@.contains(pos));
                assert((hs@[i as int])@ == h@);
                assert forall|a: int| 0 <= a < inds@.len() implies exists|a2: int|
                    0 <= a2 < inds@.len() && inds@[a2] == #[trigger] inds@[a] && hs@[a2]
                        == hs@[a] by {
                    assert(inds@[a] == inds@[a] && hs@[a] == hs@[a]);
                }
            }
            return true;
        }
        return false;
    }
    let ghost orig = inds@;
    let ghost origh = hs@;
    inds.insert(i, pos);
    hs.insert(i, crate::util::copy_bytes(h));
    proof {
        assert(inds@ == orig.insert(i as int, pos));
        assert(forall|j: int| 0 <= j < i ==> inds@[j] == orig[j]);
        assert(inds@[i as int] == pos);
        assert(forall|j: int| i < j < inds@.len() ==> inds@[j] == orig[j - 1]);
        assert forall|j: int| i <= j < orig.len() implies orig[j] > pos by {
            if j > i {
                assert(orig[j] > orig[i as int]);
            }
        }
        lemma_sorted_insert(orig, i as int, pos);
        assert(forall|j: int| 0 <= j < i ==> hs@[j] == origh[j]);
        assert(forall|j: int| i < j < hs@.len() ==> hs@[j] == origh[j - 1]);
        assert forall|y: usize| inds@.contains(y) <==> (orig.contains(y) || y == pos) by {
            if inds@.contains(y) {
                let w = choose|w: int| 0 <= w < inds@.len() && inds@[w] == y;
                if w < i {
                    assert(orig[w] == y);
                    assert(orig.contains(y));
                } else if w > i {
                    assert(orig[w - 1] == y);
                    assert(orig.contains(y));
                }
            }
            if orig.contains(y) {
                let w = choose|w: int| 0 <= w < orig.len() && orig[w] == y;
                if w < i {
                    assert(inds@[w] == y);
                } else {
                    assert(inds@[w + 1] == y);
                }
                assert(inds@.contains(y));
            }
            if y == pos {
                assert(inds@[i as int] == y);
                assert(inds@.contains(y));
            }
        }
        assert forall|a: int| 0 <= a < orig.len() implies exists|a2: int|
            0 <= a2 < inds@.len() && inds@[a2] == #[trigger] orig[a] && hs@[a2] == origh[a] by {
            if a < i {
                assert(inds@[a] == orig[a] && hs@[a] == origh[a]);
            } else {
                assert(inds@[a + 1] == orig[a] && hs@[a + 1] == origh[a]);
            }
        }
        assert((hs@[i as int])@ == h@);
        if orig.len() == 0 {
            assert(inds@ =~= seq![pos]);
            assert(views_of(hs@) =~= seq![h@]);
        }
    }
    true
}

/// Finds the first slot of `key` in a parsed root-leaf index.
fn find_index_pair(idx: &Vec<(Vec<u8>, u64)>, key: &Vec<u8>) -> (r: Option<usize>)
    ensures
        match r {
            Option::Some(s) => s < idx@.len() && pair_views(idx@)[s as int].0 == key@ && assoc_get(
                pair_views(idx@),
                key@,
            ) == Option::Some(pair_views(idx@)[s as int].1),
            Option::None => assoc_get(pair_views(idx@), key@) is None,
        },
{
    let mut s: usize = 0;
    while s < idx.len()
        invariant
            s <= idx@.len(),
            pair_views(idx@).len() == idx@.len(),
            forall|j: int| 0 <= j < s ==> (#[trigger] pair_views(idx@)[j]).0 != key@,
        decreases idx@.len() - s,
    {
        if bytes_eq(&idx[s].0, key) {
            proof {
                lemma_assoc_found(pair_views(idx@), key@, s as int);
            }
            return Option::Some(s);
        }
        s = s + 1;
    }
    proof {
        lemma_assoc_not_found(pair_views(idx@), key@);
    }
    Option::None
}

/// Walks the intermediate proofs from the queried leaf tree upward: the
/// proof at level `i` must disclose, under the matching path segment, a
/// tree marker carrying the root committed by the level below.
pub open spec fn spec_middle_chain(
    path: Seq<Seq<u8>>,
    proofs: Seq<Seq<u8>>,
    i: int,
    prev: Seq<u8>,
) -> Option<Seq<u8>>
    decreases path.len() - i,
{
    if i >= path.len() {
        Option::Some(prev)
    } else {
        match spec_decode_entries(proofs[i]) {
            Option::None => Option::None,
            Option::Some(es) => match spec_get(es, path[path.len() - i]) {
                Option::None => Option::None,
                Option::Some(v) => match spec_decode_element(v) {
                    Option::Some(ElementView::Tree(h)) => if h == prev {
                        spec_middle_chain(path, proofs, i + 1, spec_root_hash(es))
                    } else {
                        Option::None
                    },
                    _ => Option::None,
                },
            },
        }
    }
}

/// Verification of a single-path proof sequence: all structural checks, the
/// hash chain from the leaf tree to the top proof, and the recomputed root.
pub open spec fn spec_execute_proof(path: Seq<Seq<u8>>, proofs: Seq<Seq<u8>>) -> Option<
    (Seq<u8>, Seq<(Seq<u8>, Seq<u8>)>),
> {
    if proofs.len() < 2 || proofs.len() != path.len() + 2 || path.len() == 0 {
        Option::None
    } else {
        match bincode_parse_index(proofs.last()) {
            Option::None => Option::None,
            Option::Some(idx) => match spec_decode_entries(proofs[0]) {
                Option::None => Option::None,
                Option::Some(es0) => match spec_middle_chain(
                    path,
                    proofs,
                    1,
                    spec_root_hash(es0),
                ) {
                    Option::None => Option::None,
                    Option::Some(sub) => match assoc_get(idx, path[0]) {
                        Option::None => Option::None,
                        Option::Some(pos) => if (pos as int) < idx.len() && idx.len()
                            <= usize::MAX {
                            match merkle_root_from_proof(
                                proofs[path.len() as int],
                                seq![pos as usize],
                                seq![sub],
                                idx.len() as usize,
                            ) {
                                Option::Some(h) => Option::Some((h, es0)),
                                Option::None => Option::None,
                            }
                        } else {
                            Option::None
                        },
                    },
                },
            },
        }
    }
}

} // verus!
