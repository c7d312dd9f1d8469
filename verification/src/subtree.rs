//! Elements stored in a leaf tree, with their stable binary encoding and
//! reference resolution within one leaf tree.
use crate::leaftree::{spec_apply, spec_get, zero_hash, zero_hash_vec, LeafTree};
use crate::util::{bytes_eq, contains_bytes, push_bytes, views_of};
use crate::Error;
use crate::MAX_REFERENCE_HOPS;
use vstd::bytes::{
    lemma_auto_spec_u64_to_from_le_bytes, spec_u64_from_le_bytes, spec_u64_to_le_bytes,
    u64_from_le_bytes, u64_to_le_bytes,
};
use vstd::prelude::*;
use vstd::slice::{slice_subrange, slice_to_vec};

verus! {

/// Variants of stored entities.
#[derive(Debug)]
pub enum Element {
    /// An ordinary value.
    Item(Vec<u8>),
    /// A reference to another entry of the same leaf tree, by its merk key.
    Reference(Vec<u8>),
    /// A subtree marker, carrying the root hash of the nested leaf tree.
    Tree(Vec<u8>),
}

/// Mathematical model of an element: the same shape over byte sequences.
pub enum ElementView {
    Item(Seq<u8>),
    Reference(Seq<u8>),
    Tree(Seq<u8>),
}

impl View for Element {
    type V = ElementView;

    open spec fn view(&self) -> ElementView {
        match self {
            Element::Item(v) => ElementView::Item(v@),
            Element::Reference(v) => ElementView::Reference(v@),
            Element::Tree(h) => ElementView::Tree(h@),
        }
    }
}

/// A well-formed element: a tree marker carries exactly 32 hash bytes, and
/// byte payloads are small enough for their length to be encoded in a u64.
pub open spec fn wf_element(e: ElementView) -> bool {
    match e {
        ElementView::Item(v) => v.len() <= u64::MAX,
        ElementView::Reference(v) => v.len() <= u64::MAX,
        ElementView::Tree(h) => h.len() == 32,
    }
}

/// Stable binary encoding: a one-byte tag (0 = Item, 1 = Reference, 2 = Tree);
/// Item and Reference bodies are length-prefixed (u64, little endian), a Tree
/// body is 32 raw hash bytes.
pub open spec fn spec_encode_element(e: ElementView) -> Seq<u8> {
    match e {
        ElementView::Item(v) => seq![0u8] + spec_u64_to_le_bytes(v.len() as u64) + v,
        ElementView::Reference(v) => seq![1u8] + spec_u64_to_le_bytes(v.len() as u64) + v,
        ElementView::Tree(h) => seq![2u8] + h,
    }
}

/// Decoding of the stable binary encoding. Unknown tags, truncated bodies and
/// trailing garbage all decode to `None`.
pub open spec fn spec_decode_element(b: Seq<u8>) -> Option<ElementView> {
    if b.len() == 0 {
        Option::None
    } else if b[0] == 0u8 {
        if b.len() < 9 {
            Option::None
        } else if b.len() == 9 + spec_u64_from_le_bytes(b.subrange(1, 9)) {
            Option::Some(ElementView::Item(b.skip(9)))
        } else {
            Option::None
        }
    } else if b[0] == 1u8 {
        if b.len() < 9 {
            Option::None
        } else if b.len() == 9 + spec_u64_from_le_bytes(b.subrange(1, 9)) {
            Option::Some(ElementView::Reference(b.skip(9)))
        } else {
            Option::None
        }
    } else if b[0] == 2u8 {
        if b.len() == 33 {
            Option::Some(ElementView::Tree(b.skip(1)))
        } else {
            Option::None
        }
    } else {
        Option::None
    }
}

/// Encoding round-trips: decoding the encoding of any well-formed element
/// yields that element back.
pub proof fn lemma_element_codec_round_trip(e: ElementView)
    requires
        wf_element(e),
    ensures
        spec_decode_element(spec_encode_element(e)) == Option::Some(e),
{
    lemma_auto_spec_u64_to_from_le_bytes();
    let b = spec_encode_element(e);
    match e {
        ElementView::Item(v) => {
            assert(b.subrange(1, 9) =~= spec_u64_to_le_bytes(v.len() as u64));
            assert(b.skip(9) =~= v);
        },
        ElementView::Reference(v) => {
            assert(b.subrange(1, 9) =~= spec_u64_to_le_bytes(v.len() as u64));
            assert(b.skip(9) =~= v);
        },
        ElementView::Tree(h) => {
            assert(b.skip(1) =~= h);
        },
    }
}

/// The encoding of a well-formed element is injective.
pub proof fn lemma_element_codec_injective(e1: ElementView, e2: ElementView)
    requires
        wf_element(e1),
        wf_element(e2),
        spec_encode_element(e1) == spec_encode_element(e2),
    ensures
        e1 == e2,
{
    lemma_element_codec_round_trip(e1);
    lemma_element_codec_round_trip(e2);
}

impl PartialEq for Element {
    fn eq(&self, other: &Element) -> (r: bool) {
        match (self, other) {
            (Element::Item(a), Element::Item(b)) => bytes_eq(a, b),
            (Element::Reference(a), Element::Reference(b)) => bytes_eq(a, b),
            (Element::Tree(a), Element::Tree(b)) => bytes_eq(a, b),
            _ => false,
        }
    }
}

impl vstd::std_specs::cmp::PartialEqSpecImpl for Element {
    open spec fn obeys_eq_spec() -> bool {
        true
    }

    open spec fn eq_spec(&self, other: &Element) -> bool {
        self@ == other@
    }
}

/// What resolving a reference chain can come to.
pub enum ResolveOutcome {
    /// A non-reference element was reached.
    Found(ElementView),
    /// A previously visited key was revisited.
    Cyclic,
    /// The hop limit was exhausted.
    Limit,
    /// A key on the chain is absent from the leaf tree.
    Missing,
    /// A value on the chain does not decode to an element.
    Corrupt,
}

/// Follows a reference chain within one leaf tree: at most `hops` steps,
/// failing on any revisited key.
pub open spec fn spec_follow(
    es: Seq<(Seq<u8>, Seq<u8>)>,
    cur: Seq<u8>,
    visited: Seq<Seq<u8>>,
    hops: nat,
) -> ResolveOutcome
    decreases hops,
{
    if hops == 0 {
        ResolveOutcome::Limit
    } else if visited.contains(cur) {
        ResolveOutcome::Cyclic
    } else {
        match spec_get(es, cur) {
            Option::None => ResolveOutcome::Missing,
            Option::Some(v) => match spec_decode_element(v) {
                Option::None => ResolveOutcome::Corrupt,
                Option::Some(ElementView::Reference(nk)) => spec_follow(
                    es,
                    nk,
                    visited.push(cur),
                    (hops - 1) as nat,
                ),
                Option::Some(ev) => ResolveOutcome::Found(ev),
            },
        }
    }
}

/// Relates an executable resolution result to the specified outcome.
pub open spec fn outcome_ok(r: Result<Element, Error>, o: ResolveOutcome) -> bool {
    match o {
        ResolveOutcome::Found(ev) => r matches Result::Ok(e) && e@ == ev,
        ResolveOutcome::Cyclic => r matches Result::Err(e) && e is CyclicReference,
        ResolveOutcome::Limit => r matches Result::Err(e) && e is ReferenceLimit,
        ResolveOutcome::Missing => r matches Result::Err(e) && e is InvalidPath,
        ResolveOutcome::Corrupt => r matches Result::Err(e) && e is CorruptedData,
    }
}

/// Resolution never comes back with another reference: chains end at a plain
/// element, a cycle, a missing key, corrupt data, or the hop limit.
pub proof fn lemma_follow_no_reference(
    es: Seq<(Seq<u8>, Seq<u8>)>,
    cur: Seq<u8>,
    visited: Seq<Seq<u8>>,
    hops: nat,
)
    ensures
        spec_follow(es, cur, visited, hops) matches ResolveOutcome::Found(ev) ==> !(ev
            is Reference),
    decreases hops,
{
    if hops > 0 && !visited.contains(cur) {
        match spec_get(es, cur) {
            Option::Some(v) => match spec_decode_element(v) {
                Option::Some(ElementView::Reference(nk)) => {
                    lemma_follow_no_reference(es, nk, visited.push(cur), (hops - 1) as nat);
                },
                _ => {},
            },
            Option::None => {},
        }
    }
}

/// Items and references taken from executable elements are well formed:
/// their payload fits in memory, so its length fits in a u64.
pub proof fn lemma_element_view_wf(e: &Element)
    ensures
        !(e@ is Tree) ==> wf_element(e@),
{
    match e {
        Element::Item(v) => {
            assert(v.len() == v@.len());
            assert(v@.len() <= u64::MAX);
        },
        Element::Reference(v) => {
            assert(v.len() == v@.len());
            assert(v@.len() <= u64::MAX);
        },
        Element::Tree(_) => {},
    }
}

impl Element {
    /// Whether this element is well formed.
    pub open spec fn wf(&self) -> bool {
        wf_element(self@)
    }

    /// An empty subtree marker: a tree element carrying the all-zero hash.
    pub fn empty_tree() -> (r: Element)
        ensures
            r@ == ElementView::Tree(zero_hash()),
    {
        Element::Tree(zero_hash_vec())
    }

    /// A reference to the entry stored under `path` and `key` of the same
    /// leaf tree, by its merk key.
    pub fn new_reference(path: &Vec<Vec<u8>>, key: &Vec<u8>) -> (r: Element)
        ensures
            r@ == ElementView::Reference(
                crate::spec_compress_path(views_of(path@), Option::Some(key@)),
            ),
    {
        Element::Reference(Element::build_merk_key(path, key))
    }

    /// The merk key of an entry: the compressed path followed by the key.
    pub fn build_merk_key(path: &Vec<Vec<u8>>, key: &Vec<u8>) -> (r: Vec<u8>)
        ensures
            r@ == crate::spec_compress_path(views_of(path@), Option::Some(key@)),
    {
        crate::compress_path(path, Option::Some(key))
    }

    /// Fetches the element stored under `path` and `key` in `merk`,
    /// following references within the same leaf tree.
    pub fn get(merk: &LeafTree, path: &Vec<Vec<u8>>, key: &Vec<u8>) -> (r: Result<Element, Error>)
        ensures
            ({
                let mk = crate::spec_compress_path(views_of(path@), Option::Some(key@));
                match spec_get(merk@, mk) {
                    Option::None => r matches Result::Err(e) && e is InvalidPath,
                    Option::Some(v) => match spec_decode_element(v) {
                        Option::None => r matches Result::Err(e) && e is CorruptedData,
                        Option::Some(ElementView::Reference(rk)) => outcome_ok(
                            r,
                            spec_follow(
                                merk@,
                                rk,
                                Seq::empty(),
                                MAX_REFERENCE_HOPS as nat,
                            ),
                        ),
                        Option::Some(ev) => r matches Result::Ok(e) && e@ == ev,
                    },
                }
            }),
            r matches Result::Ok(e) ==> !(e@ is Reference),
    {
        let mk = Element::build_merk_key(path, key);
        match merk.get(&mk) {
            Option::None => Result::Err(Error::InvalidPath("key not found in Merk")),
            Option::Some(v) => match Element::decode(&v) {
                Result::Err(e) => Result::Err(e),
                Result::Ok(el) => {
                    proof {
                        lemma_follow_no_reference(
                            merk@,
                            match el@ {
                                ElementView::Reference(rk) => rk,
                                _ => Seq::empty(),
                            },
                            Seq::empty(),
                            MAX_REFERENCE_HOPS as nat,
                        );
                    }
                    el.follow_reference(merk)
                },
            },
        }
    }

    /// Inserts this element under `path` and `key` of `merk`, in encoded
    /// form.
    pub fn insert(&self, merk: &mut LeafTree, path: &Vec<Vec<u8>>, key: &Vec<u8>) -> (r: Result<
        (),
        Error,
    >)
        ensures
            r is Ok,
            final(merk)@ == spec_apply(
                old(merk)@,
                crate::spec_compress_path(views_of(path@), Option::Some(key@)),
                spec_encode_element(self@),
            ),
    {
        let mk = Element::build_merk_key(path, key);
        let bytes = self.encode();
        merk.apply(&mk, &bytes);
        Result::Ok(())
    }

    /// If this element is a reference, follows the chain it starts within
    /// `merk`; otherwise hands the element back.
    pub fn follow_reference(self, merk: &LeafTree) -> (r: Result<Element, Error>)
        ensures
            match self@ {
                ElementView::Reference(rk) => outcome_ok(
                    r,
                    spec_follow(merk@, rk, Seq::empty(), MAX_REFERENCE_HOPS as nat),
                ),
                _ => r matches Result::Ok(e) && e == self,
            },
    {
        match self {
            Element::Reference(rk) => Element::resolve(merk, rk),
            other => Result::Ok(other),
        }
    }

    /// Iteratively follows references starting from merk key `start`.
    fn resolve(merk: &LeafTree, start: Vec<u8>) -> (r: Result<Element, Error>)
        ensures
            outcome_ok(
                r,
                spec_follow(merk@, start@, Seq::empty(), MAX_REFERENCE_HOPS as nat),
            ),
    {
        let mut hops_left: usize = MAX_REFERENCE_HOPS;
        let mut visited: Vec<Vec<u8>> = Vec::new();
        let mut cur: Vec<u8> = start;
        proof {
            assert(views_of(visited@) =~= Seq::<Seq<u8>>::empty());
        }
        while hops_left > 0
            invariant
                spec_follow(merk@, start@, Seq::empty(), MAX_REFERENCE_HOPS as nat)
                    == spec_follow(merk@, cur@, views_of(visited@), hops_left as nat),
            decreases hops_left,
        {
            if contains_bytes(&visited, &cur) {
                return Result::Err(Error::CyclicReference);
            }
            match merk.get(&cur) {
                Option::None => {
                    return Result::Err(Error::InvalidPath("key not found in Merk"));
                },
                Option::Some(v) => match Element::decode(&v) {
                    Result::Err(e) => {
                        return Result::Err(e);
                    },
                    Result::Ok(el) => match el {
                        Element::Reference(nk) => {
                            let ghost old_visited = views_of(visited@);
                            let ghost old_cur = cur@;
                            visited.push(cur);
                            proof {
                                assert(views_of(visited@) =~= old_visited.push(old_cur));
                            }
                            cur = nk;
                            hops_left = hops_left - 1;
                        },
                        other => {
                            return Result::Ok(other);
                        },
                    },
                },
            }
        }
        Result::Err(Error::ReferenceLimit)
    }

    /// Encodes the element in the stable binary format.
    pub fn encode(&self) -> (r: Vec<u8>)
        ensures
            r@ == spec_encode_element(self@),
    {
        let mut r: Vec<u8> = Vec::new();
        match self {
            Element::Item(v) => {
                r.push(0u8);
                let len_bytes = u64_to_le_bytes(v.len() as u64);
                push_bytes(&mut r, &len_bytes);
                push_bytes(&mut r, v);
                proof {
                    assert(r@ =~= spec_encode_element(self@));
                }
            },
            Element::Reference(v) => {
                r.push(1u8);
                let len_bytes = u64_to_le_bytes(v.len() as u64);
                push_bytes(&mut r, &len_bytes);
                push_bytes(&mut r, v);
                proof {
                    assert(r@ =~= spec_encode_element(self@));
                }
            },
            Element::Tree(h) => {
                r.push(2u8);
                push_bytes(&mut r, h);
                proof {
                    assert(r@ =~= spec_encode_element(self@));
                }
            },
        }
        r
    }

    /// Decodes an element from the stable binary format; any malformed input
    /// is rejected as corrupted data.
    pub fn decode(bytes: &Vec<u8>) -> (r: Result<Element, Error>)
        ensures
            match r {
                Result::Ok(e) => spec_decode_element(bytes@) == Option::Some(e@) && e.wf(),
                Result::Err(er) => spec_decode_element(bytes@) is None && er is CorruptedData,
            },
    {
        proof {
            lemma_auto_spec_u64_to_from_le_bytes();
        }
        if bytes.len() == 0 {
            return Result::Err(Error::CorruptedData("empty element encoding"));
        }
        let tag = bytes[0];
        if tag == 0u8 || tag == 1u8 {
            if bytes.len() < 9 {
                return Result::Err(Error::CorruptedData("truncated element body"));
            }
            let len_slice = slice_subrange(bytes.as_slice(), 1, 9);
            let n = u64_from_le_bytes(len_slice);
            if n > (usize::MAX as u64) || !(bytes.len() - 9 == n as usize) {
                return Result::Err(Error::CorruptedData("element length mismatch"));
            }
            let body = slice_to_vec(slice_subrange(bytes.as_slice(), 9, bytes.len()));
            proof {
                assert(body@ =~= bytes@.skip(9));
            }
            if tag == 0u8 {
                Result::Ok(Element::Item(body))
            } else {
                Result::Ok(Element::Reference(body))
            }
        } else if tag == 2u8 {
            if bytes.len() != 33 {
                return Result::Err(Error::CorruptedData("bad tree hash length"));
            }
            let body = slice_to_vec(slice_subrange(bytes.as_slice(), 1, 33));
            proof {
                assert(body@ =~= bytes@.skip(1));
            }
            Result::Ok(Element::Tree(body))
        } else {
            Result::Err(Error::CorruptedData("unknown element tag"))
        }
    }
}

} // verus!
