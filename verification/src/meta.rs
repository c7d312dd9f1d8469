//! Trusted boundary to bincode: the stable serialization of the two meta
//! artifacts, the subtree prefix list and the root-leaf position map.
use crate::util::views_of;
use vstd::prelude::*;

verus! {

/// The bincode serialization of a list of byte strings.
pub uninterp spec fn bincode_prefixes(v: Seq<Seq<u8>>) -> Seq<u8>;

/// What bincode parses from a byte string as a list of byte strings.
pub uninterp spec fn bincode_parse_prefixes(b: Seq<u8>) -> Option<Seq<Seq<u8>>>;

/// The bincode serialization of a position map: byte string and slot pairs.
pub uninterp spec fn bincode_index(v: Seq<(Seq<u8>, u64)>) -> Seq<u8>;

/// What bincode parses from a byte string as a position map.
pub uninterp spec fn bincode_parse_index(b: Seq<u8>) -> Option<Seq<(Seq<u8>, u64)>>;

/// The views of a sequence of path/position pairs.
pub open spec fn pair_views(s: Seq<(Vec<u8>, u64)>) -> Seq<(Seq<u8>, u64)> {
    s.map_values(|p: (Vec<u8>, u64)| (p.0@, p.1))
}

/// Relies on bincode::serialize for Vec<Vec<u8>>: serializing an in-memory
/// vector of byte strings into memory cannot fail (sequence lengths are
/// known, the sink is a vector, and no size limit is set); the output is a
/// function of the value alone, and bincode::deserialize parses it back.
#[verifier::external_body]
pub(crate) fn serialize_prefixes(v: &Vec<Vec<u8>>) -> (r: Option<Vec<u8>>)
    ensures
        r is Some,
        match r {
            Option::Some(b) => b@ == bincode_prefixes(views_of(v@)) && bincode_parse_prefixes(b@)
                == Option::Some(views_of(v@)),
            Option::None => true,
        },
{
    bincode::serialize(v).ok()
}

/// Relies on bincode::deserialize for Vec<Vec<u8>>: a deterministic parse of
/// the input bytes.
#[verifier::external_body]
pub(crate) fn deserialize_prefixes(b: &Vec<u8>) -> (r: Option<Vec<Vec<u8>>>)
    ensures
        match r {
            Option::Some(v) => bincode_parse_prefixes(b@) == Option::Some(views_of(v@)),
            Option::None => bincode_parse_prefixes(b@) is None,
        },
{
    bincode::deserialize(b.as_slice()).ok()
}

/// Relies on bincode::serialize for Vec<(Vec<u8>, u64)>: serializing an
/// in-memory vector of pairs into memory cannot fail; the output is a
/// function of the value alone, and bincode::deserialize parses it back.
#[verifier::external_body]
pub(crate) fn serialize_index(v: &Vec<(Vec<u8>, u64)>) -> (r: Option<Vec<u8>>)
    ensures
        r is Some,
        match r {
            Option::Some(b) => b@ == bincode_index(pair_views(v@)) && bincode_parse_index(b@)
                == Option::Some(pair_views(v@)),
            Option::None => true,
        },
{
    bincode::serialize(v).ok()
}

/// Relies on bincode::deserialize for Vec<(Vec<u8>, u64)>: a deterministic
/// parse of the input bytes.
#[verifier::external_body]
pub(crate) fn deserialize_index(b: &Vec<u8>) -> (r: Option<Vec<(Vec<u8>, u64)>>)
    ensures
        match r {
            Option::Some(v) => bincode_parse_index(b@) == Option::Some(pair_views(v@)),
            Option::None => bincode_parse_index(b@) is None,
        },
{
    bincode::deserialize(b.as_slice()).ok()
}

} // verus!
