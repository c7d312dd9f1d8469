//! Small verified helpers over byte vectors.
use vstd::prelude::*;

verus! {

/// The views of a sequence of byte vectors.
pub open spec fn views_of(s: Seq<Vec<u8>>) -> Seq<Seq<u8>> {
    s.map_values(|v: Vec<u8>| v@)
}

/// Appends all bytes of `src` to `dst`.
pub fn push_bytes(dst: &mut Vec<u8>, src: &Vec<u8>)
    ensures
        final(dst)@ == old(dst)@ + src@,
{
    let mut i: usize = 0;
    while i < src.len()
        invariant
            i <= src@.len(),
            dst@ == old(dst)@ + src@.take(i as int),
        decreases src@.len() - i,
    {
        proof {
            assert(src@.take(i + 1) =~= src@.take(i as int).push(src@[i as int]));
        }
        dst.push(src[i]);
        i = i + 1;
    }
    proof {
        assert(src@.take(src@.len() as int) =~= src@);
    }
}

/// Copies a byte vector.
pub fn copy_bytes(src: &Vec<u8>) -> (r: Vec<u8>)
    ensures
        r@ == src@,
{
    let mut r: Vec<u8> = Vec::new();
    push_bytes(&mut r, src);
    proof {
        assert(r@ =~= src@);
    }
    r
}

/// Byte-vector equality, decided element by element.
pub fn bytes_eq(a: &Vec<u8>, b: &Vec<u8>) -> (r: bool)
    ensures
        r <==> a@ == b@,
{
    if a.len() != b.len() {
        proof {
            assert(a@ != b@);
        }
        return false;
    }
    let mut i: usize = 0;
    while i < a.len()
        invariant
            i <= a@.len(),
            a@.len() == b@.len(),
            forall|j: int| 0 <= j < i ==> a@[j] == b@[j],
        decreases a@.len() - i,
    {
        if a[i] != b[i] {
            proof {
                assert(a@[i as int] != b@[i as int]);
            }
            return false;
        }
        i = i + 1;
    }
    proof {
        assert(a@ =~= b@);
    }
    true
}

/// Whether `x` occurs among the byte vectors of `v`.
pub fn contains_bytes(v: &Vec<Vec<u8>>, x: &Vec<u8>) -> (r: bool)
    ensures
        r <==> views_of(v@).contains(x@),
{
    let mut i: usize = 0;
    while i < v.len()
        invariant
            i <= v@.len(),
            forall|j: int| 0 <= j < i ==> views_of(v@)[j] != x@,
        decreases v@.len() - i,
    {
        if bytes_eq(&v[i], x) {
            proof {
                assert(views_of(v@)[i as int] == x@);
            }
            return true;
        }
        i = i + 1;
    }
    proof {
        assert(!views_of(v@).contains(x@));
    }
    false
}

/// Looks a key up in an association sequence; the first match wins.
pub open spec fn assoc_get<T>(es: Seq<(Seq<u8>, T)>, k: Seq<u8>) -> Option<T>
    decreases es.len(),
{
    if es.len() == 0 {
        Option::None
    } else if es[0].0 == k {
        Option::Some(es[0].1)
    } else {
        assoc_get(es.skip(1), k)
    }
}

/// No two entries of the association sequence share a key.
pub open spec fn assoc_unique<T>(es: Seq<(Seq<u8>, T)>) -> bool {
    forall|i: int, j: int| 0 <= i < j < es.len() ==> (#[trigger] es[i]).0 != (#[trigger] es[j]).0
}

/// Whether the byte vectors of `v` are pairwise distinct.
pub fn distinct_bytes(v: &Vec<Vec<u8>>) -> (r: bool)
    ensures
        r <==> (forall|i: int, j: int|
            0 <= i < j < v@.len() ==> views_of(v@)[i] != views_of(v@)[j]),
{
    let mut i: usize = 0;
    while i < v.len()
        invariant
            i <= v@.len(),
            forall|a: int, b: int|
                0 <= a < b < v@.len() && a < i ==> views_of(v@)[a] != views_of(v@)[b],
        decreases v@.len() - i,
    {
        let mut j: usize = i + 1;
        while j < v.len()
            invariant
                i < j <= v@.len(),
                forall|b: int| i < b < j ==> views_of(v@)[b] != views_of(v@)[i as int],
            decreases v@.len() - j,
        {
            if bytes_eq(&v[i], &v[j]) {
                proof {
                    assert(views_of(v@)[i as int] == views_of(v@)[j as int]);
                }
                return false;
            }
            j = j + 1;
        }
        i = i + 1;
    }
    true
}

/// A successful lookup means the key occurs somewhere.
pub proof fn lemma_assoc_some_index<T>(es: Seq<(Seq<u8>, T)>, k: Seq<u8>)
    requires
        assoc_get(es, k) is Some,
    ensures
        exists|j: int| 0 <= j < es.len() && (#[trigger] es[j]).0 == k,
    decreases es.len(),
{
    if es.len() > 0 {
        if es[0].0 == k {
        } else {
            lemma_assoc_some_index(es.skip(1), k);
            let j = choose|j: int| 0 <= j < es.skip(1).len() && (#[trigger] es.skip(1)[j]).0 == k;
            assert(es[j + 1].0 == k);
        }
    }
}

/// Membership in a sequence extended by one element.
pub proof fn lemma_contains_push<T>(s: Seq<T>, x: T, y: T)
    ensures
        s.push(x).contains(y) <==> (s.contains(y) || y == x),
{
    if s.push(x).contains(y) {
        let w = choose|w: int| 0 <= w < s.push(x).len() && s.push(x)[w] == y;
        if w < s.len() {
            assert(s[w] == y);
        }
    }
    if s.contains(y) {
        let w = choose|w: int| 0 <= w < s.len() && s[w] == y;
        assert(s.push(x)[w] == y);
    }
    if y == x {
        assert(s.push(x)[s.len() as int] == y);
    }
}

/// A successful lookup returns the value of the key's first occurrence.
pub proof fn lemma_assoc_first_entry<T>(es: Seq<(Seq<u8>, T)>, k: Seq<u8>)
    requires
        assoc_get(es, k) is Some,
    ensures
        exists|t: int|
            0 <= t < es.len() && (#[trigger] es[t]).0 == k && assoc_get(es, k) == Option::Some(
                es[t].1,
            ),
    decreases es.len(),
{
    if es.len() > 0 {
        if es[0].0 == k {
            assert(es[0].0 == k && assoc_get(es, k) == Option::Some(es[0].1));
        } else {
            lemma_assoc_first_entry(es.skip(1), k);
            let t = choose|t: int|
                0 <= t < es.skip(1).len() && (#[trigger] es.skip(1)[t]).0 == k && assoc_get(
                    es.skip(1),
                    k,
                ) == Option::Some(es.skip(1)[t].1);
            assert(es[t + 1] == es.skip(1)[t]);
            assert(es[t + 1].0 == k && assoc_get(es, k) == Option::Some(es[t + 1].1));
        }
    }
}

/// A failed lookup means the key occurs nowhere.
pub proof fn lemma_assoc_none_pointwise<T>(es: Seq<(Seq<u8>, T)>, k: Seq<u8>)
    requires
        assoc_get(es, k) is None,
    ensures
        forall|j: int| 0 <= j < es.len() ==> (#[trigger] es[j]).0 != k,
    decreases es.len(),
{
    if es.len() > 0 {
        lemma_assoc_none_pointwise(es.skip(1), k);
        assert(forall|j: int| 1 <= j < es.len() ==> es[j] == es.skip(1)[j - 1]);
    }
}

/// A key absent from every entry makes the lookup fail.
pub proof fn lemma_assoc_not_found<T>(es: Seq<(Seq<u8>, T)>, k: Seq<u8>)
    requires
        forall|j: int| 0 <= j < es.len() ==> (#[trigger] es[j]).0 != k,
    ensures
        assoc_get(es, k) is None,
    decreases es.len(),
{
    if es.len() > 0 {
        lemma_assoc_not_found(es.skip(1), k);
    }
}

/// A first match at index `i` determines the lookup result.
pub proof fn lemma_assoc_found<T>(es: Seq<(Seq<u8>, T)>, k: Seq<u8>, i: int)
    requires
        0 <= i < es.len(),
        es[i].0 == k,
        forall|j: int| 0 <= j < i ==> (#[trigger] es[j]).0 != k,
    ensures
        assoc_get(es, k) == Option::Some(es[i].1),
    decreases i,
{
    if i > 0 {
        lemma_assoc_found(es.skip(1), k, i - 1);
    }
}

/// Updating the value at the first occurrence of a key changes that key's
/// binding and no other.
pub proof fn lemma_assoc_update<T>(es: Seq<(Seq<u8>, T)>, i: int, v: T)
    requires
        0 <= i < es.len(),
        forall|j: int| 0 <= j < i ==> (#[trigger] es[j]).0 != es[i].0,
    ensures
        forall|p: Seq<u8>|
            #[trigger] assoc_get(es.update(i, (es[i].0, v)), p) == if p == es[i].0 {
                Option::Some(v)
            } else {
                assoc_get(es, p)
            },
    decreases i,
{
    let es2 = es.update(i, (es[i].0, v));
    if i == 0 {
        assert forall|p: Seq<u8>| true implies #[trigger] assoc_get(es2, p) == if p == es[i].0 {
            Option::Some(v)
        } else {
            assoc_get(es, p)
        } by {
            assert(es2[0] == (es[0].0, v));
            assert(es2.skip(1) =~= es.skip(1));
        }
    } else {
        assert(forall|j: int| 0 <= j < es.skip(1).len() ==> #[trigger] es.skip(1)[j] == es[j + 1]);
        lemma_assoc_update(es.skip(1), i - 1, v);
        let inner = es.skip(1).update(i - 1, (es.skip(1)[i - 1].0, v));
        assert forall|p: Seq<u8>| true implies #[trigger] assoc_get(es2, p) == if p == es[i].0 {
            Option::Some(v)
        } else {
            assoc_get(es, p)
        } by {
            assert(es2[0] == es[0]);
            assert(es2.skip(1) =~= inner);
            assert(es.skip(1)[i - 1] == es[i]);
            assert(assoc_get(inner, p) == if p == es[i].0 {
                Option::Some(v)
            } else {
                assoc_get(es.skip(1), p)
            });
            if es[0].0 == p {
                assert(assoc_get(es2, p) == Option::Some(es2[0].1));
                assert(assoc_get(es, p) == Option::Some(es[0].1));
            } else {
                assert(assoc_get(es2, p) == assoc_get(es2.skip(1), p));
                assert(assoc_get(es, p) == assoc_get(es.skip(1), p));
            }
        }
    }
}

/// Appending a fresh key binds it and changes no other binding.
pub proof fn lemma_assoc_push<T>(es: Seq<(Seq<u8>, T)>, k: Seq<u8>, v: T)
    requires
        forall|j: int| 0 <= j < es.len() ==> (#[trigger] es[j]).0 != k,
    ensures
        forall|p: Seq<u8>|
            #[trigger] assoc_get(es.push((k, v)), p) == if p == k {
                Option::Some(v)
            } else {
                assoc_get(es, p)
            },
    decreases es.len(),
{
    if es.len() == 0 {
        assert forall|p: Seq<u8>| true implies #[trigger] assoc_get(es.push((k, v)), p) == if p
            == k {
            Option::Some(v)
        } else {
            assoc_get(es, p)
        } by {
            assert(es.push((k, v))[0] == (k, v));
            assert(es.push((k, v)).skip(1) =~= es);
            if p != k {
                assert(assoc_get(es.push((k, v)), p) == assoc_get(es, p));
            }
        }
    } else {
        assert(forall|j: int| 0 <= j < es.skip(1).len() ==> #[trigger] es.skip(1)[j] == es[j + 1]);
        lemma_assoc_push(es.skip(1), k, v);
        let es2 = es.push((k, v));
        assert forall|p: Seq<u8>| true implies #[trigger] assoc_get(es2, p) == if p == k {
            Option::Some(v)
        } else {
            assoc_get(es, p)
        } by {
            assert(es2[0] == es[0]);
            assert(es2.skip(1) =~= es.skip(1).push((k, v)));
            assert(assoc_get(es.skip(1).push((k, v)), p) == if p == k {
                Option::Some(v)
            } else {
                assoc_get(es.skip(1), p)
            });
            if es[0].0 == p {
                assert(assoc_get(es2, p) == Option::Some(es2[0].1));
                assert(assoc_get(es, p) == Option::Some(es[0].1));
            } else {
                assert(assoc_get(es2, p) == assoc_get(es2.skip(1), p));
                assert(assoc_get(es, p) == assoc_get(es.skip(1), p));
            }
        }
    }
}

} // verus!
