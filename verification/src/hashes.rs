//! Fixed-length byte hashes and lists of hashes used as sets.
//!
//! Output hashes and block hashes are plain byte vectors of length
//! [`HASH_LEN`].  A `Vec<Vec<u8>>` stands for a set of hashes; its abstraction
//! is the [`hash_set`] of the byte sequences it holds, and the executable
//! helpers here relate membership, insertion and removal on the vector to the
//! corresponding operations on that set.

use vstd::prelude::*;

verus! {

/// Number of bytes in every hash the ledger handles.
pub const HASH_LEN: usize = 32;

/// The byte sequences denoted by a list of hashes.
pub open spec fn hash_views(s: Seq<Vec<u8>>) -> Seq<Seq<u8>> {
    s.map_values(|h: Vec<u8>| h@)
}

/// The set of byte sequences denoted by a list of hashes.
pub open spec fn hash_set(s: Seq<Vec<u8>>) -> Set<Seq<u8>> {
    hash_views(s).to_set()
}

/// No two entries of the list denote the same byte sequence.
pub open spec fn distinct_hashes(s: Seq<Vec<u8>>) -> bool {
    forall|i: int, j: int|
        0 <= i < s.len() && 0 <= j < s.len() && i != j ==> s[i]@ != s[j]@
}

/// The all-zero hash, the sentinel a genesis block must link to.
pub open spec fn spec_zero_hash() -> Seq<u8> {
    Seq::new(HASH_LEN as nat, |i: int| 0u8)
}

/// Membership in the set of a hash list is witnessed by an index.
pub broadcast proof fn lemma_hash_set_contains(s: Seq<Vec<u8>>, x: Seq<u8>)
    ensures
        #[trigger] hash_set(s).contains(x) <==> (exists|i: int|
            0 <= i < s.len() && s[i]@ == x),
{
    if hash_set(s).contains(x) {
        let i = choose|i: int| 0 <= i < hash_views(s).len() && hash_views(s)[i] == x;
        assert(s[i]@ == x);
    }
    if exists|i: int| 0 <= i < s.len() && s[i]@ == x {
        let i = choose|i: int| 0 <= i < s.len() && s[i]@ == x;
        assert(hash_views(s)[i] == x);
    }
}

/// Appending a hash to a list inserts its byte sequence into the set.
pub broadcast proof fn lemma_hash_set_push(s: Seq<Vec<u8>>, x: Vec<u8>)
    ensures
        #[trigger] hash_set(s.push(x)) == hash_set(s).insert(x@),
{
    broadcast use lemma_hash_set_contains;

    assert forall|h: Seq<u8>| hash_set(s.push(x)).contains(h) implies hash_set(
        s,
    ).insert(x@).contains(h) by {
        let i = choose|i: int| 0 <= i < s.push(x).len() && s.push(x)[i]@ == h;
        if i < s.len() {
            assert(s[i]@ == h);
        }
    }
    assert forall|h: Seq<u8>| hash_set(s).insert(x@).contains(h) implies hash_set(
        s.push(x),
    ).contains(h) by {
        if h == x@ {
            assert(s.push(x)[s.len() as int]@ == h);
        } else {
            let i = choose|i: int| 0 <= i < s.len() && s[i]@ == h;
            assert(s.push(x)[i]@ == h);
        }
    }
    assert(hash_set(s.push(x)) =~= hash_set(s).insert(x@));
}

/// The empty list denotes the empty set.
pub proof fn lemma_hash_set_empty(s: Seq<Vec<u8>>)
    requires
        s.len() == 0,
    ensures
        hash_set(s) == Set::<Seq<u8>>::empty(),
{
    broadcast use lemma_hash_set_contains;

    assert(hash_set(s) =~= Set::<Seq<u8>>::empty());
}

/// A distinct list does not yet hold the byte sequence of a fresh entry.
pub proof fn lemma_distinct_push(s: Seq<Vec<u8>>, x: Vec<u8>)
    requires
        distinct_hashes(s),
        !hash_set(s).contains(x@),
    ensures
        distinct_hashes(s.push(x)),
{
    broadcast use lemma_hash_set_contains;

    let t = s.push(x);
    assert forall|i: int, j: int|
        0 <= i < t.len() && 0 <= j < t.len() && i != j implies t[i]@ != t[j]@ by {
        if i < s.len() && j < s.len() {
            assert(s[i]@ != s[j]@);
        } else if i < s.len() && j == s.len() {
            assert(t[j]@ == x@);
            assert(s[i]@ != x@);
        } else if j < s.len() && i == s.len() {
            assert(t[i]@ == x@);
            assert(s[j]@ != x@);
        }
    }
}

/// A distinct list has as many entries as its set has elements, and the set
/// of any list is finite.
pub proof fn lemma_hash_set_len(s: Seq<Vec<u8>>)
    ensures
        hash_set(s).finite(),
        distinct_hashes(s) ==> hash_set(s).len() == s.len(),
    decreases s.len(),
{
    broadcast use lemma_hash_set_contains;
    broadcast use lemma_hash_set_push;

    if s.len() == 0 {
        lemma_hash_set_empty(s);
    } else {
        let rest = s.drop_last();
        lemma_hash_set_len(rest);
        assert(s =~= rest.push(s.last()));
        assert(hash_set(s) == hash_set(rest).insert(s.last()@));
        if distinct_hashes(s) {
            assert(distinct_hashes(rest));
            assert(!hash_set(rest).contains(s.last()@)) by {
                if hash_set(rest).contains(s.last()@) {
                    let i = choose|i: int| 0 <= i < rest.len() && rest[i]@ == s.last()@;
                    assert(s[i]@ == s[s.len() - 1]@);
                }
            }
        }
    }
}

/// Byte-for-byte equality of two hashes.
pub fn hashes_equal(a: &Vec<u8>, b: &Vec<u8>) -> (r: bool)
    ensures
        r <==> a@ == b@,
{
    if a.len() != b.len() {
        return false;
    }
    let n = a.len();
    let mut i: usize = 0;
    while i < n
        invariant
            0 <= i <= n,
            a@.len() == n,
            b@.len() == n,
            forall|j: int| 0 <= j < i ==> a@[j] == b@[j],
        decreases n - i,
    {
        if a[i] != b[i] {
            return false;
        }
        i += 1;
    }
    proof {
        assert(a@ =~= b@);
    }
    true
}

/// Whether a hash is the all-zero sentinel.
pub fn is_zero_hash(h: &Vec<u8>) -> (r: bool)
    ensures
        r <==> h@ == spec_zero_hash(),
{
    if h.len() != HASH_LEN {
        return false;
    }
    let mut i: usize = 0;
    while i < HASH_LEN
        invariant
            0 <= i <= HASH_LEN,
            h@.len() == HASH_LEN,
            forall|j: int| 0 <= j < i ==> h@[j] == 0u8,
        decreases HASH_LEN - i,
    {
        if h[i] != 0 {
            return false;
        }
        i += 1;
    }
    proof {
        assert(h@ =~= spec_zero_hash());
    }
    true
}

/// Copy of a hash.
pub fn clone_hash(h: &Vec<u8>) -> (r: Vec<u8>)
    ensures
        r@ == h@,
{
    let mut r: Vec<u8> = Vec::new();
    let mut i: usize = 0;
    while i < h.len()
        invariant
            0 <= i <= h@.len(),
            r@ =~= h@.subrange(0, i as int),
        decreases h@.len() - i,
    {
        r.push(h[i]);
        i += 1;
    }
    proof {
        assert(r@ =~= h@);
    }
    r
}

/// Membership of a hash in a list, by byte content.
pub fn contains_hash(v: &Vec<Vec<u8>>, h: &Vec<u8>) -> (r: bool)
    ensures
        r <==> hash_set(v@).contains(h@),
{
    broadcast use lemma_hash_set_contains;

    let mut i: usize = 0;
    while i < v.len()
        invariant
            0 <= i <= v@.len(),
            forall|j: int| 0 <= j < i ==> v@[j]@ != h@,
        decreases v@.len() - i,
    {
        if hashes_equal(&v[i], h) {
            proof {
                lemma_hash_set_contains(v@, h@);
                assert(v@[i as int]@ == h@);
            }
            return true;
        }
        i += 1;
    }
    proof {
        lemma_hash_set_contains(v@, h@);
        if hash_set(v@).contains(h@) {
            let j = choose|j: int| 0 <= j < v@.len() && v@[j]@ == h@;
            assert(v@[j]@ != h@);
        }
    }
    false
}

/// Every hash of `hs` is present in `v`.
pub fn all_hashes_in(hs: &Vec<Vec<u8>>, v: &Vec<Vec<u8>>) -> (r: bool)
    ensures
        r <==> hash_set(hs@).subset_of(hash_set(v@)),
{
    broadcast use lemma_hash_set_contains;

    let mut i: usize = 0;
    while i < hs.len()
        invariant
            0 <= i <= hs@.len(),
            forall|j: int| 0 <= j < i ==> hash_set(v@).contains(#[trigger] hs@[j]@),
        decreases hs@.len() - i,
    {
        if !contains_hash(v, &hs[i]) {
            proof {
                lemma_hash_set_contains(hs@, hs@[i as int]@);
                assert(hash_set(hs@).contains(hs@[i as int]@));
            }
            return false;
        }
        i += 1;
    }
    proof {
        assert forall|x: Seq<u8>| hash_set(hs@).contains(x) implies hash_set(v@).contains(x) by {
            lemma_hash_set_contains(hs@, x);
            let j = choose|j: int| 0 <= j < hs@.len() && hs@[j]@ == x;
            assert(hash_set(v@).contains(hs@[j]@));
        }
    }
    true
}

/// Some hash of `hs` is present in `v`.
pub fn any_hash_in(hs: &Vec<Vec<u8>>, v: &Vec<Vec<u8>>) -> (r: bool)
    ensures
        r <==> !hash_set(hs@).disjoint(hash_set(v@)),
{
    broadcast use lemma_hash_set_contains;

    let mut i: usize = 0;
    while i < hs.len()
        invariant
            0 <= i <= hs@.len(),
            forall|j: int| 0 <= j < i ==> !hash_set(v@).contains(#[trigger] hs@[j]@),
        decreases hs@.len() - i,
    {
        if contains_hash(v, &hs[i]) {
            proof {
                lemma_hash_set_contains(hs@, hs@[i as int]@);
                assert(hash_set(hs@).contains(hs@[i as int]@));
            }
            return true;
        }
        i += 1;
    }
    proof {
        assert forall|x: Seq<u8>| hash_set(hs@).contains(x) implies !hash_set(v@).contains(x) by {
            lemma_hash_set_contains(hs@, x);
            let j = choose|j: int| 0 <= j < hs@.len() && hs@[j]@ == x;
            assert(!hash_set(v@).contains(hs@[j]@));
        }
    }
    false
}

/// Add to `dst` every hash of `src` that it does not already hold.
pub fn insert_hashes(dst: &mut Vec<Vec<u8>>, src: &Vec<Vec<u8>>)
    ensures
        hash_set(final(dst)@) == hash_set(old(dst)@).union(hash_set(src@)),
        distinct_hashes(old(dst)@) ==> distinct_hashes(final(dst)@),
{
    broadcast use lemma_hash_set_contains;
    broadcast use lemma_hash_set_push;

    let mut i: usize = 0;
    while i < src.len()
        invariant
            0 <= i <= src@.len(),
            hash_set(dst@) == hash_set(old(dst)@).union(hash_set(src@.take(i as int))),
            distinct_hashes(old(dst)@) ==> distinct_hashes(dst@),
        decreases src@.len() - i,
    {
        let ghost prev = dst@;
        let present = contains_hash(dst, &src[i]);
        if !present {
            let c = clone_hash(&src[i]);
            proof {
                if distinct_hashes(prev) {
                    lemma_distinct_push(prev, c);
                }
                lemma_hash_set_push(prev, c);
            }
            dst.push(c);
        }
        proof {
            lemma_hash_set_push(src@.take(i as int), src@[i as int]);
            assert(src@.take(i + 1) =~= src@.take(i as int).push(src@[i as int]));
            assert(hash_set(src@.take(i + 1)) == hash_set(src@.take(i as int)).insert(
                src@[i as int]@,
            ));
            if present {
                assert(hash_set(dst@) =~= hash_set(old(dst)@).union(hash_set(src@.take(i + 1))));
            } else {
                assert(hash_set(dst@) == hash_set(prev).insert(src@[i as int]@));
                assert(hash_set(dst@) =~= hash_set(old(dst)@).union(hash_set(src@.take(i + 1))));
            }
        }
        i += 1;
    }
    proof {
        assert(src@.take(src@.len() as int) =~= src@);
    }
}

/// Remove from `dst` every hash present in `gone`.
pub fn remove_hashes(dst: &mut Vec<Vec<u8>>, gone: &Vec<Vec<u8>>)
    ensures
        hash_set(final(dst)@) == hash_set(old(dst)@).difference(hash_set(gone@)),
        distinct_hashes(old(dst)@) ==> distinct_hashes(final(dst)@),
{
    broadcast use lemma_hash_set_contains;
    broadcast use lemma_hash_set_push;

    let mut kept: Vec<Vec<u8>> = Vec::new();
    let mut i: usize = 0;
    while i < dst.len()
        invariant
            0 <= i <= dst@.len(),
            dst@ == old(dst)@,
            hash_set(kept@) == hash_set(dst@.take(i as int)).difference(hash_set(gone@)),
            hash_set(kept@).subset_of(hash_set(dst@.take(i as int))),
            distinct_hashes(dst@) ==> distinct_hashes(kept@),
        decreases dst@.len() - i,
    {
        proof {
            lemma_hash_set_push(dst@.take(i as int), dst@[i as int]);
            assert(dst@.take(i + 1) =~= dst@.take(i as int).push(dst@[i as int]));
            assert(hash_set(dst@.take(i + 1)) == hash_set(dst@.take(i as int)).insert(
                dst@[i as int]@,
            ));
        }
        if !contains_hash(gone, &dst[i]) {
            let c = clone_hash(&dst[i]);
            proof {
                lemma_hash_set_push(kept@, c);
                if distinct_hashes(dst@) {
                    assert(!hash_set(dst@.take(i as int)).contains(c@)) by {
                        lemma_hash_set_contains(dst@.take(i as int), c@);
                        if hash_set(dst@.take(i as int)).contains(c@) {
                            let j = choose|j: int|
                                0 <= j < i && dst@.take(i as int)[j]@ == c@;
                            assert(dst@[j]@ == dst@[i as int]@);
                        }
                    }
                    lemma_distinct_push(kept@, c);
                }
            }
            kept.push(c);
            proof {
                assert(hash_set(kept@) =~= hash_set(dst@.take(i + 1)).difference(
                    hash_set(gone@),
                ));
                assert(hash_set(kept@).subset_of(hash_set(dst@.take(i + 1))));
            }
        } else {
            proof {
                assert(hash_set(kept@) =~= hash_set(dst@.take(i + 1)).difference(
                    hash_set(gone@),
                ));
                assert(hash_set(kept@).subset_of(hash_set(dst@.take(i + 1))));
            }
        }
        i += 1;
    }
    proof {
        assert(dst@.take(dst@.len() as int) =~= dst@);
    }
    *dst = kept;
}

} // verus!
