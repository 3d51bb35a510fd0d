//! The proof-of-work admission predicate.
//!
//! A hash qualifies for a difficulty target when it has the fixed length and
//! the value of its trailing [`POW_BYTES`] bytes, read least-significant byte
//! first, lies strictly below the target.

use vstd::prelude::*;

verus! {

use crate::hashes::HASH_LEN;

/// Number of trailing bytes of a hash the admission predicate reads.
pub const POW_BYTES: usize = 16;

/// Value of a byte sequence read least-significant byte first.
pub open spec fn le_bytes_value(s: Seq<u8>) -> nat
    decreases s.len(),
{
    if s.len() == 0 {
        0
    } else {
        s[0] as nat + 256 * le_bytes_value(s.drop_first())
    }
}

/// 256 raised to `n`.
pub open spec fn pow256(n: nat) -> nat
    decreases n,
{
    if n == 0 {
        1
    } else {
        256 * pow256((n - 1) as nat)
    }
}

/// A byte sequence's value is below 256 to its length.
pub proof fn lemma_le_bytes_value_bound(s: Seq<u8>)
    ensures
        le_bytes_value(s) < pow256(s.len()),
    decreases s.len(),
{
    if s.len() > 0 {
        lemma_le_bytes_value_bound(s.drop_first());
        assert(256 * le_bytes_value(s.drop_first()) <= 256 * (pow256((s.len() - 1) as nat) - 1));
    }
}

/// Powers of 256 do not decrease with the exponent.
pub proof fn lemma_pow256_le(m: nat, n: nat)
    requires
        m <= n,
    ensures
        pow256(m) <= pow256(n),
    decreases n,
{
    if m < n {
        lemma_pow256_le(m, (n - 1) as nat);
    }
}

/// 256 to a power of at most fifteen fits in fifteen bytes.
pub proof fn lemma_pow256_small(n: nat)
    requires
        n <= 15,
    ensures
        pow256(n) <= 0x1000000000000000000000000000000,
{
    lemma_pow256_le(n, 15);
    assert(pow256(15) == 0x1000000000000000000000000000000) by {
        reveal_with_fuel(pow256, 16);
    }
}

/// The admission predicate: the hash is [`HASH_LEN`] bytes long and the value
/// of its trailing [`POW_BYTES`] bytes lies strictly below the target.
pub open spec fn spec_check_difficulty(h: Seq<u8>, difficulty: u128) -> bool {
    &&& h.len() == HASH_LEN
    &&& le_bytes_value(h.subrange((HASH_LEN - POW_BYTES) as int, HASH_LEN as int)) < difficulty
}

/// Decides whether `h` qualifies as proof of work for `difficulty`.
pub fn check_difficulty(h: &Vec<u8>, difficulty: u128) -> (r: bool)
    ensures
        r <==> spec_check_difficulty(h@, difficulty),
{
    if h.len() != HASH_LEN {
        return false;
    }
    let mut value: u128 = 0;
    let mut i: usize = HASH_LEN;
    while i > HASH_LEN - POW_BYTES
        invariant
            HASH_LEN - POW_BYTES <= i <= HASH_LEN,
            h@.len() == HASH_LEN,
            value == le_bytes_value(h@.subrange(i as int, HASH_LEN as int)),
        decreases i,
    {
        proof {
            let tail = h@.subrange(i - 1, HASH_LEN as int);
            assert(tail.drop_first() =~= h@.subrange(i as int, HASH_LEN as int));
            assert(le_bytes_value(tail) == tail[0] as nat + 256 * le_bytes_value(
                tail.drop_first(),
            ));
            lemma_le_bytes_value_bound(h@.subrange(i as int, HASH_LEN as int));
            lemma_pow256_small((HASH_LEN - i) as nat);
        }
        i -= 1;
        value = value * 256 + h[i] as u128;
    }
    proof {
        assert(h@.subrange((HASH_LEN - POW_BYTES) as int, HASH_LEN as int) == h@.subrange(
            i as int,
            HASH_LEN as int,
        ));
    }
    value < difficulty
}

} // verus!
