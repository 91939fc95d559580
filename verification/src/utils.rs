//! Hashing of hostname labels and the sorted hash sets built from the hashes.
use vstd::prelude::*;
use vstd::utf8::encode_utf8;

verus! {

/// The value under which a hostname or an entity is stored and looked up.
pub type Hash = u64;

/// Initial state of the hash (the 64-bit FNV offset basis).
pub const HASH_OFFSET: u64 = 0xcbf29ce484222325;

/// Multiplier of the hash (the 64-bit FNV prime).
pub const HASH_PRIME: u64 = 0x100000001b3;

/// One round of the hash: mix in a byte, then multiply modulo 2^64.
pub open spec fn hash_step(h: u64, b: u8) -> u64 {
    (h ^ (b as u64)).wrapping_mul(HASH_PRIME)
}

/// FNV-1a over a byte sequence, first byte first.
pub open spec fn hash_bytes(bytes: Seq<u8>) -> u64
    decreases bytes.len(),
{
    if bytes.len() == 0 {
        HASH_OFFSET
    } else {
        hash_step(hash_bytes(bytes.drop_last()), bytes.last())
    }
}

/// The hash of a text is the hash of its UTF-8 encoding.
pub open spec fn spec_fast_hash(s: Seq<char>) -> u64 {
    hash_bytes(encode_utf8(s))
}

/// Hashes `input`. The rule parser and the request matcher both go through
/// this function, so equal texts always meet under equal hashes.
pub fn fast_hash(input: &str) -> (h: Hash)
    ensures
        h == spec_fast_hash(input@),
{
    let bytes = input.as_bytes();
    let mut h: u64 = HASH_OFFSET;
    let mut i: usize = 0;
    while i < bytes.len()
        invariant
            i <= bytes@.len(),
            h == hash_bytes(bytes@.take(i as int)),
        decreases bytes@.len() - i,
    {
        proof {
            assert(bytes@.take(i + 1).drop_last() == bytes@.take(i as int));
        }
        h = (h ^ (bytes[i] as u64)).wrapping_mul(HASH_PRIME);
        i += 1;
    }
    proof {
        assert(bytes@.take(i as int) == bytes@);
    }
    h
}

/// Strictly ascending: sorted, and nothing occurs twice.
pub open spec fn strictly_sorted(s: Seq<u64>) -> bool {
    forall|i: int, j: int| 0 <= i < j < s.len() ==> s[i] < s[j]
}

/// `set` is the sorted set of the values in `values`: absent when there are
/// none, else strictly ascending with exactly the values of `values`.
pub open spec fn is_sorted_set_of(set: Option<Seq<u64>>, values: Seq<u64>) -> bool {
    if values.len() == 0 {
        set is None
    } else {
        &&& set is Some
        &&& strictly_sorted(set->0)
        &&& set->0.to_set() == values.to_set()
    }
}

/// Two sequences with a common value.
pub open spec fn intersects(a: Seq<u64>, b: Seq<u64>) -> bool {
    exists|x: u64| a.contains(x) && b.contains(x)
}

/// A strictly ascending sequence is determined by the set of its values.
pub proof fn lemma_strictly_sorted_unique(a: Seq<u64>, b: Seq<u64>)
    requires
        strictly_sorted(a),
        strictly_sorted(b),
        a.to_set() == b.to_set(),
    ensures
        a == b,
    decreases a.len(),
{
    if a.len() == 0 {
        if b.len() > 0 {
            assert(b.to_set().contains(b[0]));
        }
    } else {
        // Both end in the greatest value; what is left has equal values too.
        let m = a.last();
        assert(a.to_set().contains(m));
        assert(b.to_set().contains(b.last()));
        let a1 = a.drop_last();
        let b1 = b.drop_last();
        assert forall|x: u64| a1.to_set().contains(x) == b1.to_set().contains(x) by {
            if a1.contains(x) {
                assert(a.to_set().contains(x));
                let u = choose|u: int| 0 <= u < b.len() && b[u] == x;
                assert(b1[u] == x);
            }
            if b1.contains(x) {
                assert(b.to_set().contains(x));
                let u = choose|u: int| 0 <= u < a.len() && a[u] == x;
                assert(a1[u] == x);
            }
        }
        assert(a1.to_set() =~= b1.to_set());
        lemma_strictly_sorted_unique(a1, b1);
        assert(a =~= a1.push(m));
    }
}

/// Adds `x` to the sorted set `v`, keeping it strictly ascending.
pub fn insert_sorted(v: &mut Vec<Hash>, x: Hash)
    requires
        strictly_sorted(old(v)@),
    ensures
        strictly_sorted(final(v)@),
        final(v)@.to_set() == old(v)@.to_set().insert(x),
{
    let mut k: usize = 0;
    while k < v.len() && v[k] < x
        invariant
            k <= v@.len(),
            v@ == old(v)@,
            forall|i: int| 0 <= i < k ==> v@[i] < x,
        decreases v@.len() - k,
    {
        k += 1;
    }
    if !(k < v.len() && v[k] == x) {
        let ghost before = v@;
        v.insert(k, x);
        proof {
            assert forall|y: u64| v@.to_set().contains(y) == before.to_set().insert(x).contains(
                y,
            ) by {
                if before.contains(y) {
                    let t = choose|t: int| 0 <= t < before.len() && before[t] == y;
                    if t < k {
                        assert(v@[t] == y);
                    } else {
                        assert(v@[t + 1] == y);
                    }
                }
                if y == x {
                    assert(v@[k as int] == x);
                }
            }
        }
    }
}

/// Whether two sorted sets share a value, by one merge pass over both.
pub fn sorted_intersects(a: &[Hash], b: &[Hash]) -> (found: bool)
    requires
        strictly_sorted(a@),
        strictly_sorted(b@),
    ensures
        found == intersects(a@, b@),
{
    let mut i: usize = 0;
    let mut j: usize = 0;
    while i < a.len() && j < b.len()
        invariant
            i <= a@.len(),
            j <= b@.len(),
            strictly_sorted(a@),
            strictly_sorted(b@),
            forall|p: int, q: int| 0 <= p < i && 0 <= q < b@.len() ==> a@[p] != b@[q],
            forall|p: int, q: int| 0 <= p < a@.len() && 0 <= q < j ==> a@[p] != b@[q],
        decreases a@.len() - i + b@.len() - j,
    {
        if a[i] == b[j] {
            proof {
                assert(a@.contains(a@[i as int]));
            }
            return true;
        } else if a[i] < b[j] {
            i += 1;
        } else {
            j += 1;
        }
    }
    false
}

/// Tests whether `v` is strictly ascending.
pub fn is_strictly_sorted(v: &[Hash]) -> (sorted: bool)
    ensures
        sorted == strictly_sorted(v@),
{
    let mut i: usize = 1;
    while i < v.len()
        invariant
            1 <= i,
            forall|p: int, q: int| 0 <= p < q < i && q < v@.len() ==> v@[p] < v@[q],
        decreases v@.len() - i,
    {
        if v[i - 1] >= v[i] {
            return false;
        }
        proof {
            assert forall|p: int, q: int| 0 <= p < q < i + 1 && q < v@.len() implies v@[p] < v@[q] by {
                if q == i && p < i - 1 {
                    assert(v@[p] < v@[i - 1]);
                }
            }
        }
        i += 1;
    }
    true
}

} // verus!
