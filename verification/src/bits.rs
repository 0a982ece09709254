//! Packing an ordered boolean vector into a row index, and the
//! binary-counter increment used to enumerate all combinations.
//!
//! The convention throughout the crate: the first bit of a vector is the
//! most significant, so a vector is read as a big-endian binary number.

use vstd::prelude::*;

verus! {

/// 2 to the power `k`.
pub open spec fn pow2(k: nat) -> nat
    decreases k,
{
    if k == 0 {
        1
    } else {
        2 * pow2((k - 1) as nat)
    }
}

/// The row index a boolean vector denotes: big-endian, first bit most
/// significant.
pub open spec fn bits_index(s: Seq<bool>) -> nat
    decreases s.len(),
{
    if s.len() == 0 {
        0
    } else {
        2 * bits_index(s.drop_last()) + (if s.last() {
            1nat
        } else {
            0nat
        })
    }
}

/// The `k`-bit big-endian representation of `j mod 2^k`.
pub open spec fn bits_of(j: nat, k: nat) -> Seq<bool>
    decreases k,
{
    if k == 0 {
        Seq::empty()
    } else {
        bits_of(j / 2, (k - 1) as nat).push(j % 2 == 1)
    }
}

pub proof fn lemma_pow2_pos(k: nat)
    ensures
        pow2(k) >= 1,
    decreases k,
{
    if k > 0 {
        lemma_pow2_pos((k - 1) as nat);
    }
}

pub proof fn lemma_pow2_le(a: nat, b: nat)
    requires
        a <= b,
    ensures
        pow2(a) <= pow2(b),
    decreases b,
{
    if a < b {
        lemma_pow2_le(a, (b - 1) as nat);
    }
}

pub proof fn lemma_bits_index_bound(s: Seq<bool>)
    ensures
        bits_index(s) < pow2(s.len()),
    decreases s.len(),
{
    if s.len() > 0 {
        lemma_bits_index_bound(s.drop_last());
    }
}

/// A vector denotes index 0 exactly when every bit is false.
pub proof fn lemma_bits_index_zero(s: Seq<bool>)
    ensures
        bits_index(s) == 0 <==> (forall|j: int| 0 <= j < s.len() ==> !s[j]),
    decreases s.len(),
{
    if s.len() > 0 {
        lemma_bits_index_zero(s.drop_last());
        if bits_index(s) == 0 {
            assert forall|j: int| 0 <= j < s.len() implies !s[j] by {
                if j < s.len() - 1 {
                    assert(s.drop_last()[j] == s[j]);
                }
            }
        } else {
            if forall|j: int| 0 <= j < s.len() ==> !s[j] {
                assert forall|j: int| 0 <= j < s.drop_last().len() implies !s.drop_last()[j] by {
                    assert(s.drop_last()[j] == s[j]);
                }
                assert(!s.last());
            }
        }
    }
}

/// A vector denotes the last index exactly when every bit is true.
pub proof fn lemma_bits_index_max(s: Seq<bool>)
    ensures
        bits_index(s) == pow2(s.len()) - 1 <==> (forall|j: int| 0 <= j < s.len() ==> s[j]),
    decreases s.len(),
{
    lemma_bits_index_bound(s);
    if s.len() > 0 {
        lemma_bits_index_max(s.drop_last());
        lemma_bits_index_bound(s.drop_last());
        if bits_index(s) == pow2(s.len()) - 1 {
            assert forall|j: int| 0 <= j < s.len() implies s[j] by {
                if j < s.len() - 1 {
                    assert(s.drop_last()[j] == s[j]);
                }
            }
        } else {
            if forall|j: int| 0 <= j < s.len() ==> s[j] {
                assert forall|j: int| 0 <= j < s.drop_last().len() implies s.drop_last()[j] by {
                    assert(s.drop_last()[j] == s[j]);
                }
                assert(s.last());
            }
        }
    }
}

/// Round trip: a vector is the bits of its own index.
pub proof fn lemma_bits_index_of(s: Seq<bool>)
    ensures
        bits_of(bits_index(s), s.len()) =~= s,
    decreases s.len(),
{
    if s.len() > 0 {
        lemma_bits_index_of(s.drop_last());
        let j = bits_index(s);
        assert(j / 2 == bits_index(s.drop_last())) by {
            if s.last() {
                assert(j == 2 * bits_index(s.drop_last()) + 1);
            } else {
                assert(j == 2 * bits_index(s.drop_last()));
            }
        }
        assert(j % 2 == 1 <==> s.last());
        assert(bits_of(j, s.len()) =~= bits_of(j / 2, (s.len() - 1) as nat).push(j % 2 == 1));
    }
}

/// Flipping the lowest false bit to true and clearing everything after it
/// adds exactly one to the denoted index.
proof fn lemma_increment(s: Seq<bool>, i: int)
    requires
        0 <= i < s.len(),
        !s[i],
        forall|j: int| i < j < s.len() ==> s[j],
    ensures
        bits_index(s.take(i) + seq![true] + Seq::new((s.len() - i - 1) as nat, |_j: int| false))
            == bits_index(s) + 1,
    decreases s.len(),
{
    let t = s.take(i) + seq![true] + Seq::new((s.len() - i - 1) as nat, |_j: int| false);
    if i == s.len() - 1 {
        assert(t.drop_last() =~= s.drop_last());
        assert(t.last());
        assert(!s.last());
    } else {
        assert(s.drop_last()[i] == s[i]);
        assert(forall|j: int| i < j < s.drop_last().len() ==> s.drop_last()[j] == s[j]);
        lemma_increment(s.drop_last(), i);
        let t2 = s.drop_last().take(i) + seq![true] + Seq::new(
            (s.drop_last().len() - i - 1) as nat,
            |_j: int| false,
        );
        assert(t.drop_last() =~= t2);
        assert(!t.last());
        assert(s.last());
    }
}

/// Copies a boolean vector.
pub fn clone_bools(v: &Vec<bool>) -> (r: Vec<bool>)
    ensures
        r@ == v@,
{
    let mut r: Vec<bool> = Vec::new();
    let mut i: usize = 0;
    while i < v.len()
        invariant
            0 <= i <= v@.len(),
            r@ == v@.take(i as int),
        decreases v@.len() - i,
    {
        r.push(v[i]);
        proof {
            assert(r@ =~= v@.take(i + 1));
        }
        i = i + 1;
    }
    proof {
        assert(v@.take(v@.len() as int) =~= v@);
    }
    r
}

/// Computes `2^k`, or reports that it does not fit in a `usize`.
pub fn pow2_checked(k: usize) -> (r: Option<usize>)
    ensures
        match r {
            Some(p) => p == pow2(k as nat),
            None => pow2(k as nat) > usize::MAX,
        },
{
    let mut p: usize = 1;
    let mut i: usize = 0;
    while i < k
        invariant
            0 <= i <= k,
            p == pow2(i as nat),
        decreases k - i,
    {
        if p > usize::MAX / 2 {
            proof {
                lemma_pow2_le((i + 1) as nat, k as nat);
            }
            return None;
        }
        p = 2 * p;
        i = i + 1;
    }
    Some(p)
}

/// Computes the row index a boolean vector denotes.
pub fn bools_to_index(bits: &Vec<bool>) -> (index: usize)
    requires
        pow2(bits@.len()) <= usize::MAX,
    ensures
        index == bits_index(bits@),
{
    let mut index: usize = 0;
    let mut i: usize = 0;
    while i < bits.len()
        invariant
            0 <= i <= bits@.len(),
            pow2(bits@.len()) <= usize::MAX,
            index == bits_index(bits@.take(i as int)),
        decreases bits@.len() - i,
    {
        proof {
            lemma_bits_index_bound(bits@.take(i as int));
            lemma_pow2_le((i + 1) as nat, bits@.len());
            assert(bits@.take(i + 1).drop_last() =~= bits@.take(i as int));
            assert(bits@.take(i + 1).last() == bits@[i as int]);
        }
        if bits[i] {
            index = 2 * index + 1;
        } else {
            index = 2 * index;
        }
        i = i + 1;
    }
    proof {
        assert(bits@.take(bits@.len() as int) =~= bits@);
    }
    index
}

/// Advances a boolean vector to its lexicographic successor, treating the
/// last bit as the fastest-changing one. Returns `false` exactly when the
/// vector wraps around from all-true back to all-false, which signals that
/// every combination has been visited.
pub fn advance_combination(bits: &mut Vec<bool>) -> (more: bool)
    ensures
        final(bits)@.len() == old(bits)@.len(),
        more <==> bits_index(old(bits)@) + 1 < pow2(old(bits)@.len()),
        more ==> bits_index(final(bits)@) == bits_index(old(bits)@) + 1,
        !more ==> bits_index(final(bits)@) == 0,
        !more ==> (forall|j: int| 0 <= j < final(bits)@.len() ==> !final(bits)@[j]),
{
    let ghost orig = bits@;
    let n = bits.len();
    // Find the lowest bit that is still false, scanning from the end.
    let mut i: usize = n;
    while i > 0 && bits[i - 1]
        invariant
            0 <= i <= n,
            bits@ == orig,
            n == orig.len(),
            forall|j: int| i <= j < n ==> orig[j],
        decreases i,
    {
        i = i - 1;
    }
    // Clear every bit after it.
    let mut j: usize = i;
    while j < n
        invariant
            i <= j <= n,
            bits@.len() == n,
            n == orig.len(),
            forall|m: int| 0 <= m < i ==> bits@[m] == orig[m],
            forall|m: int| i <= m < j ==> !bits@[m],
            forall|m: int| j <= m < n ==> bits@[m] == orig[m],
            forall|m: int| i <= m < n ==> orig[m],
        decreases n - j,
    {
        bits.set(j, false);
        j = j + 1;
    }
    if i > 0 {
        bits.set(i - 1, true);
        proof {
            lemma_increment(orig, i - 1);
            assert(bits@ =~= orig.take(i - 1) + seq![true] + Seq::new(
                (orig.len() - i) as nat,
                |_m: int| false,
            ));
            lemma_bits_index_bound(bits@);
            lemma_bits_index_bound(orig);
        }
        true
    } else {
        proof {
            lemma_bits_index_zero(bits@);
            lemma_bits_index_max(orig);
            lemma_pow2_pos(orig.len());
        }
        false
    }
}

} // verus!
