//! Comparison of wide little-endian values.
//!
//! A wide value is a sequence of 64-bit words, lowest order first, with no
//! leading zero word.  Such values are compared numerically without
//! materializing them as integers.

use vstd::prelude::*;
use core::cmp::Ordering;
use vstd::arithmetic::power::pow;
use vstd::arithmetic::power::lemma_pow_increases;

verus! {

/// The number a little-endian sequence of 64-bit words stands for.
pub open spec fn val64(s: Seq<u64>) -> int
    decreases s.len(),
{
    if s.len() == 0 {
        0
    } else {
        s[0] + 0x10000000000000000 * val64(s.skip(1))
    }
}

/// No leading zero word.
pub open spec fn normalized(s: Seq<u64>) -> bool {
    s.len() == 0 || s.last() != 0
}

proof fn lemma_val64_bound(s: Seq<u64>)
    ensures
        0 <= val64(s) < pow(0x10000000000000000, s.len()),
    decreases s.len(),
{
    reveal(pow);
    let b: int = 0x10000000000000000;
    if s.len() > 0 {
        lemma_val64_bound(s.skip(1));
        assert(pow(b, s.len()) == b * pow(b, (s.len() - 1) as nat));
    }
}

proof fn lemma_val64_lower(s: Seq<u64>)
    requires
        normalized(s),
        s.len() > 0,
    ensures
        val64(s) >= pow(0x10000000000000000, (s.len() - 1) as nat),
    decreases s.len(),
{
    reveal(pow);
    let b: int = 0x10000000000000000;
    if s.len() == 1 {
        assert(s.last() == s[0]);
        assert(val64(s.skip(1)) == 0);
    } else {
        assert(normalized(s.skip(1)) && s.skip(1).len() > 0) by {
            assert(s.skip(1).last() == s.last());
        }
        lemma_val64_lower(s.skip(1));
        assert(pow(b, (s.len() - 1) as nat) == b * pow(b, (s.len() - 2) as nat));
    }
}

proof fn lemma_val64_cmp_at(s: Seq<u64>, t: Seq<u64>, i: int)
    requires
        s.len() == t.len(),
        0 <= i < s.len(),
        s[i] < t[i],
        forall|j: int| i < j < s.len() ==> s[j] == t[j],
    ensures
        val64(s) < val64(t),
    decreases s.len(),
{
    let b: int = 0x10000000000000000;
    if i == 0 {
        assert(s.skip(1) =~= t.skip(1));
    } else {
        assert(forall|j: int|
            i - 1 < j < s.skip(1).len() ==> s.skip(1)[j] == t.skip(1)[j]) by {
            assert(forall|j: int|
                0 <= j < s.skip(1).len() ==> s.skip(1)[j] == s[j + 1] && t.skip(1)[j] == t[j
                    + 1]);
        }
        assert(s.skip(1)[i - 1] == s[i] && t.skip(1)[i - 1] == t[i]);
        lemma_val64_cmp_at(s.skip(1), t.skip(1), i - 1);
    }
}

/// Compares two normalized wide values numerically: first by word count,
/// then by words from the most significant end down.
pub fn cmp_wide(x: &[u64], y: &[u64]) -> (r: Ordering)
    requires
        normalized(x@),
        normalized(y@),
    ensures
        r == Ordering::Less <==> val64(x@) < val64(y@),
        r == Ordering::Greater <==> val64(x@) > val64(y@),
        r == Ordering::Equal <==> val64(x@) == val64(y@),
{
    if x.len() < y.len() {
        proof {
            lemma_val64_bound(x@);
            lemma_val64_lower(y@);
            lemma_pow_increases(0x10000000000000000, x@.len(), (y@.len() - 1) as nat);
        }
        return Ordering::Less;
    }
    if x.len() > y.len() {
        proof {
            lemma_val64_bound(y@);
            lemma_val64_lower(x@);
            lemma_pow_increases(0x10000000000000000, y@.len(), (x@.len() - 1) as nat);
        }
        return Ordering::Greater;
    }
    let mut i: usize = x.len();
    while i > 0
        invariant
            x@.len() == y@.len(),
            i <= x@.len(),
            forall|j: int| i <= j < x@.len() ==> x@[j] == y@[j],
        decreases i,
    {
        i = i - 1;
        let a: u64 = x[i];
        let c: u64 = y[i];
        if a < c {
            proof {
                lemma_val64_cmp_at(x@, y@, i as int);
            }
            return Ordering::Less;
        }
        if a > c {
            proof {
                lemma_val64_cmp_at(y@, x@, i as int);
            }
            return Ordering::Greater;
        }
    }
    proof {
        assert(x@ =~= y@);
    }
    Ordering::Equal
}

} // verus!
