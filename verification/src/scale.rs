//! The fixed-modulus scaling primitive.
//!
//! Every limb of the digit store holds a value in `[0, 81^16)`.  Scaling the
//! stored integer by 256 rewrites each limb in ascending order through
//! `divmod(limb * 256 + carry_in, 81^16)`.  The division is carried out with
//! a precomputed reciprocal of the modulus: a multiplication, a shift by a
//! power of two, and at most one conditional correction.

use vstd::prelude::*;
use vstd::arithmetic::div_mod::lemma_fundamental_div_mod;
use vstd::arithmetic::power::pow;
use vstd::arithmetic::div_mod::lemma_fundamental_div_mod_converse;

verus! {

/// The fixed per-limb modulus `M = 81^16`.
pub const LIMB_MODULUS: u128 = 3433683820292512484657849089281;

/// The precomputed reciprocal `floor(2^110 / LIMB_MODULUS)`.
pub const MOD_RECIP: u128 = 378;

/// `2^110`, the scaling base of the reciprocal.
pub const RECIP_BASE: u128 = 1298074214633706907132624082305024;

/// A limb is well formed when its value lies below the modulus.
pub open spec fn limb_ok(x: u128) -> bool {
    x < LIMB_MODULUS
}

/// The quotient estimate `floor(d * MOD_RECIP / 2^110)` is never above the
/// true quotient `floor(d / LIMB_MODULUS)` and misses it by less than one
/// whole modulus, for every dividend below `2^110`.
proof fn lemma_recip_estimate(d: int)
    requires
        0 <= d < RECIP_BASE,
    ensures
        (d * MOD_RECIP / (RECIP_BASE as int)) * LIMB_MODULUS <= d,
        d - (d * MOD_RECIP / (RECIP_BASE as int)) * LIMB_MODULUS < 2 * LIMB_MODULUS,
{
    let m = LIMB_MODULUS as int;
    let r = MOD_RECIP as int;
    let t = RECIP_BASE as int;
    let q = d * r / t;
    lemma_fundamental_div_mod(d * r, t);
    // q * t <= d * r < (q + 1) * t
    assert(q * t <= d * r);
    assert(d * r < q * t + t);
    assert(r * m <= t);
    assert(t < (r + 1) * m);
    // upper bound: q * m <= d
    assert(q * m * t <= d * t) by (nonlinear_arith)
        requires
            q * t <= d * r,
            r * m <= t,
            m >= 0,
            d >= 0,
    ;
    assert(q * m <= d) by (nonlinear_arith)
        requires
            q * m * t <= d * t,
            t > 0,
    ;
    // lower bound: q * m > d - 2 * m
    assert(q * m * t > (d - 2 * m) * t) by (nonlinear_arith)
        requires
            d * r < q * t + t,
            t < (r + 1) * m,
            m > 0,
            t > 0,
            0 <= d < t,
    ;
    assert(q * m > d - 2 * m) by (nonlinear_arith)
        requires
            q * m * t > (d - 2 * m) * t,
            t > 0,
    ;
}

/// The fixed-modulus scaling primitive: returns `(new_limb, new_carry)` with
/// `x * 256 + c == new_carry * M + new_limb` and `new_limb` in `[0, M)`.
///
/// The quotient is computed from the precomputed reciprocal with one
/// multiplication and at most one conditional correction; no division by the
/// modulus is performed.
pub fn scale_step(x: u128, c: u128) -> (r: (u128, u128))
    requires
        x < LIMB_MODULUS,
        c < 256,
    ensures
        r.0 < LIMB_MODULUS,
        r.1 < 256,
        x * 256 + c == r.1 * LIMB_MODULUS + r.0,
{
    let d: u128 = x * 256 + c;
    proof {
        lemma_recip_estimate(d as int);
    }
    let q0: u128 = d * MOD_RECIP / RECIP_BASE;
    let r0: u128 = d - q0 * LIMB_MODULUS;
    let (limb, carry): (u128, u128) = if r0 >= LIMB_MODULUS {
        (r0 - LIMB_MODULUS, q0 + 1)
    } else {
        (r0, q0)
    };
    proof {
        assert(carry < 256) by (nonlinear_arith)
            requires
                carry * LIMB_MODULUS + limb == d,
                0 <= limb,
                0 <= carry,
                d < 256 * LIMB_MODULUS,
        ;
    }
    (limb, carry)
}


/// Every limb of `s` lies below the modulus.
pub open spec fn all_limbs_ok(s: Seq<u128>) -> bool {
    forall|i: int| 0 <= i < s.len() ==> limb_ok(#[trigger] s[i])
}

/// Adds `c` into the limbs of `s` from the low end, wrapping each limb at
/// the modulus and carrying the quotient forward; returns the rewritten
/// limbs (same length) and the carry that runs off the high end.
pub open spec fn ripple(s: Seq<u128>, c: nat) -> (Seq<u128>, nat)
    decreases s.len(),
{
    if s.len() == 0 {
        (s, c)
    } else {
        let t: int = s[0] + c;
        let rest: (Seq<u128>, nat) = ripple(s.skip(1), (t / (LIMB_MODULUS as int)) as nat);
        (seq![(t % (LIMB_MODULUS as int)) as u128] + rest.0, rest.1)
    }
}

/// Scales the limbs of `s` by 256 in ascending order with carry-in `c`:
/// each limb is rewritten to `(limb * 256 + carry) % M` with the quotient
/// carried forward; returns the rewritten limbs and the final carry.
pub open spec fn scale_chain(s: Seq<u128>, c: nat) -> (Seq<u128>, nat)
    decreases s.len(),
{
    if s.len() == 0 {
        (s, c)
    } else {
        let t: int = s[0] * 256 + c;
        let rest: (Seq<u128>, nat) = scale_chain(s.skip(1), (t / (LIMB_MODULUS as int)) as nat);
        (seq![(t % (LIMB_MODULUS as int)) as u128] + rest.0, rest.1)
    }
}

/// The limbs that represent a bare carry `c` (none, one or two limbs; two
/// are enough for any carry below the square of the modulus).
pub open spec fn seq_extend(c: nat) -> Seq<u128> {
    if c == 0 {
        Seq::empty()
    } else if c < LIMB_MODULUS {
        seq![c as u128]
    } else {
        seq![((c as int) % (LIMB_MODULUS as int)) as u128, ((c as int) / (LIMB_MODULUS as int)) as u128]
    }
}

/// The full scaling of a limb sequence by 256: every limb rewritten in
/// ascending order starting from carry 0, with the final carry appended as
/// new high-order content.
pub open spec fn scale_spec(s: Seq<u128>) -> Seq<u128> {
    scale_chain(s, 0).0 + seq_extend(scale_chain(s, 0).1)
}

/// Adding `v` at limb position `pos`: limbs below `pos` keep their values,
/// the carry ripples upward, and any carry that runs off the high end
/// extends the sequence.
pub open spec fn add_at_spec(s: Seq<u128>, pos: int, v: nat) -> Seq<u128> {
    s.take(pos) + ripple(s.skip(pos), v).0 + seq_extend(ripple(s.skip(pos), v).1)
}

/// Writing a value into a freshly vacated slot below the lowest limb: the
/// slot takes `v % M` and the quotient ripples into the existing limbs.
pub open spec fn add_low_spec(s: Seq<u128>, v: nat) -> Seq<u128> {
    add_at_spec(seq![0u128] + s, 0, v)
}

/// Splitting an addition at the modulus: adding `b` to `x` is the same as
/// adding `b` to the low part `x % M` and folding both quotients together.
pub proof fn lemma_split_carry(x: int, b: int)
    requires
        x >= 0,
        b >= 0,
    ensures
        (x % (LIMB_MODULUS as int) + b) % (LIMB_MODULUS as int) == (x + b) % (
        LIMB_MODULUS as int),
        x / (LIMB_MODULUS as int) + (x % (LIMB_MODULUS as int) + b) / (LIMB_MODULUS as int)
            == (x + b) / (LIMB_MODULUS as int),
{
    let m: int = LIMB_MODULUS as int;
    lemma_fundamental_div_mod(x, m);
    lemma_fundamental_div_mod(x % m + b, m);
    assert(x + b == (x / m + (x % m + b) / m) * m + (x % m + b) % m) by (nonlinear_arith)
        requires
            x == m * (x / m) + x % m,
            x % m + b == m * ((x % m + b) / m) + (x % m + b) % m,
    ;
    lemma_fundamental_div_mod_converse(
        x + b,
        m,
        x / m + (x % m + b) / m,
        (x % m + b) % m,
    );
}

/// A ripple keeps the length and well-formedness of the limbs.
pub proof fn lemma_ripple_props(s: Seq<u128>, c: nat)
    ensures
        ripple(s, c).0.len() == s.len(),
        all_limbs_ok(ripple(s, c).0),
    decreases s.len(),
{
    let m: int = LIMB_MODULUS as int;
    if s.len() > 0 {
        let t: int = s[0] + c;
        lemma_ripple_props(s.skip(1), (t / m) as nat);
        assert(all_limbs_ok(ripple(s, c).0)) by {
            let r = ripple(s, c).0;
            let rest = ripple(s.skip(1), (t / m) as nat).0;
            assert(forall|i: int| 1 <= i < r.len() ==> r[i] == rest[i - 1]);
            assert(r[0] == (t % m) as u128);
        }
    }
}

/// Rippling a zero carry changes nothing.
pub proof fn lemma_ripple_zero(s: Seq<u128>)
    requires
        all_limbs_ok(s),
    ensures
        ripple(s, 0).0 == s,
        ripple(s, 0).1 == 0,
    decreases s.len(),
{
    let m: int = LIMB_MODULUS as int;
    if s.len() > 0 {
        assert(all_limbs_ok(s.skip(1))) by {
            assert(forall|i: int| 0 <= i < s.skip(1).len() ==> s.skip(1)[i] == s[i + 1]);
        }
        lemma_ripple_zero(s.skip(1));
        assert(s[0] as int % m == s[0] as int && s[0] as int / m == 0int);
        assert(ripple(s, 0).0 =~= s);
    }
}

/// Rippling carry `a` and then carry `b` is rippling `a + b` at once; the
/// leftover carries add up the same way.
pub proof fn lemma_ripple_add(s: Seq<u128>, a: nat, b: nat)
    ensures
        ripple(ripple(s, a).0, b).0 == ripple(s, a + b).0,
        ripple(s, a).1 + ripple(ripple(s, a).0, b).1 == ripple(s, a + b).1,
    decreases s.len(),
{
    let m: int = LIMB_MODULUS as int;
    if s.len() > 0 {
        let t1: int = s[0] + a;
        let inner = ripple(s.skip(1), (t1 / m) as nat);
        let lhs0 = ripple(s, a).0;
        assert(lhs0 == seq![(t1 % m) as u128] + inner.0);
        assert(lhs0.skip(1) =~= inner.0);
        assert(lhs0[0] == (t1 % m) as u128);
        let t2: int = t1 % m + b;
        lemma_split_carry(t1, b as int);
        lemma_ripple_add(s.skip(1), (t1 / m) as nat, (t2 / m) as nat);
        assert(ripple(lhs0, b).0 == seq![(t2 % m) as u128] + ripple(inner.0, (t2 / m) as nat).0);
        assert(ripple(s, (a + b) as nat).0 == seq![((s[0] + a + b) % m) as u128] + ripple(
            s.skip(1),
            ((s[0] + a + b) / m) as nat,
        ).0);
        assert((t1 / m) as nat + (t2 / m) as nat == ((s[0] + a + b) / m) as nat);
        assert(ripple(ripple(s, a).0, b).0 =~= ripple(s, a + b).0);
    }
}

/// Scaling keeps the length and well-formedness of the limbs, and the final
/// carry stays below 256.
pub proof fn lemma_scale_props(s: Seq<u128>, c: nat)
    requires
        all_limbs_ok(s),
        c < 256,
    ensures
        scale_chain(s, c).0.len() == s.len(),
        all_limbs_ok(scale_chain(s, c).0),
        scale_chain(s, c).1 < 256,
    decreases s.len(),
{
    let m: int = LIMB_MODULUS as int;
    if s.len() > 0 {
        let t: int = s[0] * 256 + c;
        assert(t < 256 * m);
        lemma_fundamental_div_mod(t, m);
        assert(t / m < 256);
        assert(all_limbs_ok(s.skip(1))) by {
            assert(forall|i: int| 0 <= i < s.skip(1).len() ==> s.skip(1)[i] == s[i + 1]);
        }
        lemma_scale_props(s.skip(1), (t / m) as nat);
        assert(all_limbs_ok(scale_chain(s, c).0)) by {
            let r = scale_chain(s, c).0;
            let rest = scale_chain(s.skip(1), (t / m) as nat).0;
            assert(forall|i: int| 1 <= i < r.len() ==> r[i] == rest[i - 1]);
            assert(r[0] == (t % m) as u128);
        }
    }
}

/// Scaling a concatenation chains the carry from the first part into the
/// second.
pub proof fn lemma_scale_concat(s1: Seq<u128>, s2: Seq<u128>, c: nat)
    ensures
        scale_chain(s1 + s2, c).0 == scale_chain(s1, c).0 + scale_chain(
            s2,
            scale_chain(s1, c).1,
        ).0,
        scale_chain(s1 + s2, c).1 == scale_chain(s2, scale_chain(s1, c).1).1,
    decreases s1.len(),
{
    if s1.len() == 0 {
        assert(s1 + s2 =~= s2);
        assert(scale_chain(s1, c).0 + scale_chain(s2, c).0 =~= scale_chain(s2, c).0);
    } else {
        let m: int = LIMB_MODULUS as int;
        let t: int = s1[0] * 256 + c;
        assert((s1 + s2)[0] == s1[0]);
        assert((s1 + s2).skip(1) =~= s1.skip(1) + s2);
        lemma_scale_concat(s1.skip(1), s2, (t / m) as nat);
        assert(scale_chain(s1 + s2, c).0 =~= scale_chain(s1, c).0 + scale_chain(
            s2,
            scale_chain(s1, c).1,
        ).0);
    }
}

/// Scaling with carry-in `c` equals scaling with carry-in 0 and then
/// rippling `c` into the result; the final carries agree accordingly.
pub proof fn lemma_scale_carry_in(s: Seq<u128>, c: nat)
    ensures
        scale_chain(s, c).0 == ripple(scale_chain(s, 0).0, c).0,
        scale_chain(s, c).1 == scale_chain(s, 0).1 + ripple(scale_chain(s, 0).0, c).1,
    decreases s.len(),
{
    let m: int = LIMB_MODULUS as int;
    if s.len() > 0 {
        let d0: int = s[0] * 256;
        let dc: int = d0 + c;
        let x = scale_chain(s.skip(1), 0nat).0;
        let base0 = scale_chain(s, 0nat).0;
        assert(base0 == seq![(d0 % m) as u128] + scale_chain(s.skip(1), (d0 / m) as nat).0);
        assert(base0.skip(1) =~= scale_chain(s.skip(1), (d0 / m) as nat).0);
        assert(base0[0] == (d0 % m) as u128);
        let t2: int = d0 % m + c;
        lemma_split_carry(d0, c as int);
        // dc % m == t2 % m and dc / m == d0 / m + t2 / m
        lemma_scale_carry_in(s.skip(1), (dc / m) as nat);
        lemma_scale_carry_in(s.skip(1), (d0 / m) as nat);
        lemma_ripple_add(x, (d0 / m) as nat, (t2 / m) as nat);
        assert(ripple(base0, c).0 == seq![(t2 % m) as u128] + ripple(
            scale_chain(s.skip(1), (d0 / m) as nat).0,
            (t2 / m) as nat,
        ).0);
        assert(scale_chain(s, c).0 == seq![(dc % m) as u128] + scale_chain(
            s.skip(1),
            (dc / m) as nat,
        ).0);
        assert(scale_chain(s.skip(1), (dc / m) as nat).0 == ripple(x, (dc / m) as nat).0);
        assert(scale_chain(s.skip(1), (d0 / m) as nat).0 == ripple(x, (d0 / m) as nat).0);
        assert(ripple(ripple(x, (d0 / m) as nat).0, (t2 / m) as nat).0 == ripple(
            x,
            ((d0 / m) + (t2 / m)) as nat,
        ).0);
        assert(scale_chain(s, c).0 =~= ripple(base0, c).0);
        // the carry clause
        assert(scale_chain(s, c).1 == scale_chain(s.skip(1), (dc / m) as nat).1);
        assert(scale_chain(s.skip(1), (dc / m) as nat).1 == scale_chain(s.skip(1), 0nat).1
            + ripple(x, (dc / m) as nat).1);
        assert(ripple(x, (d0 / m) as nat).1 + ripple(ripple(x, (d0 / m) as nat).0, (t2 / m) as nat).1
            == ripple(x, ((d0 / m) + (t2 / m)) as nat).1);
        assert(ripple(base0, c).1 == ripple(
            scale_chain(s.skip(1), (d0 / m) as nat).0,
            (t2 / m) as nat,
        ).1);
        assert(scale_chain(s, 0nat).1 == scale_chain(s.skip(1), 0nat).1 + ripple(
            x,
            (d0 / m) as nat,
        ).1);
    }
}


/// Popping the lowest limb and immediately adding the same value back at
/// the vacated slot restores the limb sequence exactly.
pub proof fn lemma_pop_add_inverse(s: Seq<u128>)
    requires
        all_limbs_ok(s),
        s.len() >= 1,
    ensures
        add_low_spec(s.skip(1), s[0] as nat) == s,
{
    let m: int = LIMB_MODULUS as int;
    let v: nat = s[0] as nat;
    let padded = seq![0u128] + s.skip(1);
    assert(padded.skip(0) =~= padded);
    assert(padded[0] == 0u128);
    assert(padded.skip(1) =~= s.skip(1));
    assert(all_limbs_ok(s.skip(1))) by {
        assert(forall|i: int| 0 <= i < s.skip(1).len() ==> s.skip(1)[i] == s[i + 1]);
    }
    assert((0u128 + v) % m == v as int && (0u128 + v) / m == 0int);
    lemma_ripple_zero(s.skip(1));
    assert(ripple(padded, v).0 == seq![s[0]] + s.skip(1));
    assert(ripple(padded, v).1 == 0);
    assert(add_low_spec(s.skip(1), v) =~= s) by {
        assert(padded.take(0) =~= Seq::<u128>::empty());
        assert(seq![s[0]] + s.skip(1) =~= s);
    }
}

/// The non-negative integer a limb sequence stands for, lowest limb first.
pub open spec fn limbs_val(s: Seq<u128>) -> int
    decreases s.len(),
{
    if s.len() == 0 {
        0
    } else {
        s[0] + LIMB_MODULUS * limbs_val(s.skip(1))
    }
}

proof fn lemma_val_nonneg(s: Seq<u128>)
    ensures
        limbs_val(s) >= 0,
    decreases s.len(),
{
    if s.len() > 0 {
        lemma_val_nonneg(s.skip(1));
    }
}

proof fn lemma_val_concat(s1: Seq<u128>, s2: Seq<u128>)
    ensures
        limbs_val(s1 + s2) == limbs_val(s1) + pow(LIMB_MODULUS as int, s1.len()) * limbs_val(
            s2,
        ),
    decreases s1.len(),
{
    reveal(pow);
    let m: int = LIMB_MODULUS as int;
    if s1.len() == 0 {
        assert(s1 + s2 =~= s2);
        assert(pow(m, 0) == 1);
    } else {
        assert((s1 + s2)[0] == s1[0]);
        assert((s1 + s2).skip(1) =~= s1.skip(1) + s2);
        lemma_val_concat(s1.skip(1), s2);
        let p = pow(m, (s1.len() - 1) as nat);
        assert(pow(m, s1.len()) == m * p);
        assert(m * (limbs_val(s1.skip(1)) + p * limbs_val(s2)) == m * limbs_val(s1.skip(1))
            + (m * p) * limbs_val(s2)) by (nonlinear_arith);
    }
}

proof fn lemma_ripple_value(s: Seq<u128>, c: nat)
    ensures
        limbs_val(ripple(s, c).0) + pow(LIMB_MODULUS as int, s.len()) * ripple(s, c).1
            == limbs_val(s) + c,
    decreases s.len(),
{
    reveal(pow);
    let m: int = LIMB_MODULUS as int;
    if s.len() == 0 {
        assert(pow(m, 0) == 1);
    } else {
        let t: int = s[0] + c;
        lemma_fundamental_div_mod(t, m);
        lemma_ripple_value(s.skip(1), (t / m) as nat);
        let rest = ripple(s.skip(1), (t / m) as nat);
        assert(ripple(s, c).0.skip(1) =~= rest.0);
        assert(ripple(s, c).0[0] == (t % m) as u128);
        let p = pow(m, (s.len() - 1) as nat);
        assert(pow(m, s.len()) == m * p);
        assert(m * (limbs_val(s.skip(1)) + t / m - p * rest.1) + (m * p) * rest.1 == m
            * limbs_val(s.skip(1)) + m * (t / m)) by (nonlinear_arith);
    }
}

proof fn lemma_scale_chain_value(s: Seq<u128>, c: nat)
    ensures
        limbs_val(scale_chain(s, c).0) + pow(LIMB_MODULUS as int, s.len()) * scale_chain(
            s,
            c,
        ).1 == 256 * limbs_val(s) + c,
    decreases s.len(),
{
    reveal(pow);
    let m: int = LIMB_MODULUS as int;
    if s.len() == 0 {
        assert(pow(m, 0) == 1);
    } else {
        let t: int = s[0] * 256 + c;
        lemma_fundamental_div_mod(t, m);
        lemma_scale_chain_value(s.skip(1), (t / m) as nat);
        let rest = scale_chain(s.skip(1), (t / m) as nat);
        assert(scale_chain(s, c).0.skip(1) =~= rest.0);
        assert(scale_chain(s, c).0[0] == (t % m) as u128);
        let p = pow(m, (s.len() - 1) as nat);
        assert(pow(m, s.len()) == m * p);
        assert(m * (256 * limbs_val(s.skip(1)) + t / m - p * rest.1) + (m * p) * rest.1 == m
            * (256 * limbs_val(s.skip(1))) + m * (t / m)) by (nonlinear_arith);
    }
}

proof fn lemma_extend_value(c: nat)
    requires
        c < LIMB_MODULUS * LIMB_MODULUS,
    ensures
        limbs_val(seq_extend(c)) == c,
{
    let m: int = LIMB_MODULUS as int;
    if c == 0 {
    } else if c < LIMB_MODULUS {
        assert(seq_extend(c).skip(1) =~= Seq::<u128>::empty());
        assert(limbs_val(Seq::<u128>::empty()) == 0);
        assert(limbs_val(seq_extend(c)) == c + m * 0);
    } else {
        lemma_fundamental_div_mod(c as int, m);
        assert((c as int) / m < m) by (nonlinear_arith)
            requires
                (c as int) < m * m,
                m > 0,
                c as int == m * ((c as int) / m) + (c as int) % m,
                0 <= (c as int) % m,
        ;
        let tail = seq![(((c as int) / m)) as u128];
        assert(seq_extend(c).skip(1) =~= tail);
        assert(tail.skip(1) =~= Seq::<u128>::empty());
        assert(limbs_val(Seq::<u128>::empty()) == 0);
        assert(limbs_val(tail) == (c as int) / m);
        assert(limbs_val(seq_extend(c)) == (c as int) % m + m * ((c as int) / m));
    }
}

/// Scaling a well-formed store by 256 multiplies the integer it stands for
/// by exactly 256.
pub proof fn lemma_scale_value(s: Seq<u128>)
    requires
        all_limbs_ok(s),
    ensures
        limbs_val(scale_spec(s)) == 256 * limbs_val(s),
{
    let m: int = LIMB_MODULUS as int;
    lemma_scale_chain_value(s, 0);
    lemma_scale_props(s, 0);
    let out = scale_chain(s, 0).0;
    let carry = scale_chain(s, 0).1;
    lemma_val_concat(out, seq_extend(carry));
    lemma_extend_value(carry);
}

/// A carry below one limb rippled into well-formed limbs leaves a carry
/// below one limb.
proof fn lemma_ripple_residual_bound(s: Seq<u128>, c: nat)
    requires
        all_limbs_ok(s),
        c < LIMB_MODULUS,
    ensures
        ripple(s, c).1 < LIMB_MODULUS,
    decreases s.len(),
{
    let m: int = LIMB_MODULUS as int;
    if s.len() > 0 {
        let t: int = s[0] + c;
        assert(t < 2 * m);
        lemma_fundamental_div_mod(t, m);
        assert(t / m <= 1);
        assert(all_limbs_ok(s.skip(1))) by {
            assert(forall|i: int| 0 <= i < s.skip(1).len() ==> s.skip(1)[i] == s[i + 1]);
        }
        lemma_ripple_residual_bound(s.skip(1), (t / m) as nat);
    }
}

/// Adding `v` through the vacated low slot turns the integer `R` the store
/// stands for into `v + M * R`: every limb stays below the modulus while
/// the value gains a full new low limb.
pub proof fn lemma_add_low_value(s: Seq<u128>, v: nat)
    requires
        all_limbs_ok(s),
        v < LIMB_MODULUS * LIMB_MODULUS,
    ensures
        limbs_val(add_low_spec(s, v)) == v + LIMB_MODULUS * limbs_val(s),
{
    let m: int = LIMB_MODULUS as int;
    let padded = seq![0u128] + s;
    assert(padded.skip(0) =~= padded);
    assert(padded.take(0) =~= Seq::<u128>::empty());
    assert(padded[0] == 0u128);
    assert(padded.skip(1) =~= s);
    lemma_fundamental_div_mod(v as int, m);
    assert((v as int) / m < m) by (nonlinear_arith)
        requires
            (v as int) < m * m,
            m > 0,
            v as int == m * ((v as int) / m) + (v as int) % m,
            0 <= (v as int) % m,
    ;
    assert(ripple(padded, v).1 == ripple(s, ((v as int) / m) as nat).1);
    lemma_ripple_residual_bound(s, ((v as int) / m) as nat);
    let r = ripple(padded, v);
    lemma_ripple_value(padded, v);
    lemma_ripple_props(padded, v);
    lemma_extend_value(r.1);
    lemma_val_concat(r.0, seq_extend(r.1));
    assert(add_low_spec(s, v) =~= r.0 + seq_extend(r.1));
    assert(limbs_val(padded) == m * limbs_val(s));
}

} // verus!
