//! The automaton loop.
//!
//! One step pops the lowest limb of the digit store, decomposes it into
//! sixteen base-81 digits (least significant first), rewrites each digit
//! through the transition table while the counter accumulates the deltas,
//! rescales the store by `256^16` through the parallel carry pass, and
//! reinserts the produced sixteen-symbol word at the vacated low end.
//!
//! The run halts the moment the counter drops at or below 1; no further
//! digits of the current limb are processed and no further steps occur.

use vstd::prelude::*;
use vstd::arithmetic::power::pow;
use vstd::arithmetic::power::lemma_pow_adds;
use vstd::arithmetic::power::lemma_pow_positive;
use vstd::arithmetic::div_mod::lemma_fundamental_div_mod;
use vstd::arithmetic::div_mod::lemma_multiply_divide_lt;
use crate::scale::add_low_spec;
use crate::scale::all_limbs_ok;
use crate::scale::lemma_add_low_value;
use crate::scale::lemma_ripple_props;
use crate::scale::lemma_scale_props;
use crate::scale::lemma_scale_value;
use crate::scale::limbs_val;
use crate::scale::scale_chain;
use crate::scale::scale_spec;
use crate::scale::seq_extend;
use crate::scale::LIMB_MODULUS;
use crate::store::DigitStore;
use crate::store::PAGE_CAP;
use crate::table::delta_spec;
use crate::table::lookup;
use crate::table::symbol_spec;

verus! {

/// Base-81 digits per limb: the limb modulus is `81^16`.
pub const DIGITS_PER_LIMB: usize = 16;

/// The `k` base-81 digits of `v`, least significant first.
pub open spec fn digits81(v: int, k: nat) -> Seq<u8>
    decreases k,
{
    if k == 0 {
        Seq::empty()
    } else {
        seq![(v % 81) as u8] + digits81(v / 81, (k - 1) as nat)
    }
}

/// Recombines base-81 digits, least significant first.
pub open spec fn combine81(ds: Seq<u8>) -> int
    decreases ds.len(),
{
    if ds.len() == 0 {
        0
    } else {
        ds[0] + 81 * combine81(ds.skip(1))
    }
}

/// `81^16` is the limb modulus.
pub proof fn lemma_pow81_16()
    ensures
        pow(81, 16) == LIMB_MODULUS,
{
    reveal(pow);
    lemma_pow_adds(81, 1, 1);
    lemma_pow_adds(81, 2, 2);
    lemma_pow_adds(81, 4, 4);
    lemma_pow_adds(81, 8, 8);
    assert(pow(81, 1) == 81) by {
        assert(pow(81, 0) == 1);
    }
    assert(pow(81, 2) == 6561);
    assert(6561int * 6561int == 43046721);
    assert(pow(81, 4) == 43046721);
    assert(43046721int * 43046721int == 1853020188851841);
    assert(pow(81, 8) == 1853020188851841);
    assert(1853020188851841int * 1853020188851841int == LIMB_MODULUS);
    assert(pow(81, 16) == 1853020188851841int * 1853020188851841int);
}

/// `256^16` is one more than the largest sixteen-byte value.
pub proof fn lemma_pow256_16()
    ensures
        pow(256, 16) == 0x100000000000000000000000000000000,
{
    reveal(pow);
    lemma_pow_adds(256, 1, 1);
    lemma_pow_adds(256, 2, 2);
    lemma_pow_adds(256, 4, 4);
    lemma_pow_adds(256, 8, 8);
    assert(pow(256, 1) == 256) by {
        assert(pow(256, 0) == 1);
    }
    assert(pow(256, 2) == 0x10000);
    assert(0x10000int * 0x10000int == 0x100000000);
    assert(pow(256, 4) == 0x100000000);
    assert(0x100000000int * 0x100000000int == 0x10000000000000000);
    assert(pow(256, 8) == 0x10000000000000000);
    assert(0x10000000000000000int * 0x10000000000000000int
        == 0x100000000000000000000000000000000);
    assert(pow(256, 16) == 0x10000000000000000int * 0x10000000000000000int);
}

/// Digit round-trip: decomposing a value below `81^k` into its `k` base-81
/// digits and recombining them reproduces the value exactly.
pub proof fn lemma_digit_round_trip(v: int, k: nat)
    requires
        0 <= v < pow(81, k),
    ensures
        combine81(digits81(v, k)) == v,
    decreases k,
{
    reveal(pow);
    if k == 0 {
        assert(pow(81, 0) == 1);
    } else {
        let rest = digits81(v / 81, (k - 1) as nat);
        assert(digits81(v, k).skip(1) =~= rest);
        lemma_fundamental_div_mod(v, 81);
        lemma_pow_positive(81, (k - 1) as nat);
        assert(v < 81 * pow(81, (k - 1) as nat));
        lemma_multiply_divide_lt(v, pow(81, (k - 1) as nat), 81);
        lemma_digit_round_trip(v / 81, (k - 1) as nat);
    }
}

/// The digit rewrite over the `n` lowest base-81 digits of `end`: each
/// digit in turn adds its table delta to the counter `a` and pushes its
/// table symbol below the accumulated `word` — unless the counter has just
/// dropped at or below 1, in which case the rewrite halts at once and the
/// remaining digits are not processed.  Returns `(word, counter, halted)`.
pub open spec fn rewrite(end: int, a: int, word: int, n: nat) -> (int, int, bool)
    decreases n,
{
    if n == 0 {
        (word, a, false)
    } else {
        let d = end % 81;
        let a1 = a + delta_spec(d);
        if a1 <= 1 {
            (word, a1, true)
        } else {
            rewrite(end / 81, a1, word * 256 + symbol_spec(d), (n - 1) as nat)
        }
    }
}

/// The rewrite keeps the counter at 2 or above exactly as long as it does
/// not halt; when it halts the counter has just breached the threshold.
pub proof fn lemma_rewrite_counter(end: int, a: int, word: int, n: nat)
    requires
        a >= 2,
    ensures
        !rewrite(end, a, word, n).2 ==> rewrite(end, a, word, n).1 >= 2,
        rewrite(end, a, word, n).2 ==> rewrite(end, a, word, n).1 <= 1,
    decreases n,
{
    if n > 0 {
        let d = end % 81;
        let a1 = a + delta_spec(d);
        if a1 > 1 {
            lemma_rewrite_counter(end / 81, a1, word * 256 + symbol_spec(d), (n - 1) as nat);
        }
    }
}

/// Decomposes a limb into its sixteen base-81 digits, least significant
/// digit first.
pub fn decompose(v: u128) -> (ds: Vec<u8>)
    requires
        v < LIMB_MODULUS,
    ensures
        ds@ == digits81(v as int, 16),
{
    let mut ds: Vec<u8> = Vec::new();
    let mut e: u128 = v;
    let mut i: usize = 0;
    while i < 16
        invariant
            0 <= i <= 16,
            ds@.len() == i,
            digits81(v as int, 16) == ds@ + digits81(e as int, (16 - i) as nat),
        decreases 16 - i,
    {
        let ghost pre = ds@;
        let ghost e0 = e as int;
        let d: u8 = (e % 81) as u8;
        ds.push(d);
        e = e / 81;
        i = i + 1;
        proof {
            assert(digits81(e0, (16 - (i - 1)) as nat) == seq![d] + digits81(
                e as int,
                (16 - i) as nat,
            ));
            assert(pre + digits81(e0, (16 - (i - 1)) as nat) =~= ds@ + digits81(
                e as int,
                (16 - i) as nat,
            ));
        }
    }
    proof {
        assert(digits81(e as int, 0) =~= Seq::<u8>::empty());
        assert(ds@ + Seq::<u8>::empty() =~= ds@);
    }
    ds
}

/// Recombines sixteen base-81 digits (least significant first) into the
/// limb they came from.
pub fn recombine(ds: &Vec<u8>) -> (v: u128)
    requires
        ds@.len() == 16,
        forall|i: int| 0 <= i < 16 ==> ds@[i] < 81,
    ensures
        v as int == combine81(ds@),
        v < LIMB_MODULUS,
{
    proof {
        reveal(pow);
        lemma_pow81_16();
    }
    let mut acc: u128 = 0;
    let mut j: usize = 16;
    while j > 0
        invariant
            0 <= j <= 16,
            ds@.len() == 16,
            forall|i: int| 0 <= i < 16 ==> ds@[i] < 81,
            acc as int == combine81(ds@.skip(j as int)),
            acc < pow(81, (16 - j) as nat),
            pow(81, 16) == LIMB_MODULUS,
        decreases j,
    {
        let ghost j0 = j as int;
        let ghost acc0 = acc as int;
        proof {
            reveal(pow);
            lemma_pow_positive(81, (16 - j0) as nat);
            assert(pow(81, (16 - j0 + 1) as nat) == 81 * pow(81, (16 - j0) as nat)) by {
                lemma_pow_adds(81, 1, (16 - j0) as nat);
                assert(pow(81, 1) == 81) by {
                    assert(pow(81, 0) == 1);
                }
            }
            assert(acc0 * 81 + 80 < 81 * pow(81, (16 - j0) as nat)) by (nonlinear_arith)
                requires
                    acc0 < pow(81, (16 - j0) as nat),
                    acc0 >= 0,
            ;
            vstd::arithmetic::power::lemma_pow_increases(81, (16 - j0 + 1) as nat, 16);
        }
        j = j - 1;
        let d: u8 = ds[j];
        acc = acc * 81 + d as u128;
        proof {
            assert(ds@.skip(j as int)[0] == ds@[j as int]);
            assert(ds@.skip(j as int).skip(1) =~= ds@.skip(j0));
            assert(combine81(ds@.skip(j as int)) == ds@[j as int] + 81 * acc0);
        }
    }
    proof {
        assert(ds@.skip(0) =~= ds@);
    }
    acc
}

/// Rewrites the sixteen base-81 digits of `end` through the transition
/// table, least significant digit first, accumulating the produced symbols
/// as base-256 content above the digits still to be consumed.
///
/// `a` accumulates the per-digit counter deltas.  Returns the produced
/// word, or `None` the moment the counter drops at or below 1 (the terminal
/// event): the remaining digits are not processed.
pub fn step_16(end: u128, a: &mut i64) -> (r: Option<u128>)
    requires
        end < LIMB_MODULUS,
        *old(a) >= 2,
        *old(a) <= i64::MAX - 64,
    ensures
        *final(a) as int == rewrite(end as int, *old(a) as int, 0, 16).1,
        r is Some <==> !rewrite(end as int, *old(a) as int, 0, 16).2,
        r is Some ==> r->0 as int == rewrite(end as int, *old(a) as int, 0, 16).0,
        r is Some ==> *final(a) >= 2,
        r is None ==> *final(a) <= 1,
{
    proof {
        reveal(pow);
        lemma_pow256_16();
    }
    let mut e: u128 = end;
    let mut w: u128 = 0;
    let mut cur: i64 = *a;
    let mut i: usize = 0;
    while i < 16
        invariant
            0 <= i <= 16,
            cur >= 2,
            cur <= i64::MAX - 64 + 4 * i,
            i64::MAX - 64 + 4 * i <= i64::MAX,
            rewrite(end as int, *old(a) as int, 0, 16) == rewrite(
                e as int,
                cur as int,
                w as int,
                (16 - i) as nat,
            ),
            (w as int) < pow(256, i as nat),
        decreases 16 - i,
    {
        let ghost e0 = e as int;
        let ghost cur0 = cur as int;
        let ghost w0 = w as int;
        let ghost i0 = i as int;
        let d: u8 = (e % 81) as u8;
        let (dl, sym): (i8, u8) = lookup(d);
        proof {
            crate::table::lemma_table_bounds(d as int);
        }
        let cur2: i64 = cur + dl as i64;
        if cur2 <= 1 {
            *a = cur2;
            proof {
                assert(rewrite(e0, cur0, w0, (16 - i0) as nat) == (w0, cur2 as int, true));
            }
            return None;
        }
        proof {
            reveal(pow);
            lemma_pow256_16();
            assert(pow(256, (i0 + 1) as nat) == 256 * pow(256, i0 as nat));
            lemma_pow_positive(256, i0 as nat);
            assert(w0 * 256 + 255 < 256 * pow(256, i0 as nat)) by (nonlinear_arith)
                requires
                    w0 < pow(256, i0 as nat),
                    w0 >= 0,
            ;
            vstd::arithmetic::power::lemma_pow_increases(256, (i0 + 1) as nat, 16);
        }
        w = w * 256 + sym as u128;
        e = e / 81;
        cur = cur2;
        i = i + 1;
        proof {
            assert(rewrite(e0, cur0, w0, (16 - i0) as nat) == rewrite(
                e as int,
                cur as int,
                w as int,
                (16 - i) as nat,
            ));
        }
    }
    *a = cur;
    proof {
        assert(rewrite(e as int, cur as int, w as int, 0) == (w as int, cur as int, false));
    }
    Some(w)
}


/// How many times the store is rescaled by 256 in one step: the produced
/// word is sixteen bytes wide.
pub open spec fn scale_n(s: Seq<u128>, n: nat) -> Seq<u128>
    decreases n,
{
    if n == 0 {
        s
    } else {
        scale_spec(scale_n(s, (n - 1) as nat))
    }
}

/// What one step reports: the log fields of a completed step, or the
/// terminal event with its step index and counter.
pub enum StepOutcome {
    Ran { step: u64, counter_before: i64, prev_word: u128, word: u128 },
    Halted { step: u64, counter: i64 },
}

/// The automaton: the digit store, the step index, the signed counter, the
/// last produced word, and the terminal flag.  `chunk_limbs` sets the chunk
/// width of the parallel carry pass.
pub struct Machine {
    pub step_index: u64,
    pub counter: i64,
    pub store: DigitStore,
    pub last_word: u128,
    pub halted: bool,
    pub chunk_limbs: usize,
}

impl Machine {
    /// The machine invariant: a running machine keeps its counter at 2 or
    /// above and its store holds at least the sentinel limb.
    pub open spec fn wf(self) -> bool {
        &&& self.store.wf()
        &&& self.chunk_limbs >= 1
        &&& !self.halted ==> self.counter >= 2 && self.store.limbs().len() >= 1
    }

    /// A fresh machine: step 0, counter 2, and the store holding the single
    /// zero sentinel limb (the integer zero).
    pub fn new(chunk_limbs: usize) -> (m: Machine)
        requires
            chunk_limbs >= 1,
        ensures
            m.wf(),
            m.step_index == 0,
            m.counter == 2,
            !m.halted,
            m.last_word == 0,
            m.store.limbs() == seq![0u128],
    {
        let mut store = DigitStore::new();
        store.push_high(0);
        proof {
            assert(store.limbs() =~= seq![0u128]);
        }
        Machine {
            step_index: 0,
            counter: 2,
            store,
            last_word: 0,
            halted: false,
            chunk_limbs,
        }
    }

    /// One automaton step: pop the lowest limb, rewrite its sixteen digits
    /// through the transition table (stopping the run the moment the
    /// counter drops at or below 1), rescale the remaining store by
    /// `256^16` through the parallel carry pass, and reinsert the produced
    /// word at the vacated low end.
    pub fn step(&mut self) -> (r: StepOutcome)
        requires
            old(self).wf(),
            !old(self).halted,
            old(self).step_index < u64::MAX,
            old(self).counter <= i64::MAX - 64,
            old(self).store.limbs().len() + 32 * PAGE_CAP <= usize::MAX,
        ensures
            final(self).wf(),
            ({
                let v = old(self).store.limbs()[0] as int;
                let rw = rewrite(v, old(self).counter as int, 0, 16);
                if rw.2 {
                    &&& final(self).halted
                    &&& final(self).counter as int == rw.1
                    &&& final(self).counter <= 1
                    &&& final(self).step_index == old(self).step_index
                    &&& final(self).store.limbs() == old(self).store.limbs().skip(1)
                    &&& r == (StepOutcome::Halted {
                        step: old(self).step_index,
                        counter: final(self).counter,
                    })
                } else {
                    &&& !final(self).halted
                    &&& final(self).counter as int == rw.1
                    &&& final(self).counter >= 2
                    &&& final(self).step_index == old(self).step_index + 1
                    &&& final(self).last_word as int == rw.0
                    &&& final(self).store.limbs() == add_low_spec(
                        scale_n(old(self).store.limbs().skip(1), 16),
                        rw.0 as nat,
                    )
                    &&& r == (StepOutcome::Ran {
                        step: old(self).step_index,
                        counter_before: old(self).counter,
                        prev_word: old(self).last_word,
                        word: final(self).last_word,
                    })
                }
            }),
    {
        proof {
            self.store.lemma_wf_facts();
        }
        let v: u128 = self.store.pop();
        let mut a: i64 = self.counter;
        let res: Option<u128> = step_16(v, &mut a);
        match res {
            None => {
                self.counter = a;
                self.halted = true;
                StepOutcome::Halted { step: self.step_index, counter: a }
            },
            Some(w) => {
                let ghost base = old(self).store.limbs().skip(1);
                let mut t: usize = 0;
                while t < 16
                    invariant
                        self.store.wf(),
                        self.chunk_limbs >= 1,
                        self.step_index == old(self).step_index,
                        self.counter == old(self).counter,
                        self.last_word == old(self).last_word,
                        self.halted == old(self).halted,
                        0 <= t <= 16,
                        self.store.limbs() == scale_n(base, t as nat),
                        self.store.limbs().len() <= base.len() + t,
                        base.len() + 1 + 32 * PAGE_CAP <= usize::MAX,
                    decreases 16 - t,
                {
                    let ghost pre = self.store.limbs();
                    proof {
                        self.store.lemma_wf_facts();
                        lemma_scale_props(pre, 0);
                    }
                    self.store.rescale(self.chunk_limbs);
                    t = t + 1;
                    proof {
                        assert(self.store.limbs().len() <= pre.len() + 1);
                    }
                }
                proof {
                    self.store.lemma_wf_facts();
                }
                self.store.add_low(w);
                proof {
                    let s2 = scale_n(base, 16);
                    lemma_ripple_props(seq![0u128] + s2, w as nat);
                    assert((seq![0u128] + s2).skip(0) =~= seq![0u128] + s2);
                    assert(self.store.limbs().len() >= 1);
                }
                let prev: u128 = self.last_word;
                let cb: i64 = self.counter;
                self.counter = a;
                self.last_word = w;
                let idx: u64 = self.step_index;
                self.step_index = idx + 1;
                StepOutcome::Ran { step: idx, counter_before: cb, prev_word: prev, word: w }
            },
        }
    }
}


/// Repeated scaling passes multiply the stored integer by `256` each time
/// and keep every limb below the modulus.
pub proof fn lemma_scale_n_value(s: Seq<u128>, n: nat)
    requires
        all_limbs_ok(s),
    ensures
        all_limbs_ok(scale_n(s, n)),
        limbs_val(scale_n(s, n)) == pow(256, n) * limbs_val(s),
    decreases n,
{
    reveal(pow);
    if n == 0 {
        assert(pow(256, 0) == 1);
    } else {
        lemma_scale_n_value(s, (n - 1) as nat);
        let prev = scale_n(s, (n - 1) as nat);
        lemma_scale_value(prev);
        lemma_scale_props(prev, 0);
        let out = scale_chain(prev, 0).0;
        let cr = scale_chain(prev, 0).1;
        assert(all_limbs_ok(scale_spec(prev))) by {
            assert(forall|i: int|
                0 <= i < out.len() ==> #[trigger] scale_spec(prev)[i] == out[i]);
            assert(forall|i: int|
                out.len() <= i < scale_spec(prev).len() ==> #[trigger] scale_spec(prev)[i]
                    == seq_extend(cr)[i - out.len()]);
            if cr > 0 {
                assert(seq_extend(cr) =~= seq![cr as u128]);
            }
        }
        assert(pow(256, n) == 256 * pow(256, (n - 1) as nat));
        assert(256 * (pow(256, (n - 1) as nat) * limbs_val(s)) == (256 * pow(
            256,
            (n - 1) as nat,
        )) * limbs_val(s)) by (nonlinear_arith);
    }
}

/// The value meaning of one completed step: with `R` the integer held by
/// the store after the pop and `w` the produced sixteen-byte word, the
/// store afterwards holds exactly `w + M * 256^16 * R`.
pub proof fn lemma_step_value(s: Seq<u128>, w: nat)
    requires
        all_limbs_ok(s),
        w < 0x100000000000000000000000000000000,
    ensures
        limbs_val(add_low_spec(scale_n(s, 16), w)) == w + LIMB_MODULUS * (pow(256, 16)
            * limbs_val(s)),
{
    lemma_scale_n_value(s, 16);
    assert((LIMB_MODULUS as int) * (LIMB_MODULUS as int)
        > 0x100000000000000000000000000000000);
    lemma_add_low_value(scale_n(s, 16), w);
}

} // verus!
