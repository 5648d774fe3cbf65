//! The checkpoint codec.
//!
//! A checkpoint is the snapshot {step index, counter, store limbs} as one
//! little-endian byte record: 8 bytes of step index, 8 bytes of counter,
//! 8 bytes of store byte length, then 16 bytes per limb, lowest limb first.
//! A record of the wrong length, or one holding an out-of-range counter or
//! limb, decodes to nothing: the caller must treat that input as fatal.

use vstd::prelude::*;
use vstd::arithmetic::power::pow;
use vstd::arithmetic::power::lemma_pow_adds;
use vstd::arithmetic::power::lemma_pow_positive;
use vstd::arithmetic::div_mod::lemma_fundamental_div_mod;
use vstd::arithmetic::div_mod::lemma_multiply_divide_lt;
use crate::scale::all_limbs_ok;
use crate::scale::limb_ok;
use crate::scale::LIMB_MODULUS;
use crate::store::DigitStore;
use crate::store::PAGE_CAP;

verus! {

/// The `n` little-endian bytes of `x`.
pub open spec fn le_bytes(x: int, n: nat) -> Seq<u8>
    decreases n,
{
    if n == 0 {
        Seq::empty()
    } else {
        seq![(x % 256) as u8] + le_bytes(x / 256, (n - 1) as nat)
    }
}

/// The value that a little-endian byte sequence stands for.
pub open spec fn from_le(s: Seq<u8>) -> int
    decreases s.len(),
{
    if s.len() == 0 {
        0
    } else {
        s[0] + 256 * from_le(s.skip(1))
    }
}

/// The 16-byte records of the limbs, lowest limb first.
pub open spec fn limb_bytes(limbs: Seq<u128>) -> Seq<u8>
    decreases limbs.len(),
{
    if limbs.len() == 0 {
        Seq::empty()
    } else {
        le_bytes(limbs[0] as int, 16) + limb_bytes(limbs.skip(1))
    }
}

/// The byte record of a snapshot.
pub open spec fn encode_spec(step: u64, counter: i64, limbs: Seq<u128>) -> Seq<u8> {
    le_bytes(step as int, 8) + le_bytes(counter as int, 8) + le_bytes(16 * limbs.len() as int, 8)
        + limb_bytes(limbs)
}

/// A byte record that decodes: long enough, length field consistent, whole
/// limbs only, counter in range, every limb below the modulus.
pub open spec fn wf_bytes(b: Seq<u8>) -> bool {
    &&& b.len() >= 24
    &&& from_le(b.subrange(16, 24)) == b.len() - 24
    &&& (b.len() - 24) % 16 == 0
    &&& from_le(b.subrange(8, 16)) <= i64::MAX
    &&& forall|i: int|
        0 <= i < (b.len() - 24) / 16 ==> from_le(
            #[trigger] b.subrange(24 + 16 * i, 24 + 16 * i + 16),
        ) < LIMB_MODULUS
}

proof fn lemma_pow256_vals()
    ensures
        pow(256, 8) == 0x10000000000000000,
        pow(256, 16) == 0x100000000000000000000000000000000,
{
    reveal(pow);
    lemma_pow_adds(256, 1, 1);
    lemma_pow_adds(256, 2, 2);
    lemma_pow_adds(256, 4, 4);
    lemma_pow_adds(256, 8, 8);
    assert(pow(256, 1) == 256) by {
        assert(pow(256, 0) == 1);
    }
    assert(pow(256, 2) == 0x10000);
    assert(0x10000int * 0x10000int == 0x100000000);
    assert(pow(256, 4) == 0x100000000);
    assert(0x100000000int * 0x100000000int == 0x10000000000000000);
    assert(pow(256, 8) == 0x10000000000000000);
    assert(0x10000000000000000int * 0x10000000000000000int
        == 0x100000000000000000000000000000000);
}

/// The little-endian bytes of a value below `256^n` decode back to it.
pub proof fn lemma_le_round_trip(x: int, n: nat)
    requires
        0 <= x < pow(256, n),
    ensures
        le_bytes(x, n).len() == n,
        from_le(le_bytes(x, n)) == x,
    decreases n,
{
    reveal(pow);
    if n == 0 {
    } else {
        lemma_fundamental_div_mod(x, 256);
        lemma_pow_positive(256, (n - 1) as nat);
        assert(x < 256 * pow(256, (n - 1) as nat));
        lemma_multiply_divide_lt(x, pow(256, (n - 1) as nat), 256);
        lemma_le_round_trip(x / 256, (n - 1) as nat);
        assert(le_bytes(x, n).skip(1) =~= le_bytes(x / 256, (n - 1) as nat));
    }
}

proof fn lemma_le_bytes_len(x: int, n: nat)
    ensures
        le_bytes(x, n).len() == n,
    decreases n,
{
    if n > 0 {
        lemma_le_bytes_len(x / 256, (n - 1) as nat);
    }
}

proof fn lemma_limb_bytes_len(limbs: Seq<u128>)
    ensures
        limb_bytes(limbs).len() == 16 * limbs.len(),
    decreases limbs.len(),
{
    if limbs.len() > 0 {
        lemma_le_bytes_len(limbs[0] as int, 16);
        lemma_limb_bytes_len(limbs.skip(1));
    }
}

proof fn lemma_limb_bytes_at(limbs: Seq<u128>, i: int)
    requires
        0 <= i < limbs.len(),
    ensures
        limb_bytes(limbs).subrange(16 * i, 16 * i + 16) == le_bytes(limbs[i] as int, 16),
    decreases i,
{
    lemma_limb_bytes_len(limbs);
    lemma_le_bytes_len(limbs[0] as int, 16);
    lemma_limb_bytes_len(limbs.skip(1));
    if i == 0 {
        assert(limb_bytes(limbs).subrange(0, 16) =~= le_bytes(limbs[0] as int, 16));
    } else {
        lemma_limb_bytes_at(limbs.skip(1), i - 1);
        assert(limbs.skip(1)[i - 1] == limbs[i]);
        assert(limb_bytes(limbs).subrange(16 * i, 16 * i + 16) =~= limb_bytes(
            limbs.skip(1),
        ).subrange(16 * (i - 1), 16 * (i - 1) + 16));
    }
}

/// A decoded snapshot: the step index, the counter, and the rebuilt store
/// (cursor reset to the start).
pub struct Checkpoint {
    pub step_index: u64,
    pub counter: i64,
    pub store: DigitStore,
}

fn push_le64(b: &mut Vec<u8>, x: u64)
    ensures
        final(b)@ == old(b)@ + le_bytes(x as int, 8),
{
    let ghost start = b@;
    let ghost x0 = x as int;
    let mut v: u64 = x;
    let mut i: usize = 0;
    while i < 8
        invariant
            0 <= i <= 8,
            start + le_bytes(x0, 8) == b@ + le_bytes(v as int, (8 - i) as nat),
        decreases 8 - i,
    {
        let ghost pre = b@;
        let ghost v0 = v as int;
        b.push((v % 256) as u8);
        v = v / 256;
        i = i + 1;
        proof {
            assert(le_bytes(v0, (8 - (i - 1)) as nat) == seq![(v0 % 256) as u8] + le_bytes(
                v as int,
                (8 - i) as nat,
            ));
            assert(pre + le_bytes(v0, (8 - (i - 1)) as nat) =~= b@ + le_bytes(
                v as int,
                (8 - i) as nat,
            ));
        }
    }
    proof {
        assert(le_bytes(v as int, 0) =~= Seq::<u8>::empty());
        assert(b@ + Seq::<u8>::empty() =~= b@);
    }
}

fn push_le128(b: &mut Vec<u8>, x: u128)
    ensures
        final(b)@ == old(b)@ + le_bytes(x as int, 16),
{
    let ghost start = b@;
    let ghost x0 = x as int;
    let mut v: u128 = x;
    let mut i: usize = 0;
    while i < 16
        invariant
            0 <= i <= 16,
            start + le_bytes(x0, 16) == b@ + le_bytes(v as int, (16 - i) as nat),
        decreases 16 - i,
    {
        let ghost pre = b@;
        let ghost v0 = v as int;
        b.push((v % 256) as u8);
        v = v / 256;
        i = i + 1;
        proof {
            assert(le_bytes(v0, (16 - (i - 1)) as nat) == seq![(v0 % 256) as u8] + le_bytes(
                v as int,
                (16 - i) as nat,
            ));
            assert(pre + le_bytes(v0, (16 - (i - 1)) as nat) =~= b@ + le_bytes(
                v as int,
                (16 - i) as nat,
            ));
        }
    }
    proof {
        assert(le_bytes(v as int, 0) =~= Seq::<u8>::empty());
        assert(b@ + Seq::<u8>::empty() =~= b@);
    }
}

fn read_le64(b: &Vec<u8>, off: usize) -> (r: u64)
    requires
        off + 8 <= b@.len(),
    ensures
        r as int == from_le(b@.subrange(off as int, off as int + 8)),
{
    proof {
        lemma_pow256_vals();
        reveal(pow);
    }
    let total: usize = b.len();
    proof {
        assert(off + 8 <= total);
    }
    let mut acc: u64 = 0;
    let mut j: usize = 8;
    while j > 0
        invariant
            0 <= j <= 8,
            off + 8 <= b@.len(),
            b@.len() <= usize::MAX,
            acc as int == from_le(b@.subrange(off + j, off as int + 8)),
            (acc as int) < pow(256, (8 - j) as nat),
        decreases j,
    {
        let ghost j0 = j as int;
        let ghost acc0 = acc as int;
        proof {
            reveal(pow);
            lemma_pow_positive(256, (8 - j0) as nat);
            assert(pow(256, (8 - j0 + 1) as nat) == 256 * pow(256, (8 - j0) as nat));
            assert(acc0 * 256 + 255 < 256 * pow(256, (8 - j0) as nat)) by (nonlinear_arith)
                requires
                    acc0 < pow(256, (8 - j0) as nat),
                    acc0 >= 0,
            ;
            vstd::arithmetic::power::lemma_pow_increases(256, (8 - j0 + 1) as nat, 8);
            lemma_pow256_vals();
        }
        j = j - 1;
        let d: u8 = b[off + j];
        acc = acc * 256 + d as u64;
        proof {
            let s = b@.subrange(off + j, off as int + 8);
            assert(s[0] == b@[off + j]);
            assert(s.skip(1) =~= b@.subrange(off + j0, off as int + 8));
            assert(from_le(s) == s[0] + 256 * acc0);
        }
    }
    acc
}

fn read_le128(b: &Vec<u8>, off: usize) -> (r: u128)
    requires
        off + 16 <= b@.len(),
    ensures
        r as int == from_le(b@.subrange(off as int, off as int + 16)),
{
    proof {
        lemma_pow256_vals();
        reveal(pow);
    }
    let total: usize = b.len();
    proof {
        assert(off + 16 <= total);
    }
    let mut acc: u128 = 0;
    let mut j: usize = 16;
    while j > 0
        invariant
            0 <= j <= 16,
            off + 16 <= b@.len(),
            b@.len() <= usize::MAX,
            acc as int == from_le(b@.subrange(off + j, off as int + 16)),
            (acc as int) < pow(256, (16 - j) as nat),
        decreases j,
    {
        let ghost j0 = j as int;
        let ghost acc0 = acc as int;
        proof {
            reveal(pow);
            lemma_pow_positive(256, (16 - j0) as nat);
            assert(pow(256, (16 - j0 + 1) as nat) == 256 * pow(256, (16 - j0) as nat));
            assert(acc0 * 256 + 255 < 256 * pow(256, (16 - j0) as nat)) by (nonlinear_arith)
                requires
                    acc0 < pow(256, (16 - j0) as nat),
                    acc0 >= 0,
            ;
            vstd::arithmetic::power::lemma_pow_increases(256, (16 - j0 + 1) as nat, 16);
            lemma_pow256_vals();
        }
        j = j - 1;
        let d: u8 = b[off + j];
        acc = acc * 256 + d as u128;
        proof {
            let s = b@.subrange(off + j, off as int + 16);
            assert(s[0] == b@[off + j]);
            assert(s.skip(1) =~= b@.subrange(off + j0, off as int + 16));
            assert(from_le(s) == s[0] + 256 * acc0);
        }
    }
    acc
}

/// Serializes a snapshot.
pub fn encode(step: u64, counter: i64, store: &DigitStore) -> (b: Vec<u8>)
    requires
        store.wf(),
        counter >= 0,
        16 * store.limbs().len() <= u64::MAX,
    ensures
        b@ == encode_spec(step, counter, store.limbs()),
{
    let limbs: Vec<u128> = store.to_limbs();
    let mut b: Vec<u8> = Vec::new();
    push_le64(&mut b, step);
    push_le64(&mut b, counter as u64);
    push_le64(&mut b, 16 * (limbs.len() as u64));
    let ghost header = b@;
    let mut i: usize = 0;
    while i < limbs.len()
        invariant
            0 <= i <= limbs@.len(),
            limbs@ == store.limbs(),
            b@ == header + limb_bytes(limbs@.take(i as int)),
        decreases limbs@.len() - i,
    {
        let ghost pre = b@;
        let x: u128 = limbs[i];
        push_le128(&mut b, x);
        i = i + 1;
        proof {
            lemma_limb_bytes_snoc(limbs@.take(i - 1), x);
            assert(limbs@.take(i - 1).push(x) =~= limbs@.take(i as int));
            assert(header + limb_bytes(limbs@.take(i - 1)) + le_bytes(x as int, 16)
                =~= header + (limb_bytes(limbs@.take(i - 1)) + le_bytes(x as int, 16)));
        }
    }
    proof {
        assert(limbs@.take(limbs@.len() as int) =~= limbs@);
        assert(header + limb_bytes(store.limbs()) =~= encode_spec(
            step,
            counter,
            store.limbs(),
        ));
    }
    b
}

proof fn lemma_limb_bytes_snoc(limbs: Seq<u128>, x: u128)
    ensures
        limb_bytes(limbs.push(x)) == limb_bytes(limbs) + le_bytes(x as int, 16),
    decreases limbs.len(),
{
    if limbs.len() == 0 {
        assert(limbs.push(x)[0] == x);
        assert(limbs.push(x).skip(1) =~= Seq::<u128>::empty());
        assert(limb_bytes(limbs.push(x).skip(1)) =~= Seq::<u8>::empty());
        assert(limb_bytes(limbs.push(x)) =~= limb_bytes(limbs) + le_bytes(x as int, 16));
    } else {
        assert(limbs.push(x)[0] == limbs[0]);
        assert(limbs.push(x).skip(1) =~= limbs.skip(1).push(x));
        lemma_limb_bytes_snoc(limbs.skip(1), x);
        assert(limb_bytes(limbs.push(x)) =~= limb_bytes(limbs) + le_bytes(x as int, 16));
    }
}

/// Deserializes a snapshot, or nothing when the record is not a
/// well-formed encoding.
pub fn decode(b: &Vec<u8>) -> (r: Option<Checkpoint>)
    ensures
        r is Some <==> wf_bytes(b@),
        r is Some ==> {
            let c = r->0;
            &&& c.step_index as int == from_le(b@.subrange(0, 8))
            &&& c.counter as int == from_le(b@.subrange(8, 16))
            &&& c.store.wf()
            &&& 16 * c.store.limbs().len() == b@.len() - 24
            &&& forall|i: int|
                0 <= i < c.store.limbs().len() ==> #[trigger] c.store.limbs()[i] as int
                    == from_le(b@.subrange(24 + 16 * i, 24 + 16 * i + 16))
        },
{
    if b.len() < 24 {
        return None;
    }
    let step: u64 = read_le64(b, 0);
    let cval: u64 = read_le64(b, 8);
    let blen: u64 = read_le64(b, 16);
    if blen != (b.len() - 24) as u64 {
        return None;
    }
    if (b.len() - 24) % 16 != 0 {
        return None;
    }
    if cval > 0x7fffffffffffffff {
        return None;
    }
    let counter: i64 = cval as i64;
    let n: usize = (b.len() - 24) / 16;
    proof {
        lemma_fundamental_div_mod(b@.len() - 24, 16);
    }
    let mut limbs: Vec<u128> = Vec::new();
    let mut i: usize = 0;
    while i < n
        invariant
            0 <= i <= n,
            n == (b@.len() - 24) / 16,
            16 * (n as int) == b@.len() - 24,
            b@.len() >= 24,
            b@.len() <= usize::MAX,
            limbs@.len() == i,
            all_limbs_ok(limbs@),
            forall|j: int|
                0 <= j < i ==> #[trigger] limbs@[j] as int == from_le(
                    b@.subrange(24 + 16 * j, 24 + 16 * j + 16),
                ),
        decreases n - i,
    {
        proof {
            assert(16 * (i as int) + 16 <= 16 * (n as int));
            assert(24 + 16 * (i as int) + 16 <= b@.len());
        }
        let x: u128 = read_le128(b, 24 + 16 * i);
        if x >= LIMB_MODULUS {
            proof {
                assert(from_le(
                    b@.subrange(24 + 16 * (i as int), 24 + 16 * (i as int) + 16),
                ) >= LIMB_MODULUS);
                assert((b@.len() - 24) % 16 == 0);
                assert(!wf_bytes(b@));
            }
            return None;
        }
        limbs.push(x);
        i = i + 1;
    }
    proof {
        assert(limbs@.len() + 4 * PAGE_CAP <= usize::MAX);
        assert((b@.len() - 24) % 16 == 0);
        assert forall|q: int| 0 <= q < (b@.len() - 24) / 16 implies from_le(
            #[trigger] b@.subrange(24 + 16 * q, 24 + 16 * q + 16),
        ) < LIMB_MODULUS by {
            assert(limbs@[q] as int == from_le(b@.subrange(24 + 16 * q, 24 + 16 * q + 16)));
            assert(limb_ok(limbs@[q]));
        }
        assert(wf_bytes(b@));
    }
    let store = DigitStore::from_limbs(&limbs);
    Some(Checkpoint { step_index: step, counter, store })
}

/// Checkpoint round-trip: the byte record of any valid snapshot is
/// well-formed and decodes back to exactly the step index, counter and
/// limbs it was made from.
pub proof fn lemma_checkpoint_round_trip(step: u64, counter: i64, limbs: Seq<u128>)
    requires
        counter >= 0,
        all_limbs_ok(limbs),
        16 * limbs.len() <= u64::MAX,
    ensures
        ({
            let b = encode_spec(step, counter, limbs);
            &&& wf_bytes(b)
            &&& from_le(b.subrange(0, 8)) == step
            &&& from_le(b.subrange(8, 16)) == counter
            &&& b.len() - 24 == 16 * limbs.len()
            &&& forall|i: int|
                0 <= i < limbs.len() ==> from_le(
                    #[trigger] b.subrange(24 + 16 * i, 24 + 16 * i + 16),
                ) == limbs[i]
        }),
{
    lemma_pow256_vals();
    let b = encode_spec(step, counter, limbs);
    let h0 = le_bytes(step as int, 8);
    let h1 = le_bytes(counter as int, 8);
    let h2 = le_bytes(16 * limbs.len() as int, 8);
    let lb = limb_bytes(limbs);
    lemma_le_round_trip(step as int, 8);
    lemma_le_round_trip(counter as int, 8);
    lemma_le_round_trip(16 * limbs.len() as int, 8);
    lemma_limb_bytes_len(limbs);
    assert(b.len() == 24 + 16 * limbs.len());
    assert(b.subrange(0, 8) =~= h0);
    assert(b.subrange(8, 16) =~= h1);
    assert(b.subrange(16, 24) =~= h2);
    assert((16 * limbs.len()) % 16 == 0) by (nonlinear_arith);
    assert forall|i: int| 0 <= i < limbs.len() implies from_le(
        #[trigger] b.subrange(24 + 16 * i, 24 + 16 * i + 16),
    ) == limbs[i] by {
        lemma_limb_bytes_at(limbs, i);
        assert(b.subrange(24 + 16 * i, 24 + 16 * i + 16) =~= lb.subrange(
            16 * i,
            16 * i + 16,
        ));
        lemma_le_round_trip(limbs[i] as int, 16);
    }
    assert((b.len() - 24) / 16 == limbs.len()) by (nonlinear_arith)
        requires
            b.len() - 24 == 16 * limbs.len(),
    ;
}

} // verus!
