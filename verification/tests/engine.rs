//! End-to-end checks of the digit-rewriting engine.

use std::cmp::Ordering;

use mill81::automaton::{decompose, recombine, step_16, Machine, StepOutcome, DIGITS_PER_LIMB};
use mill81::checkpoint::{decode, encode};
use mill81::scale::{scale_step, LIMB_MODULUS};
use mill81::stats::Stats;
use mill81::store::DigitStore;
use mill81::table::lookup;
use mill81::wide::cmp_wide;

const M: u128 = 3433683820292512484657849089281;

#[test]
fn table_entries_exact() {
    assert_eq!(lookup(0), (1, 2));
    assert_eq!(lookup(1), (1, 5));
    assert_eq!(lookup(5), (-2, 19));
    assert_eq!(lookup(45), (4, 143));
    assert_eq!(lookup(79), (0, 252));
    assert_eq!(lookup(80), (1, 255));
}

#[test]
fn table_deltas_in_range() {
    for d in 0..81u8 {
        let (delta, _symbol) = lookup(d);
        assert!(-2 <= delta && delta <= 4);
    }
}

#[test]
fn scale_step_divmod_identity() {
    let samples: [u128; 6] = [0, 1, 80, 81u128.pow(8), 12345678901234567890, M - 1];
    for &x in &samples {
        for c in [0u128, 1, 17, 255] {
            let (limb, carry) = scale_step(x, c);
            assert!(limb < M);
            assert!(carry < 256);
            assert_eq!(x * 256 + c, carry * M + limb);
        }
    }
}

#[test]
fn scale_step_exact_values() {
    assert_eq!(scale_step(0, 0), (0, 0));
    assert_eq!(scale_step(0, 255), (255, 0));
    assert_eq!(scale_step(M - 1, 0), (3433683820292512484657849089025, 255));
}

#[test]
fn digit_round_trip() {
    for v in [0u128, 1, 80, 81, 6560, 6561, 81u128.pow(8), M - 1] {
        let ds = decompose(v);
        assert_eq!(ds.len(), DIGITS_PER_LIMB);
        assert!(ds.iter().all(|&d| d < 81));
        assert_eq!(recombine(&ds), v);
    }
}

#[test]
fn digits_of_small_values() {
    let ds = decompose(405);
    assert_eq!(ds[0], 0);
    assert_eq!(ds[1], 5);
    assert!(ds[2..].iter().all(|&d| d == 0));
}

#[test]
fn pop_then_add_restores_store() {
    let limbs: Vec<u128> = vec![7, M - 1, 0, 42];
    let mut store = DigitStore::from_limbs(&limbs);
    let v = store.pop();
    assert_eq!(v, 7);
    store.add_low(v);
    assert_eq!(store.to_limbs(), limbs);
}

#[test]
fn pop_then_add_restores_single_limb() {
    let limbs: Vec<u128> = vec![M - 1];
    let mut store = DigitStore::from_limbs(&limbs);
    let v = store.pop();
    assert_eq!(store.to_limbs(), Vec::<u128>::new());
    store.add_low(v);
    assert_eq!(store.to_limbs(), limbs);
}

#[test]
fn pop_walks_page_boundaries() {
    let limbs: Vec<u128> = (0..20u128).collect();
    let mut store = DigitStore::from_limbs(&limbs);
    for expect in 0..20u128 {
        assert_eq!(store.len(), (20 - expect) as usize);
        assert_eq!(store.pop(), expect);
    }
    assert_eq!(store.len(), 0);
}

#[test]
fn add_at_carries_across_limbs() {
    let mut store = DigitStore::from_limbs(&vec![M - 1, M - 1]);
    store.add_at(0, 1);
    assert_eq!(store.to_limbs(), vec![0, 0, 1]);
}

#[test]
fn add_at_end_appends() {
    let mut store = DigitStore::from_limbs(&vec![3]);
    store.add_at(1, 9);
    assert_eq!(store.to_limbs(), vec![3, 9]);
}

#[test]
fn add_low_splits_large_values() {
    let mut store = DigitStore::from_limbs(&Vec::new());
    let w: u128 = u128::MAX;
    store.add_low(w);
    assert_eq!(store.to_limbs(), vec![w % M, w / M]);
}

#[test]
fn sequential_scaling_exact() {
    let mut store = DigitStore::from_limbs(&vec![M - 1, M - 1]);
    store.scale_once();
    assert_eq!(
        store.to_limbs(),
        vec![3433683820292512484657849089025, M - 1, 255]
    );
}

#[test]
fn parallel_pass_matches_sequential() {
    let mut limbs: Vec<u128> = Vec::new();
    for i in 0..23u128 {
        limbs.push((i * 12345678901234567891) % M);
    }
    limbs.push(M - 1);
    for chunk in [1usize, 2, 3, 8, 16, 100] {
        let mut a = DigitStore::from_limbs(&limbs);
        let mut b = DigitStore::from_limbs(&limbs);
        a.scale_once();
        b.rescale(chunk);
        assert_eq!(a.to_limbs(), b.to_limbs());
    }
}

#[test]
fn parallel_pass_on_ragged_head_page() {
    let limbs: Vec<u128> = (0..17u128).map(|i| (i * 987654321987654321) % M).collect();
    let mut a = DigitStore::from_limbs(&limbs);
    let mut b = DigitStore::from_limbs(&limbs);
    // move the cursor off the page start before scaling
    let va = a.pop();
    let vb = b.pop();
    assert_eq!(va, vb);
    a.scale_once();
    b.rescale(3);
    assert_eq!(a.to_limbs(), b.to_limbs());
}

#[test]
fn checkpoint_round_trip() {
    let limbs: Vec<u128> = vec![1, 0, M - 1, 123456789];
    let store = DigitStore::from_limbs(&limbs);
    let bytes = encode(907, 42, &store);
    let back = decode(&bytes).expect("a fresh record must decode");
    assert_eq!(back.step_index, 907);
    assert_eq!(back.counter, 42);
    assert_eq!(back.store.to_limbs(), limbs);
}

#[test]
fn checkpoint_round_trip_empty_store() {
    let store = DigitStore::from_limbs(&Vec::new());
    let bytes = encode(0, 2, &store);
    assert_eq!(bytes.len(), 24);
    let back = decode(&bytes).expect("an empty record must decode");
    assert_eq!(back.step_index, 0);
    assert_eq!(back.counter, 2);
    assert_eq!(back.store.to_limbs(), Vec::<u128>::new());
}

#[test]
fn checkpoint_layout_exact() {
    let store = DigitStore::from_limbs(&vec![3]);
    let bytes = encode(1, 2, &store);
    let mut expect: Vec<u8> = Vec::new();
    expect.extend_from_slice(&1u64.to_le_bytes());
    expect.extend_from_slice(&2u64.to_le_bytes());
    expect.extend_from_slice(&16u64.to_le_bytes());
    expect.extend_from_slice(&3u128.to_le_bytes());
    assert_eq!(bytes, expect);
}

#[test]
fn decode_rejects_short_record() {
    assert!(decode(&Vec::new()).is_none());
    assert!(decode(&vec![0u8; 23]).is_none());
}

#[test]
fn decode_rejects_truncated_body() {
    let store = DigitStore::from_limbs(&vec![5, 6]);
    let mut bytes = encode(3, 9, &store);
    bytes.pop();
    assert!(decode(&bytes).is_none());
}

#[test]
fn decode_rejects_oversized_limb() {
    let store = DigitStore::from_limbs(&vec![5]);
    let mut bytes = encode(3, 9, &store);
    for b in bytes.iter_mut().skip(24) {
        *b = 0xff;
    }
    assert!(decode(&bytes).is_none());
}

#[test]
fn decode_rejects_negative_counter_bits() {
    let store = DigitStore::from_limbs(&Vec::new());
    let mut bytes = encode(0, 2, &store);
    bytes[15] = 0x80;
    assert!(decode(&bytes).is_none());
}

#[test]
fn step_16_rewrites_zero_limb() {
    let mut a: i64 = 2;
    let word = step_16(0, &mut a).expect("zero digits never breach");
    assert_eq!(a, 18);
    assert_eq!(word, 0x02020202020202020202020202020202);
}

#[test]
fn step_16_halts_on_first_breach() {
    let mut a: i64 = 2;
    assert!(step_16(5, &mut a).is_none());
    assert_eq!(a, 0);
}

#[test]
fn machine_first_step_from_zero() {
    let mut m = Machine::new(4);
    match m.step() {
        StepOutcome::Ran { step, counter_before, prev_word, word } => {
            assert_eq!(step, 0);
            assert_eq!(counter_before, 2);
            assert_eq!(prev_word, 0);
            assert_eq!(word, 0x02020202020202020202020202020202);
        }
        StepOutcome::Halted { .. } => panic!("the zero limb never breaches"),
    }
    assert_eq!(m.step_index, 1);
    assert_eq!(m.counter, 18);
    assert!(!m.halted);
    assert_eq!(
        m.store.to_limbs(),
        vec![2488287991662112153408463353298, 777264]
    );
}

#[test]
fn machine_halts_at_exact_step() {
    // the lowest digit 5 carries delta -2: 2 - 2 = 0 breaches at once
    let mut m = Machine {
        step_index: 0,
        counter: 2,
        store: DigitStore::from_limbs(&vec![5]),
        last_word: 0,
        halted: false,
        chunk_limbs: 2,
    };
    match m.step() {
        StepOutcome::Halted { step, counter } => {
            assert_eq!(step, 0);
            assert_eq!(counter, 0);
        }
        StepOutcome::Ran { .. } => panic!("digit 5 breaches on the first digit"),
    }
    assert!(m.halted);
}

#[test]
fn machine_does_not_halt_early() {
    // limb 405: digit 0 first (counter 3), then digit 5 (counter 1): the
    // breach lands on the second digit of the first limb, not the first
    let mut m = Machine {
        step_index: 0,
        counter: 2,
        store: DigitStore::from_limbs(&vec![405]),
        last_word: 0,
        halted: false,
        chunk_limbs: 2,
    };
    match m.step() {
        StepOutcome::Halted { step, counter } => {
            assert_eq!(step, 0);
            assert_eq!(counter, 1);
        }
        StepOutcome::Ran { .. } => panic!("digit 5 breaches within the first limb"),
    }
}

#[test]
fn machine_runs_many_steps() {
    let mut m = Machine::new(3);
    for expect in 0..8u64 {
        match m.step() {
            StepOutcome::Ran { step, .. } => assert_eq!(step, expect),
            StepOutcome::Halted { .. } => panic!("the all-zero run never breaches"),
        }
    }
    assert_eq!(m.step_index, 8);
}

#[test]
fn cmp_wide_orders_values() {
    assert_eq!(cmp_wide(&[1], &[1]), Ordering::Equal);
    assert_eq!(cmp_wide(&[], &[1]), Ordering::Less);
    assert_eq!(cmp_wide(&[9], &[0, 1]), Ordering::Less);
    assert_eq!(cmp_wide(&[0, 2], &[u64::MAX, 1]), Ordering::Greater);
    assert_eq!(cmp_wide(&[5, 7], &[6, 7]), Ordering::Less);
    assert_eq!(cmp_wide(&[6, 7], &[5, 7]), Ordering::Greater);
    assert_eq!(cmp_wide(&[1, 2, 3], &[1, 2, 3]), Ordering::Equal);
}

#[test]
fn stats_snapshot_values() {
    let s = Stats::new();
    assert_eq!(s.steps, 0);
    assert_eq!(s.counter, 2);
    assert_eq!(s.word_lo, 0);
    assert_eq!(s.word_hi, 0);
    let mut m = Machine::new(2);
    m.step();
    let s = Stats::of_machine(&m);
    assert_eq!(s.steps, 1);
    assert_eq!(s.counter, 18);
    assert_eq!(s.word_lo, 0x0202020202020202);
    assert_eq!(s.word_hi, 0x0202020202020202);
}

#[test]
fn modulus_is_a_power_of_81() {
    assert_eq!(LIMB_MODULUS, 81u128.pow(DIGITS_PER_LIMB as u32));
    assert_eq!(LIMB_MODULUS, M);
}
