//! The digit store: a mixed-radix big integer held as an ordered sequence of
//! fixed-capacity pages, with a cursor marking the lowest live limb within
//! the head page.
//!
//! New high-order limbs are appended at the tail; a fully consumed head page
//! is discarded and the cursor wraps to the next page.  Every stored limb
//! lies in `[0, LIMB_MODULUS)`.

use vstd::prelude::*;
use crate::scale::add_at_spec;
use crate::scale::add_low_spec;
use crate::scale::all_limbs_ok;
use crate::scale::lemma_ripple_props;
use crate::scale::lemma_ripple_zero;
use crate::scale::lemma_scale_carry_in;
use crate::scale::lemma_scale_concat;
use crate::scale::lemma_split_carry;
use crate::scale::limb_ok;
use crate::scale::ripple;
use crate::scale::scale_chain;
use crate::scale::scale_spec;
use crate::scale::scale_step;
use crate::scale::seq_extend;
use crate::scale::LIMB_MODULUS;
use vstd::arithmetic::div_mod::lemma_fundamental_div_mod;
use vstd::arithmetic::div_mod::lemma_fundamental_div_mod_converse;

verus! {

/// Number of limb slots in one page.
pub const PAGE_CAP: usize = 8;

/// Concatenation of a sequence of pages into one limb sequence.
pub open spec fn cat_pages(ps: Seq<Seq<u128>>) -> Seq<u128>
    decreases ps.len(),
{
    if ps.len() == 0 {
        Seq::empty()
    } else {
        ps[0] + cat_pages(ps.skip(1))
    }
}

/// Every page except the last is full; the last page is never empty.
pub open spec fn pages_wf(ps: Seq<Seq<u128>>) -> bool {
    &&& forall|i: int| 0 <= i < ps.len() - 1 ==> (#[trigger] ps[i]).len() == PAGE_CAP
    &&& ps.len() > 0 ==> 1 <= ps.last().len() <= PAGE_CAP
}

proof fn lemma_cat_append(a: Seq<Seq<u128>>, b: Seq<Seq<u128>>)
    ensures
        cat_pages(a + b) == cat_pages(a) + cat_pages(b),
    decreases a.len(),
{
    if a.len() == 0 {
        assert(a + b =~= b);
        assert(cat_pages(a) + cat_pages(b) =~= cat_pages(b));
    } else {
        assert((a + b).skip(1) =~= a.skip(1) + b);
        lemma_cat_append(a.skip(1), b);
        assert(cat_pages(a + b) =~= cat_pages(a) + cat_pages(b));
    }
}

proof fn lemma_cat_one(p: Seq<u128>)
    ensures
        cat_pages(seq![p]) == p,
{
    assert(seq![p].skip(1) =~= Seq::<Seq<u128>>::empty());
    assert(cat_pages(seq![p].skip(1)) =~= Seq::<u128>::empty());
    assert(cat_pages(seq![p]) =~= p);
}

proof fn lemma_cat_len(ps: Seq<Seq<u128>>)
    requires
        pages_wf(ps),
    ensures
        ps.len() == 0 ==> cat_pages(ps).len() == 0,
        ps.len() > 0 ==> cat_pages(ps).len() == (ps.len() - 1) * PAGE_CAP + ps.last().len(),
    decreases ps.len(),
{
    if ps.len() == 0 {
    } else if ps.len() == 1 {
        assert(cat_pages(ps.skip(1)).len() == 0);
    } else {
        assert(pages_wf(ps.skip(1))) by {
            assert(forall|i: int|
                0 <= i < ps.skip(1).len() - 1 ==> (#[trigger] ps.skip(1)[i]).len()
                    == PAGE_CAP) by {
                assert(forall|i: int|
                    0 <= i < ps.skip(1).len() - 1 ==> ps.skip(1)[i] == ps[i + 1]);
            }
            assert(ps.skip(1).last() == ps.last());
        }
        lemma_cat_len(ps.skip(1));
        assert(ps[0].len() == PAGE_CAP);
    }
}

proof fn lemma_cat_index(ps: Seq<Seq<u128>>, g: int)
    requires
        pages_wf(ps),
        0 <= g < cat_pages(ps).len(),
    ensures
        0 <= g / (PAGE_CAP as int) < ps.len(),
        0 <= g % (PAGE_CAP as int) < ps[g / (PAGE_CAP as int)].len(),
        cat_pages(ps)[g] == ps[g / (PAGE_CAP as int)][g % (PAGE_CAP as int)],
    decreases ps.len(),
{
    lemma_cat_len(ps);
    let cap = PAGE_CAP as int;
    if g < ps[0].len() {
        assert(ps.len() > 1 ==> ps[0].len() == PAGE_CAP);
        assert(g / cap == 0 && g % cap == g);
        assert(cat_pages(ps)[g] == ps[0][g]);
    } else {
        assert(ps.len() > 1);
        assert(ps[0].len() == PAGE_CAP);
        assert(pages_wf(ps.skip(1))) by {
            assert(forall|i: int|
                0 <= i < ps.skip(1).len() - 1 ==> ps.skip(1)[i] == ps[i + 1]);
            assert(ps.skip(1).last() == ps.last());
        }
        lemma_cat_index(ps.skip(1), g - cap);
        assert(cat_pages(ps)[g] == cat_pages(ps.skip(1))[g - cap]);
        assert((g - cap) / cap == g / cap - 1 && (g - cap) % cap == g % cap);
        assert(ps.skip(1)[g / cap - 1] == ps[g / cap]);
    }
}

proof fn lemma_cat_update(ps: Seq<Seq<u128>>, g: int, x: u128)
    requires
        pages_wf(ps),
        0 <= g < cat_pages(ps).len(),
    ensures
        cat_pages(
            ps.update(
                g / (PAGE_CAP as int),
                ps[g / (PAGE_CAP as int)].update(g % (PAGE_CAP as int), x),
            ),
        ) == cat_pages(ps).update(g, x),
    decreases ps.len(),
{
    lemma_cat_len(ps);
    lemma_cat_index(ps, g);
    let cap = PAGE_CAP as int;
    let pi = g / cap;
    let li = g % cap;
    let ps2 = ps.update(pi, ps[pi].update(li, x));
    if g < ps[0].len() {
        assert(pi == 0 && li == g);
        assert(ps2.skip(1) =~= ps.skip(1));
        assert(cat_pages(ps2) == ps[0].update(g, x) + cat_pages(ps.skip(1)));
        assert(cat_pages(ps2) =~= cat_pages(ps).update(g, x));
    } else {
        assert(ps.len() > 1);
        assert(ps[0].len() == PAGE_CAP);
        assert(pi >= 1);
        assert(pages_wf(ps.skip(1))) by {
            assert(forall|i: int|
                0 <= i < ps.skip(1).len() - 1 ==> ps.skip(1)[i] == ps[i + 1]);
            assert(ps.skip(1).last() == ps.last());
        }
        assert((g - cap) / cap == pi - 1 && (g - cap) % cap == li);
        lemma_cat_update(ps.skip(1), g - cap, x);
        assert(ps2[0] == ps[0]);
        assert(ps2.skip(1) =~= ps.skip(1).update(pi - 1, ps.skip(1)[pi - 1].update(li, x)));
        assert(ps.skip(1)[pi - 1] == ps[pi]);
        assert(cat_pages(ps2) == ps[0] + cat_pages(ps.skip(1)).update(g - cap, x));
        assert(cat_pages(ps2) =~= cat_pages(ps).update(g, x));
    }
}


/// Boundary of chunk `k` when `n` limbs are cut into chunks of `chunk`
/// limbs each (the final chunk may be shorter).
pub open spec fn chunk_bound(k: int, chunk: int, n: int) -> int {
    if k * chunk <= n {
        k * chunk
    } else {
        n
    }
}

proof fn lemma_bound_mono(a: int, b: int, c: int, n: int)
    requires
        0 <= a <= b,
        c >= 1,
        n >= 0,
    ensures
        0 <= chunk_bound(a, c, n) <= chunk_bound(b, c, n) <= n,
{
    assert(0 <= a * c <= b * c) by (nonlinear_arith)
        requires
            0 <= a <= b,
            c >= 0,
    ;
}


/// Chunks `lo..ex.len()` of `olds` have been scaled independently with
/// carry-in 0: `cur` holds each chunk's rewritten limbs and `ex` its exit
/// carry.
spec fn chunk_ok(ex: Seq<u128>, i: int, cur: Seq<u128>, olds: Seq<u128>, cki: int, ni: int) -> bool {
    &&& chunk_bound(i, cki, ni) == i * cki
    &&& chunk_bound(i, cki, ni) < ni
    &&& ex[i] == scale_chain(
        olds.subrange(chunk_bound(i, cki, ni), chunk_bound(i + 1, cki, ni)),
        0,
    ).1
    &&& ex[i] < 256
    &&& cur.subrange(chunk_bound(i, cki, ni), chunk_bound(i + 1, cki, ni)) == scale_chain(
        olds.subrange(chunk_bound(i, cki, ni), chunk_bound(i + 1, cki, ni)),
        0,
    ).0
}

spec fn chunks_scaled(
    ex: Seq<u128>,
    lo: int,
    cur: Seq<u128>,
    olds: Seq<u128>,
    cki: int,
    ni: int,
) -> bool {
    forall|i: int| lo <= i < ex.len() ==> #[trigger] chunk_ok(ex, i, cur, olds, cki, ni)
}

/// The mixed-radix big integer: pages of limbs plus the head cursor.
pub struct DigitStore {
    pages: Vec<Vec<u128>>,
    cursor: usize,
}

impl DigitStore {
    /// The pages as a sequence of limb sequences.
    closed spec fn pages_view(self) -> Seq<Seq<u128>> {
        self.pages@.map_values(|p: Vec<u128>| p@)
    }

    /// The live limbs, lowest order first.
    pub closed spec fn limbs(self) -> Seq<u128> {
        cat_pages(self.pages_view()).skip(self.cursor as int)
    }

    /// Structural invariant of the store.
    pub closed spec fn wf(self) -> bool {
        &&& pages_wf(self.pages_view())
        &&& if self.pages.len() == 0 {
            self.cursor == 0
        } else {
            self.cursor < self.pages_view()[0].len()
        }
        &&& all_limbs_ok(cat_pages(self.pages_view()))
        &&& cat_pages(self.pages_view()).len() + 3 * PAGE_CAP <= usize::MAX
    }

    /// A well-formed store has well-formed live limbs; an empty page list
    /// means no live limbs.
    pub proof fn lemma_wf_facts(self)
        requires
            self.wf(),
        ensures
            all_limbs_ok(self.limbs()),
            self.limbs().len() + 3 * PAGE_CAP <= usize::MAX,
    {
        let cat = cat_pages(self.pages_view());
        assert(forall|i: int|
            0 <= i < self.limbs().len() ==> #[trigger] self.limbs()[i] == cat[i
                + self.cursor as int]);
    }

    /// Creates an empty store (the integer zero with no stored limbs).
    pub fn new() -> (s: DigitStore)
        ensures
            s.wf(),
            s.limbs() == Seq::<u128>::empty(),
    {
        let s = DigitStore { pages: Vec::new(), cursor: 0 };
        proof {
            assert(s.pages_view() =~= Seq::<Seq<u128>>::empty());
            assert(s.limbs() =~= Seq::<u128>::empty());
        }
        s
    }

    /// Number of live limbs.
    pub fn len(&self) -> (n: usize)
        requires
            self.wf(),
        ensures
            n == self.limbs().len(),
    {
        proof {
            lemma_cat_len(self.pages_view());
        }
        if self.pages.len() == 0 {
            0
        } else {
            let last_len: usize = self.pages[self.pages.len() - 1].len();
            (self.pages.len() - 1) * PAGE_CAP + last_len - self.cursor
        }
    }

    /// Reads the live limb at logical position `p`.
    fn get_limb(&self, p: usize) -> (x: u128)
        requires
            self.wf(),
            p < self.limbs().len(),
        ensures
            x == self.limbs()[p as int],
    {
        let g: usize = self.cursor + p;
        proof {
            lemma_cat_len(self.pages_view());
            lemma_cat_index(self.pages_view(), g as int);
        }
        let pi: usize = g / PAGE_CAP;
        let li: usize = g % PAGE_CAP;
        self.pages[pi][li]
    }

    /// Overwrites the live limb at logical position `p`.
    fn set_limb(&mut self, p: usize, x: u128)
        requires
            old(self).wf(),
            p < old(self).limbs().len(),
            limb_ok(x),
        ensures
            final(self).wf(),
            final(self).limbs() == old(self).limbs().update(p as int, x),
    {
        let g: usize = self.cursor + p;
        proof {
            lemma_cat_len(self.pages_view());
            lemma_cat_index(self.pages_view(), g as int);
            lemma_cat_update(self.pages_view(), g as int, x);
        }
        let pi: usize = g / PAGE_CAP;
        let li: usize = g % PAGE_CAP;
        self.pages[pi][li] = x;
        proof {
            let oldps = old(self).pages_view();
            assert(self.pages_view() =~= oldps.update(
                pi as int,
                oldps[pi as int].update(li as int, x),
            ));
            assert(self.limbs() =~= old(self).limbs().update(p as int, x));
            assert(pages_wf(self.pages_view())) by {
                assert(forall|i: int|
                    0 <= i < self.pages_view().len() && i != pi ==> self.pages_view()[i]
                        == oldps[i]);
            }
            assert(all_limbs_ok(cat_pages(self.pages_view())));
        }
    }

    /// Returns and removes the lowest-order limb.  A fully consumed head
    /// page is discarded and the cursor wraps to the next page.
    pub fn pop(&mut self) -> (v: u128)
        requires
            old(self).wf(),
            old(self).limbs().len() >= 1,
        ensures
            final(self).wf(),
            v == old(self).limbs()[0],
            limb_ok(v),
            final(self).limbs() == old(self).limbs().skip(1),
    {
        proof {
            lemma_cat_len(self.pages_view());
            self.lemma_wf_facts();
        }
        let v: u128 = self.pages[0][self.cursor];
        proof {
            let cat = cat_pages(self.pages_view());
            assert(cat[self.cursor as int] == self.pages_view()[0][self.cursor as int]);
            assert(v == old(self).limbs()[0]);
        }
        self.cursor = self.cursor + 1;
        if self.cursor == self.pages[0].len() {
            let ghost oldps = self.pages_view();
            self.pages.remove(0);
            self.cursor = 0;
            proof {
                assert(self.pages_view() =~= oldps.skip(1));
                assert(cat_pages(oldps) == oldps[0] + cat_pages(oldps.skip(1)));
                assert(forall|i: int|
                    0 <= i < cat_pages(oldps.skip(1)).len()
                        ==> #[trigger] cat_pages(oldps.skip(1))[i] == cat_pages(oldps)[i
                        + oldps[0].len()]);
                assert(all_limbs_ok(cat_pages(self.pages_view())));
                assert(self.limbs() =~= old(self).limbs().skip(1));
                assert(pages_wf(self.pages_view())) by {
                    assert(forall|i: int|
                        0 <= i < oldps.skip(1).len() - 1 ==> oldps.skip(1)[i] == oldps[i
                            + 1]);
                    if oldps.skip(1).len() > 0 {
                        assert(oldps.skip(1).last() == oldps.last());
                    }
                }
                lemma_cat_len(oldps);
                lemma_cat_len(self.pages_view());
            }
        } else {
            proof {
                assert(self.limbs() =~= old(self).limbs().skip(1));
            }
        }
        v
    }

    /// Appends one limb at the high-order end, opening a new page when the
    /// tail page is full.
    pub fn push_high(&mut self, x: u128)
        requires
            old(self).wf(),
            limb_ok(x),
            old(self).limbs().len() + 4 * PAGE_CAP <= usize::MAX,
        ensures
            final(self).wf(),
            final(self).limbs() == old(self).limbs().push(x),
    {
        proof {
            lemma_cat_len(self.pages_view());
        }
        let n: usize = self.pages.len();
        if n == 0 || self.pages[n - 1].len() == PAGE_CAP {
            let ghost oldps = self.pages_view();
            let mut pg: Vec<u128> = Vec::new();
            pg.push(x);
            self.pages.push(pg);
            proof {
                assert(self.pages_view() =~= oldps.push(pg@));
                assert(self.pages_view() =~= oldps + seq![pg@]);
                lemma_cat_append(oldps, seq![pg@]);
                lemma_cat_one(pg@);
                assert(cat_pages(self.pages_view()) =~= cat_pages(oldps).push(x));
                assert(self.limbs() =~= old(self).limbs().push(x));
                assert(pages_wf(self.pages_view())) by {
                    assert(forall|i: int|
                        0 <= i < oldps.len() ==> self.pages_view()[i] == oldps[i]);
                }
                lemma_cat_len(self.pages_view());
            }
        } else {
            let ghost oldps = self.pages_view();
            self.pages[n - 1].push(x);
            proof {
                let li = oldps[n - 1].len() as int;
                assert(self.pages_view() =~= oldps.update(
                    n - 1,
                    oldps[n - 1].push(x),
                ));
                assert(oldps =~= oldps.take(n - 1) + seq![oldps[n - 1]]);
                assert(self.pages_view() =~= oldps.take(n - 1) + seq![oldps[n - 1].push(x)]);
                lemma_cat_append(oldps.take(n - 1), seq![oldps[n - 1]]);
                lemma_cat_append(oldps.take(n - 1), seq![oldps[n - 1].push(x)]);
                lemma_cat_one(oldps[n - 1]);
                lemma_cat_one(oldps[n - 1].push(x));
                assert(cat_pages(self.pages_view()) =~= cat_pages(oldps).push(x));
                assert(self.limbs() =~= old(self).limbs().push(x));
                assert(pages_wf(self.pages_view())) by {
                    assert(forall|i: int|
                        0 <= i < oldps.len() - 1 ==> self.pages_view()[i] == oldps[i]);
                }
                lemma_cat_len(self.pages_view());
            }
        }
    }

    /// Adds `v` at logical limb position `pos`, wrapping each limb modulo
    /// the modulus and carrying the quotient forward, appending new
    /// high-order limbs if the carry chain runs past the current tail.
    pub fn add_at(&mut self, pos: usize, v: u128)
        requires
            old(self).wf(),
            pos <= old(self).limbs().len(),
            old(self).limbs().len() + 5 * PAGE_CAP <= usize::MAX,
        ensures
            final(self).wf(),
            final(self).limbs() == add_at_spec(old(self).limbs(), pos as int, v as nat),
    {
        proof {
            self.lemma_wf_facts();
        }
        let n: usize = self.len();
        let mut p: usize = pos;
        let mut c: u128 = v;
        while c > 0 && p < n
            invariant
                self.wf(),
                n == self.limbs().len(),
                n == old(self).limbs().len(),
                pos <= p <= n,
                old(self).limbs().len() + 5 * PAGE_CAP <= usize::MAX,
                add_at_spec(old(self).limbs(), pos as int, v as nat) == self.limbs().take(
                    p as int,
                ) + ripple(self.limbs().skip(p as int), c as nat).0 + seq_extend(
                    ripple(self.limbs().skip(p as int), c as nat).1,
                ),
            decreases n - p,
        {
            let ghost pre = self.limbs();
            let ghost p0 = p as int;
            let ghost c0 = c as nat;
            let x: u128 = self.get_limb(p);
            let c_lo: u128 = c % LIMB_MODULUS;
            let c_hi: u128 = c / LIMB_MODULUS;
            proof {
                self.lemma_wf_facts();
                assert(x < LIMB_MODULUS);
            }
            let t: u128 = x + c_lo;
            let (nl, bump): (u128, u128) = if t >= LIMB_MODULUS {
                (t - LIMB_MODULUS, 1)
            } else {
                (t, 0)
            };
            proof {
                let m: int = LIMB_MODULUS as int;
                lemma_split_carry(c as int, x as int);
                lemma_fundamental_div_mod_converse(t as int, m, bump as int, nl as int);
                assert(nl == ((x + c0) % m) as u128);
                assert(c_hi + bump == (x + c0) / m);
            }
            self.set_limb(p, nl);
            c = c_hi + bump;
            p = p + 1;
            proof {
                let m: int = LIMB_MODULUS as int;
                assert(pre.skip(p0)[0] == x);
                assert(pre.skip(p0).skip(1) =~= pre.skip(p0 + 1));
                assert(ripple(pre.skip(p0), c0).0 == seq![nl] + ripple(
                    pre.skip(p0 + 1),
                    c as nat,
                ).0 && ripple(pre.skip(p0), c0).1 == ripple(pre.skip(p0 + 1), c as nat).1)
                    by {
                    assert(((x + c0) / m) as nat == c as nat);
                    assert(ripple(pre.skip(p0), c0).0 == seq![(((x + c0) % m)) as u128]
                        + ripple(pre.skip(p0).skip(1), ((x + c0) / m) as nat).0);
                }
                assert(self.limbs().take(p as int) =~= pre.take(p0) + seq![nl]);
                assert(self.limbs().skip(p as int) =~= pre.skip(p0 + 1));
                assert(pre.take(p0) + ripple(pre.skip(p0), c0).0 + seq_extend(
                    ripple(pre.skip(p0), c0).1,
                ) =~= self.limbs().take(p as int) + ripple(
                    self.limbs().skip(p as int),
                    c as nat,
                ).0 + seq_extend(ripple(self.limbs().skip(p as int), c as nat).1));
            }
        }
        proof {
            self.lemma_wf_facts();
        }
        if c == 0 {
            proof {
                assert(forall|i: int|
                    0 <= i < self.limbs().skip(p as int).len()
                        ==> self.limbs().skip(p as int)[i] == self.limbs()[i + p]);
                lemma_ripple_zero(self.limbs().skip(p as int));
                assert(self.limbs().take(p as int) + self.limbs().skip(p as int)
                    + seq_extend(0) =~= self.limbs());
            }
        } else {
            proof {
                assert(p == n);
                assert(self.limbs().skip(n as int) =~= Seq::<u128>::empty());
                assert(ripple(Seq::<u128>::empty(), c as nat).1 == c as nat);
                assert(self.limbs().take(n as int) =~= self.limbs());
            }
            if c >= LIMB_MODULUS {
                let lo: u128 = c % LIMB_MODULUS;
                let hi: u128 = c / LIMB_MODULUS;
                proof {
                    let m: int = LIMB_MODULUS as int;
                    lemma_fundamental_div_mod(c as int, m);
                    assert(hi * m <= c) by (nonlinear_arith)
                        requires
                            c as int == m * (hi as int) + (lo as int),
                            lo >= 0,
                    ;
                    assert(hi < LIMB_MODULUS);
                }
                let ghost pre = self.limbs();
                self.push_high(lo);
                self.push_high(hi);
                proof {
                    assert(self.limbs() =~= pre + seq_extend(c as nat));
                }
            } else {
                let ghost pre = self.limbs();
                self.push_high(c);
                proof {
                    assert(self.limbs() =~= pre + seq_extend(c as nat));
                }
            }
        }
    }

    /// Reclaims the slot just below the lowest live limb (opening a fresh
    /// head page when none is vacant) and adds `v` there: the slot takes
    /// `v % M` and the quotient carries into the higher limbs.
    pub fn add_low(&mut self, v: u128)
        requires
            old(self).wf(),
            old(self).limbs().len() + 6 * PAGE_CAP <= usize::MAX,
        ensures
            final(self).wf(),
            final(self).limbs() == add_low_spec(old(self).limbs(), v as nat),
    {
        proof {
            self.lemma_wf_facts();
            lemma_cat_len(self.pages_view());
        }
        if self.cursor == 0 {
            let ghost oldps = self.pages_view();
            let mut pg: Vec<u128> = Vec::new();
            while pg.len() < PAGE_CAP
                invariant
                    pg.len() <= PAGE_CAP,
                    forall|i: int| 0 <= i < pg.len() ==> pg@[i] == 0u128,
                decreases PAGE_CAP - pg.len(),
            {
                pg.push(0);
            }
            self.pages.insert(0, pg);
            self.cursor = PAGE_CAP - 1;
            proof {
                assert(self.pages_view() =~= seq![pg@] + oldps);
                assert((seq![pg@] + oldps).skip(1) =~= oldps);
                assert(cat_pages(self.pages_view()) == pg@ + cat_pages(oldps));
                assert(pages_wf(self.pages_view())) by {
                    assert(forall|i: int|
                        1 <= i < self.pages_view().len() ==> self.pages_view()[i] == oldps[i
                            - 1]);
                    if oldps.len() > 0 {
                        assert(self.pages_view().last() == oldps.last());
                    } else {
                        assert(self.pages_view().last() == pg@);
                    }
                }
                assert(all_limbs_ok(cat_pages(self.pages_view()))) by {
                    assert(forall|i: int|
                        0 <= i < PAGE_CAP ==> cat_pages(self.pages_view())[i] == 0u128);
                    assert(forall|i: int|
                        PAGE_CAP <= i < cat_pages(self.pages_view()).len()
                            ==> cat_pages(self.pages_view())[i] == cat_pages(oldps)[i
                            - PAGE_CAP]);
                }
                lemma_cat_len(self.pages_view());
                assert(self.wf());
                assert(self.limbs() =~= seq![0u128] + old(self).limbs());
            }
        } else {
            self.cursor = self.cursor - 1;
            proof {
                assert(self.wf());
                assert(self.limbs()[0] == cat_pages(self.pages_view())[self.cursor as int]);
                assert(forall|i: int|
                    1 <= i < self.limbs().len() ==> self.limbs()[i] == old(self).limbs()[i
                        - 1]);
            }
            self.set_limb(0, 0);
            proof {
                assert(self.limbs() =~= seq![0u128] + old(self).limbs());
            }
        }
        self.add_at(0, v);
        proof {
            assert(final(self).limbs() == add_at_spec(
                seq![0u128] + old(self).limbs(),
                0,
                v as nat,
            ));
        }
    }

    /// Applies the scaling primitive across limb positions `[from, to)`
    /// with carry-in 0, in ascending order, and returns the run's exit
    /// carry.  Limbs outside the range are untouched.
    fn scale_run(&mut self, from: usize, to: usize) -> (c: u128)
        requires
            old(self).wf(),
            from <= to <= old(self).limbs().len(),
        ensures
            final(self).wf(),
            final(self).limbs().len() == old(self).limbs().len(),
            final(self).limbs() == old(self).limbs().take(from as int) + scale_chain(
                old(self).limbs().subrange(from as int, to as int),
                0,
            ).0 + old(self).limbs().skip(to as int),
            c == scale_chain(old(self).limbs().subrange(from as int, to as int), 0).1,
            c < 256,
    {
        let mut p: usize = from;
        let mut c: u128 = 0;
        while p < to
            invariant
                self.wf(),
                from <= p <= to <= self.limbs().len(),
                self.limbs().len() == old(self).limbs().len(),
                c < 256,
                self.limbs().take(from as int) == old(self).limbs().take(from as int),
                self.limbs().skip(p as int) == old(self).limbs().skip(p as int),
                scale_chain(old(self).limbs().subrange(from as int, to as int), 0).0
                    == self.limbs().subrange(from as int, p as int) + scale_chain(
                    old(self).limbs().subrange(p as int, to as int),
                    c as nat,
                ).0,
                scale_chain(old(self).limbs().subrange(from as int, to as int), 0).1
                    == scale_chain(
                    old(self).limbs().subrange(p as int, to as int),
                    c as nat,
                ).1,
            decreases to - p,
        {
            let ghost pre = self.limbs();
            let ghost olds = old(self).limbs();
            let ghost p0 = p as int;
            let ghost c0 = c as nat;
            let x: u128 = self.get_limb(p);
            proof {
                self.lemma_wf_facts();
                assert(olds.subrange(p0, to as int)[0] == olds[p0]);
                assert(olds[p0] == pre.skip(p0)[0]);
                assert(x == olds[p0]);
            }
            let (nl, nc): (u128, u128) = scale_step(x, c);
            proof {
                let m: int = LIMB_MODULUS as int;
                lemma_fundamental_div_mod_converse(
                    x * 256 + c0,
                    m,
                    nc as int,
                    nl as int,
                );
                let seg = olds.subrange(p0, to as int);
                assert(seg.skip(1) =~= olds.subrange(p0 + 1, to as int));
                assert(scale_chain(seg, c0).0 == seq![nl] + scale_chain(
                    olds.subrange(p0 + 1, to as int),
                    nc as nat,
                ).0);
                assert(scale_chain(seg, c0).1 == scale_chain(
                    olds.subrange(p0 + 1, to as int),
                    nc as nat,
                ).1);
            }
            self.set_limb(p, nl);
            c = nc;
            p = p + 1;
            proof {
                assert(self.limbs().take(from as int) =~= pre.take(from as int));
                assert(self.limbs().skip(p as int) =~= pre.skip(p as int));
                assert(pre.skip(p0).skip(1) =~= pre.skip(p as int));
                assert(old(self).limbs().skip(p0).skip(1) =~= old(self).limbs().skip(
                    p as int,
                ));
                assert(self.limbs().skip(p as int) =~= old(self).limbs().skip(p as int));
                assert(self.limbs().subrange(from as int, p as int) =~= pre.subrange(
                    from as int,
                    p0,
                ) + seq![nl]);
                assert(pre.subrange(from as int, p0) + seq![nl] + scale_chain(
                    old(self).limbs().subrange(p as int, to as int),
                    c as nat,
                ).0 =~= pre.subrange(from as int, p0) + (seq![nl] + scale_chain(
                    old(self).limbs().subrange(p as int, to as int),
                    c as nat,
                ).0));
            }
        }
        proof {
            let olds = old(self).limbs();
            assert(olds.subrange(to as int, to as int) =~= Seq::<u128>::empty());
            assert(scale_chain(Seq::<u128>::empty(), c as nat).0 =~= Seq::<u128>::empty());
            assert(scale_chain(olds.subrange(from as int, to as int), 0).0 =~= self.limbs()
                .subrange(from as int, to as int));
            assert(self.limbs() =~= self.limbs().take(from as int) + self.limbs().subrange(
                from as int,
                to as int,
            ) + self.limbs().skip(to as int));
            assert(self.limbs().take(from as int) =~= olds.take(from as int));
            assert(self.limbs().skip(to as int) =~= olds.skip(to as int));
        }
        c
    }

    /// Ripples carry `v` into limb positions `[from, to)` in ascending
    /// order and returns the carry left after the run.  Limbs outside the
    /// range are untouched.
    fn ripple_run(&mut self, from: usize, to: usize, v: u128) -> (r: u128)
        requires
            old(self).wf(),
            from <= to <= old(self).limbs().len(),
            v <= 256,
        ensures
            final(self).wf(),
            final(self).limbs().len() == old(self).limbs().len(),
            final(self).limbs() == old(self).limbs().take(from as int) + ripple(
                old(self).limbs().subrange(from as int, to as int),
                v as nat,
            ).0 + old(self).limbs().skip(to as int),
            r == ripple(old(self).limbs().subrange(from as int, to as int), v as nat).1,
            r <= 256,
            to > from ==> r <= 1,
    {
        let mut p: usize = from;
        let mut c: u128 = v;
        while p < to
            invariant
                self.wf(),
                from <= p <= to <= self.limbs().len(),
                self.limbs().len() == old(self).limbs().len(),
                c <= 256,
                p > from ==> c <= 1,
                self.limbs().take(from as int) == old(self).limbs().take(from as int),
                self.limbs().skip(p as int) == old(self).limbs().skip(p as int),
                ripple(old(self).limbs().subrange(from as int, to as int), v as nat).0
                    == self.limbs().subrange(from as int, p as int) + ripple(
                    old(self).limbs().subrange(p as int, to as int),
                    c as nat,
                ).0,
                ripple(old(self).limbs().subrange(from as int, to as int), v as nat).1
                    == ripple(
                    old(self).limbs().subrange(p as int, to as int),
                    c as nat,
                ).1,
            decreases to - p,
        {
            let ghost pre = self.limbs();
            let ghost olds = old(self).limbs();
            let ghost p0 = p as int;
            let ghost c0 = c as nat;
            let x: u128 = self.get_limb(p);
            proof {
                self.lemma_wf_facts();
                assert(olds.subrange(p0, to as int)[0] == olds[p0]);
                assert(olds[p0] == pre.skip(p0)[0]);
                assert(x == olds[p0]);
                assert(x < LIMB_MODULUS);
            }
            let t: u128 = x + c;
            let (nl, bump): (u128, u128) = if t >= LIMB_MODULUS {
                (t - LIMB_MODULUS, 1)
            } else {
                (t, 0)
            };
            proof {
                let m: int = LIMB_MODULUS as int;
                lemma_fundamental_div_mod_converse(t as int, m, bump as int, nl as int);
                let seg = olds.subrange(p0, to as int);
                assert(seg.skip(1) =~= olds.subrange(p0 + 1, to as int));
                assert(ripple(seg, c0).0 == seq![nl] + ripple(
                    olds.subrange(p0 + 1, to as int),
                    bump as nat,
                ).0);
                assert(ripple(seg, c0).1 == ripple(
                    olds.subrange(p0 + 1, to as int),
                    bump as nat,
                ).1);
            }
            self.set_limb(p, nl);
            c = bump;
            p = p + 1;
            proof {
                assert(self.limbs().take(from as int) =~= pre.take(from as int));
                assert(self.limbs().skip(p as int) =~= pre.skip(p as int));
                assert(pre.skip(p0).skip(1) =~= pre.skip(p as int));
                assert(old(self).limbs().skip(p0).skip(1) =~= old(self).limbs().skip(
                    p as int,
                ));
                assert(self.limbs().skip(p as int) =~= old(self).limbs().skip(p as int));
                assert(self.limbs().subrange(from as int, p as int) =~= pre.subrange(
                    from as int,
                    p0,
                ) + seq![nl]);
                assert(pre.subrange(from as int, p0) + seq![nl] + ripple(
                    old(self).limbs().subrange(p as int, to as int),
                    c as nat,
                ).0 =~= pre.subrange(from as int, p0) + (seq![nl] + ripple(
                    old(self).limbs().subrange(p as int, to as int),
                    c as nat,
                ).0));
            }
        }
        proof {
            let olds = old(self).limbs();
            assert(olds.subrange(to as int, to as int) =~= Seq::<u128>::empty());
            assert(ripple(Seq::<u128>::empty(), c as nat).0 =~= Seq::<u128>::empty());
            assert(ripple(olds.subrange(from as int, to as int), v as nat).0 =~= self.limbs()
                .subrange(from as int, to as int));
            assert(self.limbs() =~= self.limbs().take(from as int) + self.limbs().subrange(
                from as int,
                to as int,
            ) + self.limbs().skip(to as int));
            assert(self.limbs().take(from as int) =~= olds.take(from as int));
            assert(self.limbs().skip(to as int) =~= olds.skip(to as int));
        }
        c
    }

    /// The single-threaded scaling pass: every limb is rewritten through
    /// the scaling primitive in ascending index order, and the final carry
    /// is appended as new high-order content.
    pub fn scale_once(&mut self)
        requires
            old(self).wf(),
            old(self).limbs().len() + 5 * PAGE_CAP <= usize::MAX,
        ensures
            final(self).wf(),
            final(self).limbs() == scale_spec(old(self).limbs()),
    {
        let n: usize = self.len();
        let c: u128 = self.scale_run(0, n);
        proof {
            let olds = old(self).limbs();
            assert(olds.subrange(0, n as int) =~= olds);
            assert(olds.take(0) =~= Seq::<u128>::empty());
            assert(olds.skip(n as int) =~= Seq::<u128>::empty());
            assert(self.limbs() =~= scale_chain(olds, 0).0);
        }
        if c > 0 {
            let ghost pre = self.limbs();
            self.push_high(c);
            proof {
                assert(self.limbs() =~= pre + seq_extend(c as nat));
            }
        } else {
            proof {
                assert(self.limbs() =~= self.limbs() + seq_extend(0));
            }
        }
    }

    /// The parallel carry pass: cuts the live limbs into contiguous chunks
    /// of `chunk` limbs, applies the scaling primitive independently to
    /// each chunk with carry-in 0 (each chunk's rewrite reads and writes
    /// its own limbs alone, so chunks can be handed to separate workers),
    /// then folds the reported exit carries back in sequentially, in
    /// increasing chunk order.
    ///
    /// The result is exactly the limbs of the single-threaded pass
    /// (`scale_spec`), for every chunk size.
    pub fn rescale(&mut self, chunk: usize)
        requires
            old(self).wf(),
            chunk >= 1,
            old(self).limbs().len() + 5 * PAGE_CAP <= usize::MAX,
        ensures
            final(self).wf(),
            final(self).limbs() == scale_spec(old(self).limbs()),
    {
        let ghost olds = old(self).limbs();
        let ghost cki = chunk as int;
        let n: usize = self.len();
        let ghost ni = n as int;
        // phase 1: scale each chunk independently, with carry-in 0
        let mut exits: Vec<u128> = Vec::new();
        let mut start: usize = 0;
        proof {
            assert(0int * cki == 0) by (nonlinear_arith);
        }
        while start < n
            invariant
                self.wf(),
                chunk >= 1,
                cki == chunk as int,
                ni == n as int,
                n == self.limbs().len(),
                n == olds.len(),
                olds == old(self).limbs(),
                start <= n,
                start as int == chunk_bound(exits@.len() as int, cki, ni),
                start < n ==> start as int == exits@.len() * cki,
                self.limbs().skip(start as int) == olds.skip(start as int),
                chunks_scaled(exits@, 0, self.limbs(), olds, cki, ni),
            decreases n - start,
        {
            let ghost k = exits@.len() as int;
            let ghost st = start as int;
            let end: usize = if n - start >= chunk {
                start + chunk
            } else {
                n
            };
            let ghost en = end as int;
            proof {
                assert((k + 1) * cki == k * cki + cki) by (nonlinear_arith);
                assert(en == chunk_bound(k + 1, cki, ni));
            }
            let ghost pre = self.limbs();
            let ghost old_exits = exits@;
            let e: u128 = self.scale_run(start, end);
            exits.push(e);
            start = end;
            proof {
                assert(pre.subrange(st, en) =~= olds.subrange(st, en)) by {
                    assert(forall|q: int|
                        0 <= q < en - st ==> pre.skip(st)[q] == pre[st + q] && olds.skip(
                            st,
                        )[q] == olds[st + q]);
                }
                assert(self.limbs().skip(en) =~= olds.skip(en)) by {
                    assert(self.limbs().skip(en) =~= pre.skip(en));
                    assert(pre.skip(st).skip(en - st) =~= pre.skip(en));
                    assert(olds.skip(st).skip(en - st) =~= olds.skip(en));
                }
                assert(self.limbs().subrange(st, en) =~= scale_chain(
                    olds.subrange(st, en),
                    0,
                ).0) by {
                    assert(self.limbs().subrange(st, en) =~= scale_chain(
                        pre.subrange(st, en),
                        0,
                    ).0);
                }
                assert(chunks_scaled(exits@, 0, self.limbs(), olds, cki, ni)) by {
                assert forall|i: int|
                    0 <= i < exits@.len() implies #[trigger] chunk_ok(
                    exits@,
                    i,
                    self.limbs(),
                    olds,
                    cki,
                    ni,
                ) by {
                    if i < k {
                        assert(exits@[i] == old_exits[i]);
                        assert(chunks_scaled(old_exits, 0, pre, olds, cki, ni));
                        assert(chunk_ok(old_exits, i, pre, olds, cki, ni));
                        lemma_bound_mono(i + 1, k, cki, ni);
                        lemma_bound_mono(i, i + 1, cki, ni);
                        assert(self.limbs().take(st) =~= pre.take(st));
                        assert(self.limbs().subrange(
                            chunk_bound(i, cki, ni),
                            chunk_bound(i + 1, cki, ni),
                        ) =~= pre.subrange(
                            chunk_bound(i, cki, ni),
                            chunk_bound(i + 1, cki, ni),
                        )) by {
                            assert(forall|q: int|
                                0 <= q < st ==> self.limbs().take(st)[q] == self.limbs()[q]
                                    && pre.take(st)[q] == pre[q]);
                        }
                    } else {
                        assert(i == k);
                        assert(exits@[k] == e);
                        assert(chunk_bound(k, cki, ni) == st);
                        assert(chunk_bound(k + 1, cki, ni) == en);
                    }
                }
                }
            }
        }
        let ghost nch = exits@.len() as int;
        proof {
            assert(chunk_bound(nch, cki, ni) == ni);
        }
        // phase 2: fold the exit carries back in, in increasing chunk order
        let nchunks: usize = exits.len();
        let mut chi: u128 = 0;
        let mut j: usize = 0;
        proof {
            assert(olds.take(0) =~= Seq::<u128>::empty());
            assert(self.limbs().take(0) =~= Seq::<u128>::empty());
            assert(chunk_bound(0, cki, ni) == 0);
        }
        while j < nchunks
            invariant
                self.wf(),
                chunk >= 1,
                cki == chunk as int,
                ni == n as int,
                n == self.limbs().len(),
                n == olds.len(),
                olds == old(self).limbs(),
                j <= nchunks,
                nchunks == exits@.len(),
                nch == nchunks as int,
                chunk_bound(nch, cki, ni) == ni,
                chi <= 256,
                chi as nat == scale_chain(olds.take(chunk_bound(j as int, cki, ni)), 0).1,
                self.limbs().take(chunk_bound(j as int, cki, ni)) == scale_chain(
                    olds.take(chunk_bound(j as int, cki, ni)),
                    0,
                ).0,
                chunks_scaled(exits@, j as int, self.limbs(), olds, cki, ni),
            decreases nchunks - j,
        {
            let ghost ji = j as int;
            proof {
                assert(chunks_scaled(exits@, ji, self.limbs(), olds, cki, ni));
                assert(chunk_ok(exits@, ji, self.limbs(), olds, cki, ni));
                assert(exits@[ji] < 256 && chunk_bound(ji, cki, ni) == ji * cki
                    && chunk_bound(ji, cki, ni) < ni);
            }
            let from: usize = j * chunk;
            let to: usize = if n - from >= chunk {
                from + chunk
            } else {
                n
            };
            let ghost fr = from as int;
            let ghost toi = to as int;
            proof {
                assert((ji + 1) * cki == ji * cki + cki) by (nonlinear_arith);
                assert(toi == chunk_bound(ji + 1, cki, ni));
                lemma_bound_mono(ji + 1, nch, cki, ni);
            }
            let ghost pre = self.limbs();
            let ghost chi0 = chi as nat;
            let r: u128 = self.ripple_run(from, to, chi);
            let e: u128 = exits[j];
            chi = e + r;
            j = j + 1;
            proof {
                let seg = olds.subrange(fr, toi);
                let segscaled = scale_chain(seg, 0).0;
                assert(pre.subrange(fr, toi) == segscaled);
                lemma_scale_carry_in(seg, chi0);
                // the sequential pass over the longer prefix
                lemma_scale_concat(olds.take(fr), seg, 0);
                assert(olds.take(toi) =~= olds.take(fr) + seg);
                assert(scale_chain(olds.take(toi), 0).1 == chi as nat);
                // the limbs now match the sequential pass up to `to`
                assert(self.limbs().take(toi) =~= pre.take(fr) + ripple(
                    pre.subrange(fr, toi),
                    chi0,
                ).0) by {
                    lemma_ripple_props(pre.subrange(fr, toi), chi0);
                }
                assert(self.limbs().take(toi) =~= scale_chain(olds.take(toi), 0).0);
                // untouched later chunks
                assert(chunks_scaled(exits@, ji + 1, self.limbs(), olds, cki, ni)) by {
                assert forall|i: int|
                    ji + 1 <= i < nch implies #[trigger] chunk_ok(
                    exits@,
                    i,
                    self.limbs(),
                    olds,
                    cki,
                    ni,
                ) by {
                    assert(chunks_scaled(exits@, ji, pre, olds, cki, ni));
                    assert(chunk_ok(exits@, i, pre, olds, cki, ni));
                    lemma_bound_mono(ji + 1, i, cki, ni);
                    lemma_bound_mono(i, i + 1, cki, ni);
                    assert(self.limbs().skip(toi) =~= pre.skip(toi));
                    assert(self.limbs().subrange(
                        chunk_bound(i, cki, ni),
                        chunk_bound(i + 1, cki, ni),
                    ) =~= pre.subrange(
                        chunk_bound(i, cki, ni),
                        chunk_bound(i + 1, cki, ni),
                    )) by {
                        assert(forall|q: int|
                            0 <= q < ni - toi ==> self.limbs().skip(toi)[q] == self.limbs()[
                            toi + q] && pre.skip(toi)[q] == pre[toi + q]);
                    }
                }
                }
            }
        }
        proof {
            assert(self.limbs().take(ni) =~= self.limbs());
            assert(olds.take(ni) =~= olds);
        }
        if chi > 0 {
            let ghost pre = self.limbs();
            self.push_high(chi);
            proof {
                assert(self.limbs() =~= pre + seq_extend(chi as nat));
            }
        } else {
            proof {
                assert(self.limbs() =~= self.limbs() + seq_extend(0));
            }
        }
    }

    /// Copies the live limbs out, lowest order first.
    pub fn to_limbs(&self) -> (v: Vec<u128>)
        requires
            self.wf(),
        ensures
            v@ == self.limbs(),
    {
        let n: usize = self.len();
        let mut v: Vec<u128> = Vec::new();
        let mut p: usize = 0;
        while p < n
            invariant
                self.wf(),
                n == self.limbs().len(),
                0 <= p <= n,
                v@ == self.limbs().take(p as int),
            decreases n - p,
        {
            let x: u128 = self.get_limb(p);
            v.push(x);
            p = p + 1;
            proof {
                assert(v@ =~= self.limbs().take(p as int));
            }
        }
        proof {
            assert(self.limbs().take(n as int) =~= self.limbs());
        }
        v
    }

    /// Rebuilds a store from a plain limb sequence, with the cursor reset
    /// to the start of the head page.
    pub fn from_limbs(limbs: &Vec<u128>) -> (s: DigitStore)
        requires
            all_limbs_ok(limbs@),
            limbs@.len() + 4 * PAGE_CAP <= usize::MAX,
        ensures
            s.wf(),
            s.limbs() == limbs@,
    {
        let mut s = DigitStore::new();
        let n: usize = limbs.len();
        let mut p: usize = 0;
        while p < n
            invariant
                s.wf(),
                all_limbs_ok(limbs@),
                n == limbs@.len(),
                n + 4 * PAGE_CAP <= usize::MAX,
                0 <= p <= n,
                s.limbs() == limbs@.take(p as int),
            decreases n - p,
        {
            let x: u128 = limbs[p];
            s.push_high(x);
            p = p + 1;
            proof {
                assert(limbs@.take(p - 1).push(limbs@[p - 1]) =~= limbs@.take(p as int));
            }
        }
        proof {
            assert(limbs@.take(n as int) =~= limbs@);
        }
        s
    }
}

} // verus!
