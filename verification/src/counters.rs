//! Tier instrumentation: how many ring operations ran at each tier and how
//! many overflow promotions happened.
//!
//! The counts live in an explicit `CounterState`: a per-solver running tally
//! (`tls`), the value of that tally at the last flush (`flushed`), and the
//! folded totals (`global`).  Flushing adds only the delta since the last
//! flush.  All counters wrap on overflow, like the release build of an
//! unchecked `+` and like atomic `fetch_add`; a ghost count of the events
//! recorded into each counter makes "the tally only grows, short of
//! wrapping" statable (`advanced`).
use vstd::prelude::*;
use vstd::wrapping::u64_specs;

verus! {

/// Counter snapshot: ring ops at tier [i64, i128, Big], promotions
/// i64 -> i128 and i128 -> Big.
#[derive(Clone, Copy, Debug)]
pub struct Counters {
    pub ops: [u64; 3],
    pub promo_to_i128: u64,
    pub promo_to_big: u64,
}

impl Counters {
    /// Counter `k`: 0..3 are the per-tier op counts, 3 and 4 the promotions.
    pub open spec fn slot(self, k: int) -> u64 {
        if 0 <= k < 3 {
            self.ops[k]
        } else if k == 3 {
            self.promo_to_i128
        } else {
            self.promo_to_big
        }
    }

    /// `self` is `prev` with counter `k` advanced by one (wrapping).
    pub open spec fn is_bump_of(self, prev: Counters, k: int) -> bool {
        forall|j: int|
            0 <= j < 5 ==> #[trigger] self.slot(j) == if j == k {
                u64_specs::wrapping_add(prev.slot(j), 1)
            } else {
                prev.slot(j)
            }
    }

    /// `self` and `other` hold the same five counts.
    pub open spec fn same_as(self, other: Counters) -> bool {
        forall|j: int| 0 <= j < 5 ==> #[trigger] self.slot(j) == other.slot(j)
    }

    pub fn new() -> (r: Counters)
        ensures
            forall|j: int| 0 <= j < 5 ==> #[trigger] r.slot(j) == 0,
    {
        Counters { ops: [0, 0, 0], promo_to_i128: 0, promo_to_big: 0 }
    }

    pub fn get(&self, k: usize) -> (r: u64)
        requires
            k < 5,
        ensures
            r == self.slot(k as int),
    {
        if k < 3 {
            self.ops[k]
        } else if k == 3 {
            self.promo_to_i128
        } else {
            self.promo_to_big
        }
    }

    /// Set counter `k` to `v`.
    pub fn set(&mut self, k: usize, v: u64)
        requires
            k < 5,
        ensures
            forall|j: int|
                0 <= j < 5 ==> #[trigger] final(self).slot(j) == if j == k as int {
                    v
                } else {
                    old(self).slot(j)
                },
    {
        if k < 3 {
            let mut ops = self.ops;
            ops[k] = v;
            self.ops = ops;
        } else if k == 3 {
            self.promo_to_i128 = v;
        } else {
            self.promo_to_big = v;
        }
    }
}

/// Running tally, flush mark and folded totals; `events` counts, without
/// bound, the events recorded into each tally counter.
#[derive(Clone, Copy)]
pub struct CounterState {
    pub tls: Counters,
    pub flushed: Counters,
    pub global: Counters,
    pub events: Ghost<spec_fn(int) -> int>,
}

impl CounterState {
    /// Number of events recorded into tally counter `j` so far.
    pub open spec fn ev(self, j: int) -> int {
        (self.events@)(j)
    }
}

/// `b` follows `a`: no event count went back, and each tally counter moved
/// on by the number of events recorded in between, wrapping at 2^64.  So
/// each counter only grows until it wraps, and stays put when no event is
/// recorded.
pub open spec fn advanced(a: CounterState, b: CounterState) -> bool {
    forall|j: int|
        0 <= j < 5 ==> #[trigger] b.ev(j) >= a.ev(j) && b.tls.slot(j) as int == (a.tls.slot(j) + (b.ev(j)
            - a.ev(j))) % 0x1_0000_0000_0000_0000
}

/// A state follows itself.
pub proof fn lemma_advanced_refl(a: CounterState)
    ensures
        advanced(a, a),
{
    assert forall|j: int| 0 <= j < 5 implies #[trigger] a.ev(j) >= a.ev(j) && a.tls.slot(j) as int == (a.tls.slot(j)
        + (a.ev(j) - a.ev(j))) % 0x1_0000_0000_0000_0000 by {
        vstd::arithmetic::div_mod::lemma_small_mod(a.tls.slot(j) as nat, 0x1_0000_0000_0000_0000);
    }
}

/// Following is transitive.
pub broadcast proof fn lemma_advanced_trans(a: CounterState, b: CounterState, c: CounterState)
    requires
        #[trigger] advanced(a, b),
        #[trigger] advanced(b, c),
    ensures
        advanced(a, c),
{
    assert forall|j: int| 0 <= j < 5 implies #[trigger] c.ev(j) >= a.ev(j) && c.tls.slot(j) as int == (a.tls.slot(j)
        + (c.ev(j) - a.ev(j))) % 0x1_0000_0000_0000_0000 by {
        assert(b.ev(j) >= a.ev(j) && c.ev(j) >= b.ev(j));
        let x = a.tls.slot(j) + (b.ev(j) - a.ev(j));
        let d = c.ev(j) - b.ev(j);
        vstd::arithmetic::div_mod::lemma_add_mod_noop_right(d, x, 0x1_0000_0000_0000_0000);
        assert(d + x == a.tls.slot(j) + (c.ev(j) - a.ev(j)));
    }
}

/// Between two states that follow each other, a tally counter only grows
/// until it wraps at 2^64, and stays put when no event was recorded into it.
pub proof fn lemma_advanced_grows(a: CounterState, b: CounterState, j: int)
    requires
        advanced(a, b),
        0 <= j < 5,
    ensures
        a.tls.slot(j) + (b.ev(j) - a.ev(j)) < 0x1_0000_0000_0000_0000 ==> b.tls.slot(j) >= a.tls.slot(j),
        b.ev(j) == a.ev(j) ==> b.tls.slot(j) == a.tls.slot(j),
{
    assert(b.ev(j) >= a.ev(j));
    let x = a.tls.slot(j) + (b.ev(j) - a.ev(j));
    if x < 0x1_0000_0000_0000_0000 {
        vstd::arithmetic::div_mod::lemma_small_mod(x as nat, 0x1_0000_0000_0000_0000);
    }
}

/// A flush adds to the totals exactly the events recorded since the last
/// flush: if `b` was just flushed (or reset), the events up to `c` touched
/// neither the flush mark nor the totals, and `d` flushes `c`, then each
/// total grew by the number of events recorded between `b` and `c` (mod
/// 2^64).  After a reset the totals are zero, so they then count exactly the
/// events since the reset.
pub proof fn lemma_flush_adds_events(b: CounterState, c: CounterState, d: CounterState, j: int)
    requires
        0 <= j < 5,
        b.flushed.same_as(b.tls),
        advanced(b, c),
        c.flushed == b.flushed,
        c.global == b.global,
        folds(c, d),
    ensures
        d.global.slot(j) as int == (b.global.slot(j) + (c.ev(j) - b.ev(j))) % 0x1_0000_0000_0000_0000,
{
    let m: int = 0x1_0000_0000_0000_0000;
    let e = c.ev(j) - b.ev(j);
    let x = b.tls.slot(j) as int;
    let g = b.global.slot(j) as int;
    assert(c.ev(j) >= b.ev(j));
    assert(c.tls.slot(j) as int == (x + e) % m);
    assert(c.flushed.slot(j) == b.tls.slot(j));
    // the wrapped difference is e mod 2^64
    let w = u64_specs::wrapping_sub(c.tls.slot(j), c.flushed.slot(j)) as int;
    vstd::arithmetic::div_mod::lemma_fundamental_div_mod(x + e, m);
    let q = (x + e) / m;
    assert(0 <= (x + e) % m < m) by {
        vstd::arithmetic::div_mod::lemma_mod_bound(x + e, m);
    }
    assert(w == ((x + e) % m - x + m) % m) by {
        if (x + e) % m >= x {
            vstd::arithmetic::div_mod::lemma_small_mod(((x + e) % m - x) as nat, m as nat);
            assert(((x + e) % m - x + m) % m == ((x + e) % m - x)) by {
                vstd::arithmetic::div_mod::lemma_mod_add_multiples_vanish((x + e) % m - x, m);
            }
        } else {
            vstd::arithmetic::div_mod::lemma_small_mod(((x + e) % m - x + m) as nat, m as nat);
        }
    }
    assert(((x + e) % m - x + m) % m == e % m) by {
        vstd::arithmetic::div_mod::lemma_mod_add_multiples_vanish((x + e) % m - x, m);
        assert((x + e) % m - x == e - q * m);
        vstd::arithmetic::div_mod::lemma_mod_multiples_vanish(-q, e, m);
    }
    assert(d.global.slot(j) as int == (g + w) % m) by {
        if g + w >= m {
            vstd::arithmetic::div_mod::lemma_small_mod((g + w - m) as nat, m as nat);
            vstd::arithmetic::div_mod::lemma_mod_sub_multiples_vanish(g + w, m);
        } else {
            vstd::arithmetic::div_mod::lemma_small_mod((g + w) as nat, m as nat);
        }
    }
    vstd::arithmetic::div_mod::lemma_add_mod_noop_right(g, e, m);
}

/// One more event in counter `k`, none in the others.
pub open spec fn bumped(a: CounterState, b: CounterState, k: int) -> bool {
    forall|j: int| 0 <= j < 5 ==> #[trigger] b.ev(j) == a.ev(j) + if j == k { 1int } else { 0int }
}

/// A wrapping increment is an increment modulo 2^64.
proof fn lemma_wrapping_inc(x: u64)
    ensures
        u64_specs::wrapping_add(x, 1) as int == (x + 1) % 0x1_0000_0000_0000_0000,
{
    if x + 1 < 0x1_0000_0000_0000_0000 {
        vstd::arithmetic::div_mod::lemma_small_mod((x + 1) as nat, 0x1_0000_0000_0000_0000);
    } else {
        vstd::arithmetic::div_mod::lemma_mod_self_0(0x1_0000_0000_0000_0000);
    }
}

/// `after` is `before` with the tally's growth since the last flush folded
/// into the totals.
pub open spec fn folds(before: CounterState, after: CounterState) -> bool {
    &&& after.tls == before.tls
    &&& after.flushed.same_as(before.tls)
    &&& forall|j: int|
        0 <= j < 5 ==> #[trigger] after.global.slot(j) == u64_specs::wrapping_add(
            before.global.slot(j),
            u64_specs::wrapping_sub(before.tls.slot(j), before.flushed.slot(j)),
        )
}

/// Flushing adds only the growth since the last flush: a second flush with
/// no event in between leaves the totals unchanged.
pub proof fn lemma_flush_twice(a: CounterState, b: CounterState, c: CounterState)
    requires
        folds(a, b),
        folds(b, c),
    ensures
        c.global.same_as(b.global),
        c.tls == a.tls,
{
    assert forall|j: int| 0 <= j < 5 implies #[trigger] c.global.slot(j) == b.global.slot(j) by {
        assert(b.flushed.slot(j) == b.tls.slot(j));
        assert(u64_specs::wrapping_sub(b.tls.slot(j), b.flushed.slot(j)) == 0);
        assert(u64_specs::wrapping_add(b.global.slot(j), 0) == b.global.slot(j));
    }
}

impl CounterState {
    pub fn new() -> (r: CounterState)
        ensures
            forall|j: int|
                0 <= j < 5 ==> #[trigger] r.tls.slot(j) == 0 && r.flushed.slot(j) == 0
                    && r.global.slot(j) == 0 && r.ev(j) == 0,
    {
        CounterState {
            tls: Counters::new(),
            flushed: Counters::new(),
            global: Counters::new(),
            events: Ghost(|j: int| 0int),
        }
    }

    /// Record one event in the running tally.
    pub fn bump(&mut self, k: usize)
        requires
            k < 5,
        ensures
            final(self).tls.is_bump_of(old(self).tls, k as int),
            final(self).flushed == old(self).flushed,
            final(self).global == old(self).global,
            bumped(*old(self), *final(self), k as int),
            advanced(*old(self), *final(self)),
    {
        let v = self.tls.get(k);
        self.tls.set(k, v.wrapping_add(1));
        let ghost e = self.events@;
        self.events = Ghost(|j: int| if j == k as int { e(j) + 1 } else { e(j) });
        proof {
            let a = *old(self);
            let b = *self;
            assert forall|j: int| 0 <= j < 5 implies #[trigger] b.ev(j) == a.ev(j) + if j == k { 1int } else { 0int } by {}
            assert forall|j: int| 0 <= j < 5 implies #[trigger] b.ev(j) >= a.ev(j) && b.tls.slot(j) as int == (a.tls.slot(j)
                + (b.ev(j) - a.ev(j))) % 0x1_0000_0000_0000_0000 by {
                if j == k {
                    lemma_wrapping_inc(a.tls.slot(j));
                } else {
                    vstd::arithmetic::div_mod::lemma_small_mod(a.tls.slot(j) as nat, 0x1_0000_0000_0000_0000);
                }
            }
        }
    }

    /// Fold the tally's growth since the last flush into the totals.
    pub fn flush_tls(&mut self)
        ensures
            folds(*old(self), *final(self)),
            final(self).events == old(self).events,
            advanced(*old(self), *final(self)),
    {
        let ghost g0 = self.global;
        let ghost f0 = self.flushed;
        let ghost t0 = self.tls;
        let mut k: usize = 0;
        while k < 5
            invariant
                k <= 5,
                self.tls == t0,
                t0 == old(self).tls,
                self.events == old(self).events,
                g0 == old(self).global,
                f0 == old(self).flushed,
                forall|j: int| 0 <= j < k ==> #[trigger] self.flushed.slot(j) == self.tls.slot(j),
                forall|j: int|
                    0 <= j < k ==> #[trigger] self.global.slot(j) == u64_specs::wrapping_add(
                        g0.slot(j),
                        u64_specs::wrapping_sub(self.tls.slot(j), f0.slot(j)),
                    ),
                forall|j: int| k <= j < 5 ==> #[trigger] self.flushed.slot(j) == f0.slot(j),
                forall|j: int| k <= j < 5 ==> #[trigger] self.global.slot(j) == g0.slot(j),
            decreases 5 - k,
        {
            let cur = self.tls.get(k);
            let prev = self.flushed.get(k);
            let delta = cur.wrapping_sub(prev);
            if delta > 0 {
                let g = self.global.get(k);
                self.global.set(k, g.wrapping_add(delta));
                self.flushed.set(k, cur);
            } else {
                assert(cur == prev);
                assert(u64_specs::wrapping_add(self.global.slot(k as int), delta) == self.global.slot(k as int));
            }
            assert(self.flushed.slot(k as int) == self.tls.slot(k as int));
            k = k + 1;
        }
        proof {
            lemma_advanced_refl(*old(self));
        }
    }

    /// Totals after folding in the running tally.
    pub fn counters(&mut self) -> (r: Counters)
        ensures
            folds(*old(self), *final(self)),
            r == final(self).global,
            final(self).events == old(self).events,
            advanced(*old(self), *final(self)),
    {
        self.flush_tls();
        self.global
    }

    /// Fold in the running tally, then zero the totals.
    pub fn reset_counters(&mut self)
        ensures
            final(self).tls == old(self).tls,
            final(self).flushed.same_as(old(self).tls),
            forall|j: int| 0 <= j < 5 ==> #[trigger] final(self).global.slot(j) == 0,
            final(self).events == old(self).events,
            advanced(*old(self), *final(self)),
    {
        self.flush_tls();
        self.global = Counters::new();
        proof {
            lemma_advanced_refl(*old(self));
        }
    }

    /// The running tally (not yet folded into the totals).
    pub fn tls_counters(&self) -> (r: Counters)
        ensures
            r == self.tls,
    {
        self.tls
    }
}

} // verus!
