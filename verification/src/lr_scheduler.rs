use vstd::prelude::*;

verus! {

/// The growth factor of the cycle lengths: `t_mult` when it exceeds one,
/// otherwise one (all cycles equally long).
pub open spec fn growth(t_mult: nat) -> nat {
    if t_mult > 1 {
        t_mult
    } else {
        1
    }
}

/// Length of cycle `i`: `t_0 * growth^i` steps.
pub open spec fn cycle_len(t_0: nat, t_mult: nat, i: nat) -> nat
    decreases i,
{
    if i == 0 {
        t_0
    } else {
        cycle_len(t_0, t_mult, (i - 1) as nat) * growth(t_mult)
    }
}

/// First step of cycle `i`.
pub open spec fn cycle_start(t_0: nat, t_mult: nat, i: nat) -> nat
    decreases i,
{
    if i == 0 {
        0
    } else {
        cycle_start(t_0, t_mult, (i - 1) as nat) + cycle_len(t_0, t_mult, (i - 1) as nat)
    }
}

/// Step `t` lies in cycle `i`.
pub open spec fn in_cycle(t_0: nat, t_mult: nat, t: nat, i: nat) -> bool {
    cycle_start(t_0, t_mult, i) <= t < cycle_start(t_0, t_mult, i + 1)
}

/// The cycle index reported for step `t`. With `t_0 == 0` there are no cycles:
/// step 0 counts as cycle 0 and every later step as the largest index.
pub open spec fn cycle_index_of(t_0: nat, t_mult: nat, t: nat, i: nat) -> bool {
    if t_0 == 0 {
        i == (if t == 0 { 0 } else { usize::MAX as nat })
    } else {
        in_cycle(t_0, t_mult, t, i)
    }
}

pub proof fn lemma_cycle_len_pos(t_0: nat, t_mult: nat, i: nat)
    requires
        t_0 >= 1,
    ensures
        cycle_len(t_0, t_mult, i) >= 1,
    decreases i,
{
    if i > 0 {
        lemma_cycle_len_pos(t_0, t_mult, (i - 1) as nat);
        let a = cycle_len(t_0, t_mult, (i - 1) as nat);
        let g = growth(t_mult);
        assert(a * g >= 1) by (nonlinear_arith)
            requires
                a >= 1,
                g >= 1,
        ;
    }
}

/// Cycles start strictly later as the index grows, by at least one step each.
pub proof fn lemma_cycle_start_grows(t_0: nat, t_mult: nat, i: nat, j: nat)
    requires
        t_0 >= 1,
        i <= j,
    ensures
        cycle_start(t_0, t_mult, i) + (j - i) <= cycle_start(t_0, t_mult, j),
    decreases j,
{
    if i < j {
        lemma_cycle_start_grows(t_0, t_mult, i, (j - 1) as nat);
        lemma_cycle_len_pos(t_0, t_mult, (j - 1) as nat);
    }
}

/// With equal cycles, cycle `i` starts at step `i * t_0`.
pub proof fn lemma_equal_cycles(t_0: nat, t_mult: nat, i: nat)
    requires
        t_mult <= 1,
    ensures
        cycle_len(t_0, t_mult, i) == t_0,
        cycle_start(t_0, t_mult, i) == i * t_0,
    decreases i,
{
    if i > 0 {
        let k = (i - 1) as nat;
        lemma_equal_cycles(t_0, t_mult, k);
        assert(cycle_len(t_0, t_mult, i) == cycle_len(t_0, t_mult, k) * 1);
        assert(k * t_0 + t_0 == i * t_0) by (nonlinear_arith)
            requires
                k + 1 == i,
        ;
        assert(cycle_start(t_0, t_mult, i) == cycle_start(t_0, t_mult, k) + cycle_len(t_0, t_mult, k));
    } else {
        assert(i * t_0 == 0) by (nonlinear_arith)
            requires
                i == 0,
        ;
    }
}

/// A later step never lies in an earlier cycle.
pub proof fn lemma_cycle_index_monotone(t_0: nat, t_mult: nat, t1: nat, t2: nat, i1: nat, i2: nat)
    requires
        cycle_index_of(t_0, t_mult, t1, i1),
        cycle_index_of(t_0, t_mult, t2, i2),
        t1 <= t2,
    ensures
        i1 <= i2,
{
    if t_0 >= 1 && i1 > i2 {
        lemma_cycle_start_grows(t_0, t_mult, i2 + 1, i1);
    }
}

/// One step moves at most one cycle ahead.
pub proof fn lemma_cycle_index_step(t_0: nat, t_mult: nat, t: nat, i1: nat, i2: nat)
    requires
        t_0 >= 1,
        cycle_index_of(t_0, t_mult, t, i1),
        cycle_index_of(t_0, t_mult, t + 1, i2),
    ensures
        i1 <= i2 <= i1 + 1,
{
    lemma_cycle_index_monotone(t_0, t_mult, t, t + 1, i1, i2);
    if i2 > i1 + 1 {
        lemma_cycle_start_grows(t_0, t_mult, i1 + 1, i2);
    }
}

/// The cycle index is unique.
pub proof fn lemma_cycle_index_unique(t_0: nat, t_mult: nat, t: nat, i1: nat, i2: nat)
    requires
        cycle_index_of(t_0, t_mult, t, i1),
        cycle_index_of(t_0, t_mult, t, i2),
    ensures
        i1 == i2,
{
    lemma_cycle_index_monotone(t_0, t_mult, t, t, i1, i2);
    lemma_cycle_index_monotone(t_0, t_mult, t, t, i2, i1);
}

/// The restart schedule of cosine annealing with warm restarts: cycle 0 lasts
/// `t_0` steps and every later cycle `t_mult` times as long as the one before
/// (all equally long when `t_mult <= 1`). The learning rate within a cycle is
/// computed from `cycle_position`.
pub struct CosineAnnealingWarmRestarts {
    t_0: usize,
    t_mult: usize,
    last_step: usize,
}

impl CosineAnnealingWarmRestarts {
    pub closed spec fn spec_t_0(&self) -> nat {
        self.t_0 as nat
    }

    pub closed spec fn spec_t_mult(&self) -> nat {
        self.t_mult as nat
    }

    /// The number of steps taken so far.
    pub closed spec fn steps(&self) -> nat {
        self.last_step as nat
    }

    pub fn new(t_0: usize, t_mult: usize) -> (s: Self)
        ensures
            s.spec_t_0() == t_0,
            s.spec_t_mult() == t_mult,
            s.steps() == 0,
    {
        CosineAnnealingWarmRestarts { t_0, t_mult, last_step: 0 }
    }

    /// Counts one more step (the count stays at `usize::MAX` once it gets there).
    pub fn step(&mut self)
        ensures
            final(self).steps() == if old(self).steps() < usize::MAX {
                old(self).steps() + 1
            } else {
                old(self).steps()
            },
            final(self).spec_t_0() == old(self).spec_t_0(),
            final(self).spec_t_mult() == old(self).spec_t_mult(),
    {
        if self.last_step < usize::MAX {
            self.last_step = self.last_step + 1;
        }
    }

    /// The cycle of step `t`, with the cycle's first step and its length
    /// (`(0, 0, 0)` when `t_0 == 0`).
    fn cycle_of(&self, t: u128) -> (r: (u128, u128, u128))
        requires
            t <= usize::MAX + 1,
        ensures
            self.t_0 >= 1 ==> {
                &&& in_cycle(self.t_0 as nat, self.t_mult as nat, t as nat, r.0 as nat)
                &&& r.1 == cycle_start(self.t_0 as nat, self.t_mult as nat, r.0 as nat)
                &&& r.2 == cycle_len(self.t_0 as nat, self.t_mult as nat, r.0 as nat)
            },
            self.t_0 == 0 ==> r == (0u128, 0u128, 0u128),
    {
        let t0 = self.t_0 as u128;
        let m = self.t_mult as u128;
        let ghost tt0 = self.t_0 as nat;
        let ghost mm = self.t_mult as nat;
        if t0 == 0 {
            return (0, 0, 0);
        }
        if m > 1 {
            let mut i: u128 = 0;
            let mut start: u128 = 0;
            let mut len: u128 = t0;
            while len <= t - start
                invariant
                    t0 == tt0 >= 1,
                    m == mm > 1,
                    m <= usize::MAX,
                    t <= usize::MAX + 1,
                    start <= t,
                    start == cycle_start(tt0, mm, i as nat),
                    len == cycle_len(tt0, mm, i as nat),
                    len >= 1,
                    i <= start,
                decreases t - start,
            {
                assert(len * m <= u128::MAX) by (nonlinear_arith)
                    requires
                        len <= t,
                        t <= usize::MAX + 1,
                        m <= usize::MAX,
                        usize::MAX <= u64::MAX,
                ;
                assert(len * m >= 1) by (nonlinear_arith)
                    requires
                        len >= 1,
                        m >= 1,
                ;
                start = start + len;
                len = len * m;
                i = i + 1;
            }
            (i, start, len)
        } else {
            let i = t / t0;
            proof {
                lemma_equal_cycles(tt0, mm, i as nat);
                lemma_equal_cycles(tt0, mm, (i + 1) as nat);
                vstd::arithmetic::div_mod::lemma_fundamental_div_mod(t as int, t0 as int);
                vstd::arithmetic::div_mod::lemma_mod_pos_bound(t as int, t0 as int);
                assert((i + 1) * t0 == i * t0 + t0) by (nonlinear_arith);
                assert(t0 * i == i * t0) by (nonlinear_arith);
            }
            let start = i * t0;
            (i, start, t0)
        }
    }

    /// The index of the cycle that step `t` lies in.
    fn calculate_cycle_index(&self, t: u128) -> (r: u128)
        requires
            t <= usize::MAX + 1,
        ensures
            cycle_index_of(self.t_0 as nat, self.t_mult as nat, t as nat, r as nat),
            r <= t || r == usize::MAX,
    {
        if self.t_0 == 0 {
            if t == 0 {
                0
            } else {
                usize::MAX as u128
            }
        } else {
            let r = self.cycle_of(t);
            proof {
                lemma_cycle_start_grows(self.t_0 as nat, self.t_mult as nat, 0, r.0 as nat);
            }
            r.0
        }
    }

    /// The cycle that the current step lies in.
    pub fn get_cycle_index(&self) -> (r: usize)
        ensures
            cycle_index_of(self.spec_t_0(), self.spec_t_mult(), self.steps(), r as nat),
    {
        let r = self.calculate_cycle_index(self.last_step as u128);
        r as usize
    }

    /// The next step begins a new cycle: the learning rate is at the bottom of
    /// its curve and about to restart.
    pub fn is_at_vally(&self) -> (b: bool)
        ensures
            b == exists|i: nat, j: nat|
                #[trigger] cycle_index_of(self.spec_t_0(), self.spec_t_mult(), self.steps(), i) && #[trigger] cycle_index_of(
                    self.spec_t_0(),
                    self.spec_t_mult(),
                    self.steps() + 1,
                    j,
                ) && j > i,
    {
        let t = self.last_step as u128;
        let current_idx = self.calculate_cycle_index(t);
        let next_idx = self.calculate_cycle_index(t + 1);
        proof {
            assert forall|i: nat, j: nat|
                #[trigger] cycle_index_of(self.spec_t_0(), self.spec_t_mult(), self.steps(), i) && #[trigger] cycle_index_of(
                    self.spec_t_0(),
                    self.spec_t_mult(),
                    self.steps() + 1,
                    j,
                ) implies i == current_idx && j == next_idx by {
                lemma_cycle_index_unique(self.t_0 as nat, self.t_mult as nat, t as nat, i, current_idx as nat);
                lemma_cycle_index_unique(self.t_0 as nat, self.t_mult as nat, (t + 1) as nat, j, next_idx as nat);
            }
            assert(cycle_index_of(self.spec_t_0(), self.spec_t_mult(), self.steps(), current_idx as nat));
            assert(cycle_index_of(self.spec_t_0(), self.spec_t_mult(), self.steps() + 1, next_idx as nat));
        }
        next_idx > current_idx
    }

    /// Where the current step lies within its cycle: the number of steps since
    /// the cycle began, and the cycle's length (both 0 when `t_0 == 0`).
    pub fn cycle_position(&self) -> (r: (u128, u128))
        ensures
            self.spec_t_0() >= 1 ==> exists|i: nat|
                #[trigger] in_cycle(self.spec_t_0(), self.spec_t_mult(), self.steps(), i) && r.0 == self.steps()
                    - cycle_start(self.spec_t_0(), self.spec_t_mult(), i) && r.1 == cycle_len(
                    self.spec_t_0(),
                    self.spec_t_mult(),
                    i,
                ),
            self.spec_t_0() == 0 ==> r == (0u128, 0u128),
    {
        let t = self.last_step as u128;
        let c = self.cycle_of(t);
        if self.t_0 == 0 {
            (0, 0)
        } else {
            assert(in_cycle(self.spec_t_0(), self.spec_t_mult(), self.steps(), c.0 as nat));
            (t - c.1, c.2)
        }
    }
}

} // verus!
