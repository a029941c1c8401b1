//! The fixed-timestep clock: frame time in, whole ticks out.
use vstd::prelude::*;

verus! {

/// Nanoseconds in one tick (1/128 s).
pub const TICK_NANOS: u64 = 7_812_500;

/// Time that has passed but not yet been consumed by a whole tick.
pub struct Clock {
    accumulator: u64,
}

impl View for Clock {
    type V = nat;

    closed spec fn view(&self) -> nat {
        self.accumulator as nat
    }
}

/// Ticks owed after adding `dt` to an accumulator of `acc`.
pub open spec fn ticks_owed(acc: nat, dt: nat) -> nat {
    (acc + dt) / (TICK_NANOS as nat)
}

/// What is left of the accumulator after those ticks.
pub open spec fn leftover(acc: nat, dt: nat) -> nat {
    (acc + dt) % (TICK_NANOS as nat)
}

pub open spec fn total(ds: Seq<nat>) -> nat
    decreases ds.len(),
{
    if ds.len() == 0 {
        0
    } else {
        ds[0] + total(ds.skip(1))
    }
}

/// Ticks run and final accumulator over a run of frames with deltas `ds`.
pub open spec fn run_frames(acc: nat, ds: Seq<nat>) -> (nat, nat)
    decreases ds.len(),
{
    if ds.len() == 0 {
        (0, acc)
    } else {
        let rest = run_frames(leftover(acc, ds[0]), ds.skip(1));
        (ticks_owed(acc, ds[0]) + rest.0, rest.1)
    }
}

/// Over any run of frames, the ticks run are the whole ticks in the
/// starting accumulator plus all the deltas, and the accumulator ends as
/// the remainder.
pub proof fn lemma_accumulator_conservation(acc: nat, ds: Seq<nat>)
    requires
        acc < TICK_NANOS,
    ensures
        run_frames(acc, ds).0 == (acc + total(ds)) / (TICK_NANOS as nat),
        run_frames(acc, ds).1 == (acc + total(ds)) % (TICK_NANOS as nat),
    decreases ds.len(),
{
    if ds.len() > 0 {
        let t = TICK_NANOS as int;
        let a1 = leftover(acc, ds[0]) as int;
        let rest = total(ds.skip(1)) as int;
        let x0 = (acc + ds[0]) as int;
        lemma_accumulator_conservation(a1 as nat, ds.skip(1));
        let q = x0 / t;
        vstd::arithmetic::div_mod::lemma_fundamental_div_mod(x0, t);
        assert(acc + total(ds) == t * q + (a1 + rest));
        let q2 = (a1 + rest) / t;
        let r2 = (a1 + rest) % t;
        vstd::arithmetic::div_mod::lemma_fundamental_div_mod(a1 + rest, t);
        assert(t * q + t * q2 == (q + q2) * t) by (nonlinear_arith);
        vstd::arithmetic::div_mod::lemma_fundamental_div_mod_converse(
            (acc + total(ds)) as int,
            t,
            q + q2,
            r2,
        );
    }
}

impl Clock {
    pub open spec fn wf(&self) -> bool {
        self@ < TICK_NANOS
    }

    pub fn new() -> (c: Clock)
        ensures
            c.wf(),
            c@ == 0,
    {
        Clock { accumulator: 0 }
    }

    /// The accumulated time, in nanoseconds.
    pub fn accumulator(&self) -> (r: u64)
        ensures
            r == self@,
    {
        self.accumulator
    }

    /// Adds `dt` nanoseconds and returns how many whole ticks they complete.
    pub fn advance(&mut self, dt: u64) -> (ticks: u64)
        requires
            old(self).wf(),
        ensures
            final(self).wf(),
            ticks == ticks_owed(old(self)@, dt as nat),
            final(self)@ == leftover(old(self)@, dt as nat),
    {
        let mut ticks = dt / TICK_NANOS;
        let mut acc = self.accumulator + dt % TICK_NANOS;
        if acc >= TICK_NANOS {
            ticks = ticks + 1;
            acc = acc - TICK_NANOS;
        }
        self.accumulator = acc;
        ticks
    }
}

} // verus!
