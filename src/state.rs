//! One frame of the toy: apply the edits the controls ask for, then run the
//! ticks that the elapsed time owes.
use vstd::prelude::*;
use crate::clock::{
    Clock, TICK_NANOS, ticks_owed, leftover, total, run_frames, lemma_accumulator_conservation,
};
use crate::geometry::{Point, scaled, scale};
use crate::input::{Control, Inputs};
use crate::world::{
    Body, Colour, SpawnDraws, World, DRAW_RANGE, COLOUR_SPAN, MAX_BODIES, valid_body, valid_bodies,
    spawn_outcome, kept, run_ticks, tick_spec, lemma_contained_coords,
};

verus! {

/// Relies on `rand::thread_rng` and `Rng::gen_range`: a value drawn from `0..n`,
/// which that function requires to be non-empty.
#[verifier::external_body]
fn random_below(n: u64) -> (r: u64)
    requires
        n > 0,
    ensures
        r < n,
{
    rand::Rng::gen_range(&mut rand::thread_rng(), 0..n)
}

/// Fresh random numbers for one spawn.
pub fn random_draws() -> (d: SpawnDraws)
    ensures
        d.valid(),
{
    SpawnDraws {
        first: random_below(DRAW_RANGE),
        second: random_below(DRAW_RANGE),
        red: random_below(COLOUR_SPAN),
        green: random_below(COLOUR_SPAN),
        blue: random_below(COLOUR_SPAN),
    }
}

/// The edits of one frame take `s` to `t`, through `spawned` after the
/// spawn: clear, then spawn, then remove, each only where its control went
/// down in this frame.
pub open spec fn edits_outcome(
    s: Seq<Body>,
    inputs: Inputs,
    d: SpawnDraws,
    spawned: Seq<Body>,
    t: Seq<Body>,
) -> bool {
    let cleared = if inputs.state_of(Control::Clear) is JustPressed {
        Seq::<Body>::empty()
    } else {
        s
    };
    (if inputs.state_of(Control::Spawn) is JustPressed {
            spawn_outcome(cleared, inputs.cursor, d, spawned)
        } else {
            spawned == cleared
        }) && t == if inputs.state_of(Control::Remove) is JustPressed {
            kept(spawned, inputs.cursor)
        } else {
            spawned
        }
}

/// The bodies and the accumulator after frames with deltas `ds` in which no
/// control goes down, as `State::update` describes each of them.
pub open spec fn idle_frames(s: Seq<Body>, acc: nat, ds: Seq<nat>) -> (Seq<Body>, nat)
    decreases ds.len(),
{
    if ds.len() == 0 {
        (s, acc)
    } else {
        idle_frames(run_ticks(s, ticks_owed(acc, ds[0])), leftover(acc, ds[0]), ds.skip(1))
    }
}

proof fn lemma_run_ticks_add(s: Seq<Body>, a: nat, b: nat)
    ensures
        run_ticks(run_ticks(s, a), b) == run_ticks(s, a + b),
    decreases a,
{
    if a > 0 {
        lemma_run_ticks_add(tick_spec(s), (a - 1) as nat, b);
        assert((a + b - 1) as nat == (a - 1) as nat + b);
    }
}

proof fn lemma_idle_frames_run(s: Seq<Body>, acc: nat, ds: Seq<nat>)
    ensures
        idle_frames(s, acc, ds) == (run_ticks(s, run_frames(acc, ds).0), run_frames(acc, ds).1),
    decreases ds.len(),
{
    if ds.len() > 0 {
        let t = ticks_owed(acc, ds[0]);
        let a1 = leftover(acc, ds[0]);
        lemma_idle_frames_run(run_ticks(s, t), a1, ds.skip(1));
        lemma_run_ticks_add(s, t, run_frames(a1, ds.skip(1)).0);
    }
}

/// Over frames in which no control goes down, the world runs exactly as many
/// ticks as whole ticks fit in the starting accumulator plus all the deltas,
/// and the accumulator ends as the remainder.
pub proof fn lemma_idle_frames_conserve_time(s: Seq<Body>, acc: nat, ds: Seq<nat>)
    requires
        acc < TICK_NANOS,
    ensures
        idle_frames(s, acc, ds) == (
            run_ticks(s, (acc + total(ds)) / (TICK_NANOS as nat)),
            (acc + total(ds)) % (TICK_NANOS as nat),
        ),
{
    lemma_idle_frames_run(s, acc, ds);
    lemma_accumulator_conservation(acc, ds);
}

/// A body as drawn: its centre between the last two ticks.
#[derive(Clone, Copy, PartialEq, Eq, Structural, Debug)]
pub struct Sprite {
    pub centre: Point,
    pub radius: i64,
    pub colour: Colour,
}

/// The point `frac / TICK_NANOS` of the way from `from` to `to`.
pub open spec fn interpolate(from: Point, to: Point, frac: int) -> Point {
    Point {
        x: (from.x + scaled(to.x - from.x, frac, TICK_NANOS as int)) as i64,
        y: (from.y + scaled(to.y - from.y, frac, TICK_NANOS as int)) as i64,
    }
}

/// The world and its clock.
pub struct State {
    clock: Clock,
    world: World,
}

impl View for State {
    type V = (Seq<Body>, nat);

    closed spec fn view(&self) -> (Seq<Body>, nat) {
        (self.world@, self.clock@)
    }
}

impl State {
    /// Every body is valid (radius in range, inside the arena) and less than
    /// one tick of time is pending.
    pub open spec fn wf(&self) -> bool {
        valid_bodies(self@.0) && self@.1 < TICK_NANOS
    }

    pub fn new() -> (r: State)
        ensures
            r.wf(),
            r@.0 == Seq::<Body>::empty(),
            r@.1 == 0,
    {
        State { clock: Clock::new(), world: World::new() }
    }

    /// The bodies.
    pub fn world(&self) -> (r: &World)
        ensures
            r@ == self@.0,
    {
        &self.world
    }

    /// Time not yet consumed by a tick, in nanoseconds.
    pub fn accumulator(&self) -> (r: u64)
        ensures
            r == self@.1,
    {
        self.clock.accumulator()
    }

    /// Applies the edits of this frame, then runs every tick that `dt`
    /// nanoseconds complete.
    pub fn update(&mut self, dt: u64, inputs: &Inputs, draws: &SpawnDraws)
        requires
            old(self).wf(),
            old(self)@.0.len() < MAX_BODIES,
            draws.valid(),
        ensures
            final(self).wf(),
            final(self)@.1 == leftover(old(self)@.1, dt as nat),
            exists|spawned: Seq<Body>, edited: Seq<Body>|
                edits_outcome(old(self)@.0, *inputs, *draws, spawned, edited) && final(self)@.0
                    == run_ticks(edited, ticks_owed(old(self)@.1, dt as nat)),
            !(inputs.spawn is JustPressed) && !(inputs.remove is JustPressed) && !(
            inputs.clear is JustPressed) ==> final(self)@ == (
                run_ticks(old(self)@.0, ticks_owed(old(self)@.1, dt as nat)),
                leftover(old(self)@.1, dt as nat),
            ),
    {
        let ghost s = self.world@;
        if inputs.just_pressed(Control::Clear) {
            self.world.clear();
        }
        let ghost cleared = self.world@;
        if inputs.just_pressed(Control::Spawn) {
            self.world.spawn(inputs.cursor, draws);
        }
        let ghost spawned = self.world@;
        if inputs.just_pressed(Control::Remove) {
            self.world.remove_at(inputs.cursor);
        }
        let ghost edited = self.world@;
        proof {
            assert(cleared == if inputs.state_of(Control::Clear) is JustPressed {
                Seq::<Body>::empty()
            } else {
                s
            });
            assert(edited == if inputs.state_of(Control::Remove) is JustPressed {
                kept(spawned, inputs.cursor)
            } else {
                spawned
            });
            assert(if inputs.state_of(Control::Spawn) is JustPressed {
                spawn_outcome(cleared, inputs.cursor, *draws, spawned)
            } else {
                spawned == cleared
            });
        }
        let ghost acc = self.clock@;
        let ticks = self.clock.advance(dt);
        let mut k: u64 = 0;
        while k < ticks
            invariant
                self.world.wf(),
                self.clock.wf(),
                self.clock@ == leftover(acc, dt as nat),
                ticks == ticks_owed(acc, dt as nat),
                0 <= k <= ticks,
                run_ticks(self.world@, (ticks - k) as nat) == run_ticks(edited, ticks as nat),
            decreases ticks - k,
        {
            self.world.tick();
            k = k + 1;
        }
        assert(run_ticks(self.world@, 0) == self.world@);
        assert(edits_outcome(s, *inputs, *draws, spawned, edited) && self.world@ == run_ticks(
            edited,
            ticks as nat,
        ));
        assert(s == old(self)@.0 && acc == old(self)@.1);
        assert(self@.0 == self.world@);
        assert(ticks == ticks_owed(old(self)@.1, dt as nat));
    }

    /// Every body as it should be drawn this frame.
    pub fn sprites(&self) -> (r: Vec<Sprite>)
        requires
            self.wf(),
        ensures
            r@.len() == self@.0.len(),
            forall|k: int|
                0 <= k < r@.len() ==> (#[trigger] r@[k]).centre == interpolate(
                    self@.0[k].last_position,
                    self@.0[k].position,
                    self@.1 as int,
                ) && r@[k].radius == self@.0[k].radius && r@[k].colour == self@.0[k].colour,
    {
        let bodies = self.world.bodies();
        let frac = self.clock.accumulator() as i64;
        let mut out: Vec<Sprite> = Vec::new();
        let mut i: usize = 0;
        while i < bodies.len()
            invariant
                bodies@ == self@.0,
                self.world.wf(),
                frac == self@.1,
                frac < TICK_NANOS,
                0 <= i <= bodies@.len(),
                out@.len() == i,
                forall|k: int|
                    0 <= k < i ==> (#[trigger] out@[k]).centre == interpolate(
                        bodies@[k].last_position,
                        bodies@[k].position,
                        frac as int,
                    ) && out@[k].radius == bodies@[k].radius && out@[k].colour
                        == bodies@[k].colour,
            decreases bodies@.len() - i,
        {
            let b = bodies[i];
            proof {
                assert(valid_body(bodies@[i as int]));
                lemma_contained_coords(b.position, b.radius as int);
                lemma_contained_coords(b.last_position, b.radius as int);
            }
            let tick = TICK_NANOS as i64;
            let dx = scale(b.position.x - b.last_position.x, frac, tick);
            let dy = scale(b.position.y - b.last_position.y, frac, tick);
            out.push(
                Sprite {
                    centre: Point { x: b.last_position.x + dx, y: b.last_position.y + dy },
                    radius: b.radius,
                    colour: b.colour,
                },
            );
            i = i + 1;
        }
        out
    }
}

} // verus!
