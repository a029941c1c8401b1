use orbs::clock::{Clock, TICK_NANOS};
use orbs::geometry::{ceil_root, floor_root, Point};
use orbs::input::{ButtonState, Control, Inputs};
use orbs::state::{random_draws, State};
use orbs::world::{SpawnDraws, COLOUR_SPAN, DRAW_RANGE, SCALE, SMALLEST_RADIUS};

#[test]
fn tick_length_is_one_128th_second() {
    assert_eq!(TICK_NANOS * 128, 1_000_000_000);
}

#[test]
fn zero_delta_runs_no_tick() {
    let mut c = Clock::new();
    assert_eq!(c.advance(0), 0);
    assert_eq!(c.accumulator(), 0);
}

#[test]
fn accumulator_carries_remainder() {
    let mut c = Clock::new();
    assert_eq!(c.advance(TICK_NANOS / 2), 0);
    assert_eq!(c.accumulator(), TICK_NANOS / 2);
    assert_eq!(c.advance(TICK_NANOS / 2), 1);
    assert_eq!(c.accumulator(), 0);
    assert_eq!(c.advance(TICK_NANOS * 3 + 7), 3);
    assert_eq!(c.accumulator(), 7);
}

#[test]
fn frames_conserve_time() {
    let deltas = [16_666_667u64, 3, 0, 7_812_499, 100_000_000, 1, 33_000_000];
    let mut c = Clock::new();
    let mut ticks = 0u64;
    for d in deltas {
        ticks += c.advance(d);
    }
    let total: u64 = deltas.iter().sum();
    assert_eq!(ticks, total / TICK_NANOS);
    assert_eq!(c.accumulator(), total % TICK_NANOS);
}

#[test]
fn large_delta_runs_burst_of_ticks() {
    let mut c = Clock::new();
    assert_eq!(c.advance(10_000_000_000), 1280);
    assert_eq!(c.accumulator(), 0);
    assert_eq!(c.advance(u64::MAX), u64::MAX / TICK_NANOS);
}

#[test]
fn roots_round_as_named() {
    assert_eq!(floor_root(0), 0);
    assert_eq!(ceil_root(0), 0);
    assert_eq!(floor_root(24), 4);
    assert_eq!(ceil_root(24), 5);
    assert_eq!(floor_root(25), 5);
    assert_eq!(ceil_root(25), 5);
    assert_eq!(floor_root(1 << 90), 1 << 45);
}

#[test]
fn button_fires_once_per_press() {
    let s = ButtonState::Idle.next(true);
    assert_eq!(s, ButtonState::JustPressed);
    assert!(s.is_just_pressed());
    let s = s.next(true);
    assert_eq!(s, ButtonState::Held);
    assert!(!s.is_just_pressed());
    let s = s.next(false);
    assert_eq!(s, ButtonState::Idle);
    assert!(s.next(true).is_just_pressed());
}

#[test]
fn inputs_track_each_control() {
    let mut i = Inputs::new();
    i.record(Control::Spawn, true);
    assert!(i.just_pressed(Control::Spawn));
    assert!(!i.just_pressed(Control::Remove));
    assert!(!i.just_pressed(Control::Clear));
    i.record(Control::Spawn, true);
    assert!(!i.just_pressed(Control::Spawn));
}

#[test]
fn random_draws_stay_in_range() {
    for _ in 0..200 {
        let d = random_draws();
        assert!(d.first < DRAW_RANGE && d.second < DRAW_RANGE);
        assert!(d.red < COLOUR_SPAN && d.green < COLOUR_SPAN && d.blue < COLOUR_SPAN);
    }
}

fn pressed(control: Control, cursor: Point) -> Inputs {
    let mut i = Inputs::new();
    i.cursor = cursor;
    i.record(control, true);
    i
}

#[test]
fn update_spawns_then_ticks() {
    let d = SpawnDraws { first: 0, second: 0, red: 1, green: 2, blue: 3 };
    let mut s = State::new();
    s.update(TICK_NANOS + 5, &pressed(Control::Spawn, Point { x: 0, y: 0 }), &d);
    assert_eq!(s.accumulator(), 5);
    let b = s.world().bodies()[0];
    assert_eq!(b.radius, SMALLEST_RADIUS);
    assert_eq!(b.position, Point { x: 0, y: 125 });
    let mut held = pressed(Control::Spawn, Point { x: 0, y: 0 });
    held.record(Control::Spawn, true);
    s.update(0, &held, &d);
    assert_eq!(s.world().bodies().len(), 1);
}

#[test]
fn update_removes_and_clears() {
    let d = SpawnDraws { first: 0, second: 0, red: 1, green: 2, blue: 3 };
    let mut s = State::new();
    s.update(0, &pressed(Control::Spawn, Point { x: 0, y: 0 }), &d);
    s.update(0, &pressed(Control::Spawn, Point { x: 100 * SCALE, y: 0 }), &d);
    assert_eq!(s.world().bodies().len(), 2);
    s.update(0, &pressed(Control::Remove, Point { x: 100 * SCALE, y: 1 }), &d);
    assert_eq!(s.world().bodies().len(), 1);
    assert_eq!(s.world().bodies()[0].position, Point { x: 0, y: 0 });
    s.update(0, &pressed(Control::Clear, Point { x: 0, y: 0 }), &d);
    assert!(s.world().bodies().is_empty());
}

#[test]
fn sprites_interpolate_between_ticks() {
    let d = SpawnDraws { first: 0, second: 0, red: 1, green: 2, blue: 3 };
    let mut s = State::new();
    s.update(0, &pressed(Control::Spawn, Point { x: 0, y: 0 }), &d);
    s.update(TICK_NANOS, &Inputs::new(), &d);
    assert_eq!(s.world().bodies()[0].position, Point { x: 0, y: 125 });
    s.update(TICK_NANOS / 2, &Inputs::new(), &d);
    let sp = s.sprites();
    assert_eq!(sp.len(), 1);
    assert_eq!(sp[0].centre, Point { x: 0, y: 62 });
    assert_eq!(sp[0].radius, SMALLEST_RADIUS);
}


#[test]
fn idle_frames_run_whole_ticks_of_total_time() {
    let d = SpawnDraws { first: 0, second: 0, red: 1, green: 2, blue: 3 };
    let mut s = State::new();
    s.update(0, &pressed(Control::Spawn, Point { x: 0, y: 0 }), &d);
    let deltas = [3_000_000u64, 4_000_000, 2_000_000, 16_000_000];
    for dt in deltas {
        s.update(dt, &Inputs::new(), &d);
    }
    let total: u64 = deltas.iter().sum();
    assert_eq!(total / TICK_NANOS, 3);
    assert_eq!(s.accumulator(), total % TICK_NANOS);
    // three ticks from rest: the body has fallen 1 + 2 + 3 gravity steps
    assert_eq!(s.world().bodies()[0].position, Point { x: 0, y: 6 * 125 });
}
