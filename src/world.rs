//! The bodies of the arena and the physics tick that moves them.
use vstd::prelude::*;
use crate::geometry::{
    Point, dist2, norm2, ceil_sqrt, is_floor_sqrt, scaled, floor_root, ceil_root, abs, half, scale,
    lemma_abs_le_root, lemma_abs_square, lemma_contain,
};

verus! {

/// Fixed-point steps in one unit of length.
pub const SCALE: i64 = 4096;

/// The smallest radius a spawned body may have (5 units).
pub const SMALLEST_RADIUS: i64 = 5 * SCALE;

/// The largest radius a spawned body may have (30 units).
pub const LARGEST_RADIUS: i64 = 30 * SCALE;

/// The radius of the arena (350 units).
pub const OUTER_RADIUS: i64 = 350 * SCALE;

/// Displacement added to `y` each tick: 500 units/s² times (1/128 s)², in steps.
pub const TICK_GRAVITY: i64 = 125;

/// Relaxation passes in each tick.
pub const RELAXATION_PASSES: u64 = 4;

/// A bound on the number of bodies that no machine reaches: a body takes 48
/// bytes, so this many would fill terabytes, and one tick over them would
/// examine some 2^71 pairs.
pub const MAX_BODIES: u64 = 0x10_0000_0000;

/// Bound on a coordinate after integration, before relaxation.
pub const COORD_BASE: i64 = 0x80_0000;

/// A colour with three channels.
#[derive(Clone, Copy, PartialEq, Eq, Structural, Debug)]
pub struct Colour {
    pub red: u8,
    pub green: u8,
    pub blue: u8,
}

/// A simulated circle.
#[derive(Clone, Copy, PartialEq, Eq, Structural, Debug)]
pub struct Body {
    pub position: Point,
    pub last_position: Point,
    pub radius: i64,
    pub colour: Colour,
}

/// The centre of a circle of radius `r` at `p` lies inside the arena.
pub open spec fn inside_arena(p: Point, r: int) -> bool {
    norm2(p) <= (OUTER_RADIUS - r) * (OUTER_RADIUS - r)
}

pub open spec fn valid_body(b: Body) -> bool {
    SMALLEST_RADIUS <= b.radius <= LARGEST_RADIUS
        && inside_arena(b.position, b.radius as int)
        && inside_arena(b.last_position, b.radius as int)
}

pub open spec fn valid_bodies(s: Seq<Body>) -> bool {
    s.len() <= MAX_BODIES && forall|i: int| 0 <= i < s.len() ==> #[trigger] valid_body(s[i])
}

/// Verlet step: keep the implicit velocity, then fall by one tick of gravity.
pub open spec fn integrate_body(b: Body) -> Body {
    Body {
        position: Point {
            x: (2 * b.position.x - b.last_position.x) as i64,
            y: (2 * b.position.y - b.last_position.y + TICK_GRAVITY) as i64,
        },
        last_position: b.position,
        ..b
    }
}

pub open spec fn integrate(s: Seq<Body>) -> Seq<Body> {
    Seq::new(s.len(), |i: int| integrate_body(s[i]))
}

/// The offset from the midpoint to the first body of an overlapping pair:
/// half the sum of the radii along the line from the second centre to the
/// first, or along `x` when the centres coincide.
pub open spec fn pair_offset(a: Point, b: Point, sum: int) -> Point {
    let dx = a.x - b.x;
    let dy = a.y - b.y;
    let d2 = dx * dx + dy * dy;
    if d2 == 0 {
        Point { x: (sum / 2) as i64, y: 0 }
    } else {
        let den = 2 * ceil_sqrt(d2);
        Point { x: scaled(dx, sum, den) as i64, y: scaled(dy, sum, den) as i64 }
    }
}

pub open spec fn overlapping(a: Body, b: Body) -> bool {
    dist2(a.position, b.position) < (a.radius + b.radius) * (a.radius + b.radius)
}

/// Pushes bodies `i` and `j` apart, symmetrically about their midpoint, when they overlap.
pub open spec fn resolve_pair(s: Seq<Body>, i: int, j: int) -> Seq<Body> {
    let a = s[i];
    let b = s[j];
    if overlapping(a, b) {
        let mx = (a.position.x + b.position.x) / 2;
        let my = (a.position.y + b.position.y) / 2;
        let o = pair_offset(a.position, b.position, a.radius + b.radius);
        s.update(i, Body { position: Point { x: (mx + o.x) as i64, y: (my + o.y) as i64 }, ..a })
            .update(j, Body { position: Point { x: (mx - o.x) as i64, y: (my - o.y) as i64 }, ..b })
    } else {
        s
    }
}

/// Resolves the pairs `(i, j)`, `(i, j + 1)`, ... up to `n`, in order.
pub open spec fn collide_row(s: Seq<Body>, n: int, i: int, j: int) -> Seq<Body>
    decreases n - j,
{
    if j >= n {
        s
    } else {
        collide_row(resolve_pair(s, i, j), n, i, j + 1)
    }
}

/// Resolves every pair whose first index is at least `i`, in ascending order.
pub open spec fn collide_rows(s: Seq<Body>, n: int, i: int) -> Seq<Body>
    decreases n - i,
{
    if i >= n {
        s
    } else {
        collide_rows(collide_row(s, n, i, i + 1), n, i + 1)
    }
}

/// Moves a body that pokes out of the arena back onto the boundary, along
/// the line from the centre.
pub open spec fn contain_body(b: Body) -> Body {
    let m = OUTER_RADIUS - b.radius;
    let n2 = norm2(b.position);
    if n2 > m * m {
        let c = ceil_sqrt(n2);
        Body {
            position: Point {
                x: scaled(b.position.x as int, m, c) as i64,
                y: scaled(b.position.y as int, m, c) as i64,
            },
            ..b
        }
    } else {
        b
    }
}

pub open spec fn contain_all(s: Seq<Body>) -> Seq<Body> {
    Seq::new(s.len(), |i: int| contain_body(s[i]))
}

/// One relaxation pass: every pair, then the boundary.
pub open spec fn relax(s: Seq<Body>) -> Seq<Body> {
    contain_all(collide_rows(s, s.len() as int, 0))
}

pub open spec fn relax_times(s: Seq<Body>, k: nat) -> Seq<Body>
    decreases k,
{
    if k == 0 {
        s
    } else {
        relax_times(relax(s), (k - 1) as nat)
    }
}

/// The bodies after one tick.
pub open spec fn tick_spec(s: Seq<Body>) -> Seq<Body> {
    relax_times(integrate(s), RELAXATION_PASSES as nat)
}

/// The bodies after `n` ticks.
pub open spec fn run_ticks(s: Seq<Body>, n: nat) -> Seq<Body>
    decreases n,
{
    if n == 0 {
        s
    } else {
        run_ticks(tick_spec(s), (n - 1) as nat)
    }
}

/// Bound on a coordinate during the pair resolution of one pass.
pub const PASS_BOUND: i64 = 0x100_0000_0000_0000;

/// How far one pair resolution may move a coordinate of either body.
pub const PAIR_STEP: i64 = 4 * LARGEST_RADIUS;

/// Each coordinate of `b` differs from that of `a` by at most `step`.
pub open spec fn moved_at_most(a: Body, b: Body, step: int) -> bool {
    abs(b.position.x - a.position.x) <= step && abs(b.position.y - a.position.y) <= step
}

/// How many of the pairs before `(i, j)`, in the order of a pass over `n`
/// bodies, contain body `k`.
pub open spec fn involvement(k: int, n: int, i: int, j: int) -> int {
    if k < i {
        n - 1
    } else if k == i {
        j - 1
    } else {
        i + if k < j { 1int } else { 0int }
    }
}

/// Both coordinates of the body's position are at most `bound` in size.
pub open spec fn body_within(b: Body, bound: int) -> bool {
    abs(b.position.x as int) <= bound && abs(b.position.y as int) <= bound
}

pub open spec fn coords_within(s: Seq<Body>, bound: int) -> bool {
    forall|k: int| 0 <= k < s.len() ==> body_within(#[trigger] s[k], bound)
}

/// Two lists of bodies that differ at most in their positions.
pub open spec fn same_frame(a: Seq<Body>, b: Seq<Body>) -> bool {
    a.len() == b.len() && forall|k: int|
        0 <= k < a.len() ==> (#[trigger] a[k]).radius == b[k].radius && a[k].last_position
            == b[k].last_position && a[k].colour == b[k].colour
}

pub open spec fn radii_in_range(s: Seq<Body>) -> bool {
    forall|k: int|
        0 <= k < s.len() ==> SMALLEST_RADIUS <= (#[trigger] s[k]).radius <= LARGEST_RADIUS
}

pub proof fn lemma_contained_coords(p: Point, r: int)
    requires
        inside_arena(p, r),
        0 <= r <= OUTER_RADIUS,
    ensures
        abs(p.x as int) <= OUTER_RADIUS - r,
        abs(p.y as int) <= OUTER_RADIUS - r,
{
    let m = OUTER_RADIUS - r;
    assert(p.x * p.x <= m * m && p.y * p.y <= m * m) by (nonlinear_arith)
        requires p.x * p.x + p.y * p.y <= m * m;
    lemma_abs_le_root(p.x as int, m * m, m);
    lemma_abs_le_root(p.y as int, m * m, m);
}

fn integrate_all(v: &mut Vec<Body>)
    requires
        valid_bodies(old(v)@),
    ensures
        final(v)@ == integrate(old(v)@),
        coords_within(final(v)@, COORD_BASE as int),
{
    let ghost orig = v@;
    let n = v.len();
    let mut i: usize = 0;
    while i < n
        invariant
            orig == old(v)@,
            valid_bodies(orig),
            n == orig.len(),
            v@.len() == n,
            0 <= i <= n,
            forall|k: int| 0 <= k < i ==> #[trigger] v@[k] == integrate_body(orig[k]),
            forall|k: int| i <= k < n ==> #[trigger] v@[k] == orig[k],
            forall|k: int|
                0 <= k < i ==> abs(#[trigger] v@[k].position.x as int) <= COORD_BASE && abs(
                    v@[k].position.y as int,
                ) <= COORD_BASE,
        decreases n - i,
    {
        let b = v[i];
        proof {
            assert(valid_body(orig[i as int]));
            lemma_contained_coords(b.position, b.radius as int);
            lemma_contained_coords(b.last_position, b.radius as int);
        }
        let nb = Body {
            position: Point {
                x: 2 * b.position.x - b.last_position.x,
                y: 2 * b.position.y - b.last_position.y + TICK_GRAVITY,
            },
            last_position: b.position,
            radius: b.radius,
            colour: b.colour,
        };
        v.set(i, nb);
        i = i + 1;
    }
    proof {
        assert(v@ =~= integrate(orig));
    }
}

proof fn lemma_abs_lt_root(x: int, y: int, t: int)
    requires
        x * x + y * y < t * t,
        0 <= t,
    ensures
        abs(x) < t,
        abs(y) < t,
{
    lemma_abs_square(x);
    lemma_abs_square(y);
    let (ax, ay) = (abs(x), abs(y));
    assert(ax < t) by (nonlinear_arith)
        requires ax * ax + ay * ay < t * t, 0 <= t, 0 <= ax, ay * ay >= 0;
    assert(ay < t) by (nonlinear_arith)
        requires ax * ax + ay * ay < t * t, 0 <= t, 0 <= ay, ax * ax >= 0;
}

#[verifier::rlimit(60)]
fn resolve(v: &mut Vec<Body>, i: usize, j: usize)
    requires
        i < j < old(v)@.len(),
        coords_within(old(v)@, PASS_BOUND as int),
        radii_in_range(old(v)@),
    ensures
        final(v)@ == resolve_pair(old(v)@, i as int, j as int),
        same_frame(final(v)@, old(v)@),
        moved_at_most(old(v)@[i as int], final(v)@[i as int], PAIR_STEP as int),
        moved_at_most(old(v)@[j as int], final(v)@[j as int], PAIR_STEP as int),
        forall|k: int|
            0 <= k < old(v)@.len() && k != i && k != j ==> #[trigger] final(v)@[k] == old(v)@[k],
{
    let ghost orig = v@;
    let a = v[i];
    let b = v[j];
    assert(body_within(orig[i as int], PASS_BOUND as int));
    assert(body_within(orig[j as int], PASS_BOUND as int));
    assert(SMALLEST_RADIUS <= orig[i as int].radius <= LARGEST_RADIUS);
    assert(SMALLEST_RADIUS <= orig[j as int].radius <= LARGEST_RADIUS);
    let dx = a.position.x - b.position.x;
    let dy = a.position.y - b.position.y;
    let wx = dx as i128;
    let wy = dy as i128;
    assert(wx * wx <= 0x200_0000_0000_0000 * 0x200_0000_0000_0000) by (nonlinear_arith)
        requires -0x200_0000_0000_0000 <= wx <= 0x200_0000_0000_0000;
    assert(wy * wy <= 0x200_0000_0000_0000 * 0x200_0000_0000_0000) by (nonlinear_arith)
        requires -0x200_0000_0000_0000 <= wy <= 0x200_0000_0000_0000;
    assert(wx * wx >= 0 && wy * wy >= 0) by (nonlinear_arith);
    let d2: i128 = wx * wx + wy * wy;
    let sum = a.radius + b.radius;
    let ws = sum as i128;
    assert(ws * ws <= 0x10_0000 * 0x10_0000) by (nonlinear_arith)
        requires 0 <= ws <= 0x10_0000;
    if d2 < ws * ws {
        proof {
            lemma_abs_lt_root(dx as int, dy as int, sum as int);
        }
        let mx = half(a.position.x + b.position.x);
        let my = half(a.position.y + b.position.y);
        let ox: i64;
        let oy: i64;
        if d2 == 0 {
            ox = sum / 2;
            oy = 0;
        } else {
            let c = ceil_root(d2 as u128);
            proof {
                lemma_abs_le_root(dx as int, d2 as int, c as int);
                lemma_abs_le_root(dy as int, d2 as int, c as int);
            }
            let den = 2 * (c as i64);
            ox = scale(dx, sum, den);
            oy = scale(dy, sum, den);
        }
        v.set(
            i,
            Body {
                position: Point { x: mx + ox, y: my + oy },
                last_position: a.last_position,
                radius: a.radius,
                colour: a.colour,
            },
        );
        v.set(
            j,
            Body {
                position: Point { x: mx - ox, y: my - oy },
                last_position: b.last_position,
                radius: b.radius,
                colour: b.colour,
            },
        );
    }
    proof {
        assert(v@ =~= resolve_pair(orig, i as int, j as int));
    }
}

proof fn lemma_coords_weaken(s: Seq<Body>, b1: int, b2: int)
    requires
        coords_within(s, b1),
        b1 <= b2,
    ensures
        coords_within(s, b2),
{
}

proof fn lemma_pass_bound(m: int, n: int)
    requires
        0 <= m <= n - 1,
        n <= MAX_BODIES,
    ensures
        COORD_BASE + m * PAIR_STEP <= PASS_BOUND,
{
    assert(m * PAIR_STEP <= MAX_BODIES * PAIR_STEP) by (nonlinear_arith)
        requires 0 <= m <= MAX_BODIES;
}

fn collide_all(v: &mut Vec<Body>)
    requires
        coords_within(old(v)@, COORD_BASE as int),
        radii_in_range(old(v)@),
        old(v)@.len() <= MAX_BODIES,
    ensures
        final(v)@ == collide_rows(old(v)@, old(v)@.len() as int, 0),
        coords_within(final(v)@, PASS_BOUND as int),
        same_frame(final(v)@, old(v)@),
{
    let ghost orig = v@;
    let n = v.len();
    let mut i: usize = 0;
    while i < n
        invariant
            orig == old(v)@,
            n == orig.len(),
            n <= MAX_BODIES,
            0 <= i <= n,
            collide_rows(v@, n as int, i as int) == collide_rows(orig, n as int, 0),
            same_frame(v@, orig),
            radii_in_range(v@),
            forall|k: int|
                0 <= k < n ==> body_within(
                    #[trigger] v@[k],
                    COORD_BASE + involvement(k, n as int, i as int, i + 1) * PAIR_STEP,
                ),
        decreases n - i,
    {
        let ghost row_start = v@;
        let mut j: usize = i + 1;
        while j < n
            invariant
                orig == old(v)@,
                n == orig.len(),
                n <= MAX_BODIES,
                0 <= i < n,
                i + 1 <= j <= n,
                collide_row(v@, n as int, i as int, j as int) == collide_row(
                    row_start,
                    n as int,
                    i as int,
                    i + 1,
                ),
                same_frame(v@, orig),
                radii_in_range(v@),
                forall|k: int|
                    0 <= k < n ==> body_within(
                        #[trigger] v@[k],
                        COORD_BASE + involvement(k, n as int, i as int, j as int) * PAIR_STEP,
                    ),
            decreases n - j,
        {
            let ghost before = v@;
            proof {
                assert forall|k: int| 0 <= k < n implies body_within(
                    #[trigger] before[k],
                    PASS_BOUND as int,
                ) by {
                    lemma_pass_bound(involvement(k, n as int, i as int, j as int), n as int);
                }
            }
            resolve(v, i, j);
            proof {
                assert forall|k: int| 0 <= k < n implies body_within(
                    #[trigger] v@[k],
                    COORD_BASE + involvement(k, n as int, i as int, j + 1) * PAIR_STEP,
                ) by {
                    let m = involvement(k, n as int, i as int, j as int);
                    assert(body_within(before[k], COORD_BASE + m * PAIR_STEP));
                    if k == i || k == j {
                        assert(involvement(k, n as int, i as int, j + 1) == m + 1);
                        let st = PAIR_STEP as int;
                        assert((m + 1) * st == m * st + st) by (nonlinear_arith);
                    } else {
                        assert(v@[k] == before[k]);
                        assert(involvement(k, n as int, i as int, j + 1) == m);
                    }
                }
            }
            j = j + 1;
        }
        proof {
            assert forall|k: int| 0 <= k < n implies body_within(
                #[trigger] v@[k],
                COORD_BASE + involvement(k, n as int, i + 1, i + 2) * PAIR_STEP,
            ) by {
                assert(body_within(v@[k], COORD_BASE + involvement(
                    k,
                    n as int,
                    i as int,
                    n as int,
                ) * PAIR_STEP));
            }
        }
        i = i + 1;
    }
    proof {
        assert forall|k: int| 0 <= k < n implies body_within(
            #[trigger] v@[k],
            PASS_BOUND as int,
        ) by {
            lemma_pass_bound(involvement(k, n as int, i as int, i + 1), n as int);
        }
    }
}

fn contain_each(v: &mut Vec<Body>)
    requires
        coords_within(old(v)@, PASS_BOUND as int),
        radii_in_range(old(v)@),
    ensures
        final(v)@ == contain_all(old(v)@),
        coords_within(final(v)@, OUTER_RADIUS as int),
        same_frame(final(v)@, old(v)@),
        forall|k: int|
            0 <= k < final(v)@.len() ==> inside_arena(
                (#[trigger] final(v)@[k]).position,
                final(v)@[k].radius as int,
            ),
{
    let ghost orig = v@;
    let n = v.len();
    let mut i: usize = 0;
    while i < n
        invariant
            orig == old(v)@,
            n == orig.len(),
            v@.len() == n,
            0 <= i <= n,
            coords_within(orig, PASS_BOUND as int),
            radii_in_range(orig),
            forall|k: int| 0 <= k < i ==> #[trigger] v@[k] == contain_body(orig[k]),
            forall|k: int| i <= k < n ==> #[trigger] v@[k] == orig[k],
            forall|k: int|
                0 <= k < i ==> inside_arena((#[trigger] v@[k]).position, v@[k].radius as int)
                    && abs(v@[k].position.x as int) <= OUTER_RADIUS && abs(
                    v@[k].position.y as int,
                ) <= OUTER_RADIUS,
        decreases n - i,
    {
        let b = v[i];
        assert(body_within(orig[i as int], PASS_BOUND as int));
        assert(SMALLEST_RADIUS <= orig[i as int].radius <= LARGEST_RADIUS);
        let m = OUTER_RADIUS - b.radius;
        let px = b.position.x as i128;
        let py = b.position.y as i128;
        assert(px * px <= 0x100_0000_0000_0000 * 0x100_0000_0000_0000) by (nonlinear_arith)
            requires -0x100_0000_0000_0000 <= px <= 0x100_0000_0000_0000;
        assert(py * py <= 0x100_0000_0000_0000 * 0x100_0000_0000_0000) by (nonlinear_arith)
            requires -0x100_0000_0000_0000 <= py <= 0x100_0000_0000_0000;
        assert(px * px >= 0 && py * py >= 0) by (nonlinear_arith);
        let n2 = px * px + py * py;
        let wm = m as i128;
        assert(wm * wm <= 0x20_0000 * 0x20_0000) by (nonlinear_arith)
            requires 0 <= wm <= 0x20_0000;
        if n2 > wm * wm {
            assert(wm * wm >= 0) by (nonlinear_arith);
            let c = ceil_root(n2 as u128);
            proof {
                lemma_contain(px as int, py as int, m as int, c as int);
            }
            let nx = scale(b.position.x, m, c as i64);
            let ny = scale(b.position.y, m, c as i64);
            v.set(
                i,
                Body {
                    position: Point { x: nx, y: ny },
                    last_position: b.last_position,
                    radius: b.radius,
                    colour: b.colour,
                },
            );
        } else {
            proof {
                lemma_contained_coords(b.position, b.radius as int);
            }
        }
        proof {
            lemma_contained_coords(v@[i as int].position, b.radius as int);
        }
        i = i + 1;
    }
    proof {
        assert(v@ =~= contain_all(orig));
    }
}

/// Exclusive bound of each draw that sets a new body's radius.
pub const DRAW_RANGE: u64 = 65536;

/// Exclusive bound of each draw that sets a colour channel.
pub const COLOUR_SPAN: u64 = 200;

/// The darkest value of a colour channel.
pub const COLOUR_FLOOR: u8 = 55;

/// The random numbers that one spawn uses.
#[derive(Clone, Copy, PartialEq, Eq, Structural, Debug)]
pub struct SpawnDraws {
    /// Two uniform draws below `DRAW_RANGE`; the larger sets the preferred radius.
    pub first: u64,
    pub second: u64,
    /// Uniform draws below `COLOUR_SPAN`, one per channel.
    pub red: u64,
    pub green: u64,
    pub blue: u64,
}

impl SpawnDraws {
    pub open spec fn valid(&self) -> bool {
        self.first < DRAW_RANGE && self.second < DRAW_RANGE && self.red < COLOUR_SPAN
            && self.green < COLOUR_SPAN && self.blue < COLOUR_SPAN
    }
}

/// The preferred radius: the larger draw mapped onto `[SMALLEST_RADIUS, LARGEST_RADIUS)`.
pub open spec fn drawn_radius(d: SpawnDraws) -> int {
    let m = if d.first >= d.second { d.first } else { d.second };
    SMALLEST_RADIUS + m * (LARGEST_RADIUS - SMALLEST_RADIUS) / (DRAW_RANGE as int)
}

pub open spec fn drawn_colour(d: SpawnDraws) -> Colour {
    Colour {
        red: (COLOUR_FLOOR + d.red) as u8,
        green: (COLOUR_FLOOR + d.green) as u8,
        blue: (COLOUR_FLOOR + d.blue) as u8,
    }
}

/// A circle of radius `r` at `c` overlaps none of the first `upto` bodies.
pub open spec fn clear_of_first(s: Seq<Body>, c: Point, r: int, upto: int) -> bool
    decreases upto,
{
    if upto <= 0 {
        true
    } else {
        clear_of_first(s, c, r, upto - 1) && dist2(c, s[upto - 1].position) >= (r + s[upto
            - 1].radius) * (r + s[upto - 1].radius)
    }
}

/// A circle of radius `r` at `c` lies inside the arena and overlaps no body.
pub open spec fn fits(s: Seq<Body>, c: Point, r: int) -> bool {
    0 <= r <= OUTER_RADIUS && inside_arena(c, r) && clear_of_first(s, c, r, s.len() as int)
}

/// `r` is the largest radius, not above the preferred one, at which a body fits at `c`.
pub open spec fn largest_fit(s: Seq<Body>, c: Point, d: SpawnDraws, r: int) -> bool {
    r <= drawn_radius(d) && fits(s, c, r) && (r == drawn_radius(d) || !fits(s, c, r + 1))
}

proof fn lemma_floor_cond(t: int, rad: int, n: int, f: int)
    requires
        0 <= t,
        0 <= rad,
        is_floor_sqrt(n, f),
    ensures
        (t + rad) * (t + rad) <= n <==> t + rad <= f,
{
    let u = t + rad;
    if u <= f {
        assert(u * u <= f * f) by (nonlinear_arith)
            requires 0 <= u <= f;
    } else {
        assert((f + 1) * (f + 1) <= u * u) by (nonlinear_arith)
            requires 0 <= f + 1 <= u;
    }
}

proof fn lemma_ceil_cond(u: int, n: int, c: int)
    requires
        0 <= u,
        0 <= c,
        n <= c * c,
        c > 0 ==> (c - 1) * (c - 1) < n,
    ensures
        n <= u * u <==> c <= u,
{
    if c <= u {
        assert(c * c <= u * u) by (nonlinear_arith)
            requires 0 <= c <= u;
    } else {
        assert(u * u <= (c - 1) * (c - 1)) by (nonlinear_arith)
            requires 0 <= u <= c - 1;
    }
}

/// Whether a spawn at `c` creates a body.
pub open spec fn spawn_allowed(s: Seq<Body>, c: Point) -> bool {
    fits(s, c, SMALLEST_RADIUS as int)
}

/// `t` is what a spawn at `c` with `d` makes of `s`.
pub open spec fn spawn_outcome(s: Seq<Body>, c: Point, d: SpawnDraws, t: Seq<Body>) -> bool {
    if spawn_allowed(s, c) {
        t.len() == s.len() + 1 && t.drop_last() == s && t.last().position == c
            && t.last().last_position == c && t.last().colour == drawn_colour(d) && largest_fit(
            s,
            c,
            d,
            t.last().radius as int,
        )
    } else {
        t == s
    }
}

/// `c` lies strictly inside body `b`.
pub open spec fn covers(b: Body, c: Point) -> bool {
    dist2(b.position, c) < b.radius * b.radius
}

/// The bodies that do not cover `c`, in their order.
pub open spec fn kept(s: Seq<Body>, c: Point) -> Seq<Body>
    decreases s.len(),
{
    if s.len() == 0 {
        s
    } else {
        let rest = kept(s.drop_last(), c);
        if covers(s.last(), c) {
            rest
        } else {
            rest.push(s.last())
        }
    }
}

/// Removal at `c` keeps a body exactly when it was there and `c` is not
/// strictly inside it.
pub proof fn lemma_kept_exact(s: Seq<Body>, c: Point, b: Body)
    ensures
        kept(s, c).contains(b) <==> (s.contains(b) && !covers(b, c)),
    decreases s.len(),
{
    if s.len() > 0 {
        let init = s.drop_last();
        lemma_kept_exact(init, c, b);
        let rest = kept(init, c);
        if s.contains(b) && b != s.last() {
            let k = choose|k: int| 0 <= k < s.len() && s[k] == b;
            assert(init[k] == b);
        }
        if init.contains(b) {
            let k = choose|k: int| 0 <= k < init.len() && init[k] == b;
            assert(s[k] == b);
        }
        if !covers(s.last(), c) {
            if rest.contains(b) {
                let k = choose|k: int| 0 <= k < rest.len() && rest[k] == b;
                assert(rest.push(s.last())[k] == b);
            }
            if b == s.last() {
                assert(rest.push(s.last())[rest.len() as int] == b);
            }
            if rest.push(s.last()).contains(b) && b != s.last() {
                let k = choose|k: int| 0 <= k < rest.len() + 1 && rest.push(s.last())[k] == b;
                assert(rest[k] == b);
            }
        }
        assert(s[s.len() - 1] == s.last());
    }
}

/// Whether a circle of radius `r` at `p` lies inside the arena.
fn inside(p: Point, r: i64) -> (res: bool)
    requires
        0 <= r <= OUTER_RADIUS,
    ensures
        res == inside_arena(p, r as int),
{
    let m = OUTER_RADIUS - r;
    if p.x < -OUTER_RADIUS || p.x > OUTER_RADIUS || p.y < -OUTER_RADIUS || p.y > OUTER_RADIUS {
        proof {
            let x = p.x as int;
            let y = p.y as int;
            assert(x * x + y * y > m * m) by (nonlinear_arith)
                requires
                    x < -OUTER_RADIUS || x > OUTER_RADIUS || y < -OUTER_RADIUS || y
                        > OUTER_RADIUS,
                    0 <= m <= OUTER_RADIUS;
        }
        return false;
    }
    let x = p.x as i128;
    let y = p.y as i128;
    let wm = m as i128;
    assert(x * x <= 0x20_0000 * 0x20_0000 && x * x >= 0) by (nonlinear_arith)
        requires -0x20_0000 <= x <= 0x20_0000;
    assert(y * y <= 0x20_0000 * 0x20_0000 && y * y >= 0) by (nonlinear_arith)
        requires -0x20_0000 <= y <= 0x20_0000;
    assert(wm * wm <= 0x20_0000 * 0x20_0000) by (nonlinear_arith)
        requires 0 <= wm <= 0x20_0000;
    x * x + y * y <= wm * wm
}

/// Whether `c` lies strictly inside a body that is inside the arena.
fn covers_point(b: &Body, c: Point) -> (res: bool)
    requires
        valid_body(*b),
    ensures
        res == covers(*b, c),
{
    proof {
        lemma_contained_coords(b.position, b.radius as int);
    }
    let reach = 2 * OUTER_RADIUS;
    if c.x < -reach || c.x > reach || c.y < -reach || c.y > reach {
        proof {
            let dx = b.position.x - c.x;
            let dy = b.position.y - c.y;
            let r = b.radius as int;
            assert(dx * dx + dy * dy >= r * r) by (nonlinear_arith)
                requires
                    dx < -OUTER_RADIUS || dx > OUTER_RADIUS || dy < -OUTER_RADIUS || dy
                        > OUTER_RADIUS,
                    0 <= r <= OUTER_RADIUS;
        }
        return false;
    }
    let dx = (b.position.x - c.x) as i128;
    let dy = (b.position.y - c.y) as i128;
    let r = b.radius as i128;
    assert(dx * dx <= 0x80_0000 * 0x80_0000 && dx * dx >= 0) by (nonlinear_arith)
        requires -0x80_0000 <= dx <= 0x80_0000;
    assert(dy * dy <= 0x80_0000 * 0x80_0000 && dy * dy >= 0) by (nonlinear_arith)
        requires -0x80_0000 <= dy <= 0x80_0000;
    assert(r * r <= 0x20_0000 * 0x20_0000) by (nonlinear_arith)
        requires 0 <= r <= 0x20_0000;
    dx * dx + dy * dy < r * r
}

proof fn lemma_clear_of_first_at(s: Seq<Body>, c: Point, r: int, upto: int, k: int)
    requires
        clear_of_first(s, c, r, upto),
        0 <= k < upto,
    ensures
        dist2(c, s[k].position) >= (r + s[k].radius) * (r + s[k].radius),
    decreases upto,
{
    if k < upto - 1 {
        lemma_clear_of_first_at(s, c, r, upto - 1, k);
    }
}

proof fn lemma_clear_of_first_smaller(s: Seq<Body>, c: Point, a: int, b: int, upto: int)
    requires
        clear_of_first(s, c, b, upto),
        0 <= a <= b,
        upto <= s.len(),
        forall|k: int| 0 <= k < s.len() ==> (#[trigger] s[k]).radius >= 0,
    ensures
        clear_of_first(s, c, a, upto),
    decreases upto,
{
    if upto > 0 {
        lemma_clear_of_first_smaller(s, c, a, b, upto - 1);
        let rad = s[upto - 1].radius as int;
        assert((a + rad) * (a + rad) <= (b + rad) * (b + rad)) by (nonlinear_arith)
            requires 0 <= a + rad <= b + rad;
    }
}

/// A smaller circle fits wherever a larger one does.
pub proof fn lemma_fits_smaller(s: Seq<Body>, c: Point, a: int, b: int)
    requires
        valid_bodies(s),
        fits(s, c, b),
        0 <= a <= b,
    ensures
        fits(s, c, a),
{
    assert forall|k: int| 0 <= k < s.len() implies (#[trigger] s[k]).radius >= 0 by {
        assert(valid_body(s[k]));
    }
    lemma_clear_of_first_smaller(s, c, a, b, s.len() as int);
    let m1 = OUTER_RADIUS - b;
    let m2 = OUTER_RADIUS - a;
    assert(m1 * m1 <= m2 * m2) by (nonlinear_arith)
        requires 0 <= m1 <= m2;
}

/// A spawn at a point strictly inside an existing body never creates a body.
pub proof fn lemma_spawn_inside_body_rejected(s: Seq<Body>, c: Point, k: int)
    requires
        valid_bodies(s),
        0 <= k < s.len(),
        covers(s[k], c),
    ensures
        !spawn_allowed(s, c),
{
    if fits(s, c, SMALLEST_RADIUS as int) {
        lemma_clear_of_first_at(s, c, SMALLEST_RADIUS as int, s.len() as int, k);
        assert(valid_body(s[k]));
        let rad = s[k].radius as int;
        assert(rad * rad <= (SMALLEST_RADIUS + rad) * (SMALLEST_RADIUS + rad)) by (nonlinear_arith)
            requires 0 <= rad;
        let p = s[k].position;
        let (px, py, cx, cy) = (p.x as int, p.y as int, c.x as int, c.y as int);
        assert((px - cx) * (px - cx) + (py - cy) * (py - cy) == (cx - px) * (cx - px) + (cy - py)
            * (cy - py)) by (nonlinear_arith);
    }
}

/// Every body a spawn creates has a radius between the smallest and the
/// largest allowed.
pub proof fn lemma_spawned_radius_in_range(s: Seq<Body>, c: Point, d: SpawnDraws, t: Seq<Body>)
    requires
        valid_bodies(s),
        d.valid(),
        spawn_allowed(s, c),
        spawn_outcome(s, c, d, t),
    ensures
        SMALLEST_RADIUS <= t.last().radius <= LARGEST_RADIUS,
{
    let r = t.last().radius as int;
    let m = if d.first >= d.second { d.first } else { d.second };
    assert(m * (LARGEST_RADIUS - SMALLEST_RADIUS) / (DRAW_RANGE as int) < LARGEST_RADIUS
        - SMALLEST_RADIUS) by (nonlinear_arith)
        requires m < DRAW_RANGE;
    assert(m * (LARGEST_RADIUS - SMALLEST_RADIUS) / (DRAW_RANGE as int) >= 0) by (nonlinear_arith)
        requires m >= 0;
    if r < SMALLEST_RADIUS {
        lemma_fits_smaller(s, c, r + 1, SMALLEST_RADIUS as int);
    }
}

/// Ticking is a function of the bodies alone: equal bodies stay equal over
/// any number of ticks.
pub proof fn lemma_ticks_deterministic(a: Seq<Body>, b: Seq<Body>, n: nat)
    requires
        a == b,
    ensures
        run_ticks(a, n) == run_ticks(b, n),
{
}

/// The bodies of the arena.
pub struct World {
    bodies: Vec<Body>,
}

impl View for World {
    type V = Seq<Body>;

    closed spec fn view(&self) -> Seq<Body> {
        self.bodies@
    }
}

impl World {
    /// Every body has a radius in range and lies, now and one tick ago, inside the arena.
    pub open spec fn wf(&self) -> bool {
        valid_bodies(self@)
    }

    /// An empty arena.
    pub fn new() -> (w: World)
        ensures
            w.wf(),
            w@ == Seq::<Body>::empty(),
    {
        World { bodies: Vec::new() }
    }

    /// The bodies, in no meaningful order.
    pub fn bodies(&self) -> (r: &Vec<Body>)
        ensures
            r@ == self@,
    {
        &self.bodies
    }

    /// Removes every body.
    pub fn clear(&mut self)
        ensures
            final(self)@ == Seq::<Body>::empty(),
            final(self).wf(),
    {
        self.bodies.clear();
    }

    /// Advances the simulation by one fixed step.
    pub fn tick(&mut self)
        requires
            old(self).wf(),
        ensures
            final(self)@ == tick_spec(old(self)@),
            final(self).wf(),
            forall|k: int|
                0 <= k < final(self)@.len() ==> inside_arena(
                    (#[trigger] final(self)@[k]).position,
                    final(self)@[k].radius as int,
                ),
    {
        let ghost orig = self.bodies@;
        integrate_all(&mut self.bodies);
        let ghost start = self.bodies@;
        assert(same_frame(start, start));
        let mut pass: u64 = 0;
        while pass < RELAXATION_PASSES
            invariant
                start == integrate(orig),
                valid_bodies(orig),
                0 <= pass <= RELAXATION_PASSES,
                relax_times(self.bodies@, (RELAXATION_PASSES - pass) as nat) == relax_times(
                    start,
                    RELAXATION_PASSES as nat,
                ),
                same_frame(self.bodies@, start),
                coords_within(self.bodies@, COORD_BASE as int),
                pass > 0 ==> forall|k: int|
                    0 <= k < self.bodies@.len() ==> inside_arena(
                        (#[trigger] self.bodies@[k]).position,
                        self.bodies@[k].radius as int,
                    ),
            decreases RELAXATION_PASSES - pass,
        {
            let ghost before = self.bodies@;
            assert(radii_in_range(before)) by {
                assert forall|k: int| 0 <= k < before.len() implies SMALLEST_RADIUS <= (
                #[trigger] before[k]).radius <= LARGEST_RADIUS by {
                    assert(before[k].radius == start[k].radius);
                    assert(valid_body(orig[k]));
                }
            }
            collide_all(&mut self.bodies);
            contain_each(&mut self.bodies);
            proof {
                lemma_coords_weaken(self.bodies@, OUTER_RADIUS as int, COORD_BASE as int);
                assert(self.bodies@ == relax(before));
            }
            pass = pass + 1;
        }
        proof {
            assert(self.bodies@ == tick_spec(orig));
            assert forall|k: int| 0 <= k < self.bodies@.len() implies #[trigger] valid_body(
                self.bodies@[k],
            ) by {
                assert(self.bodies@[k].radius == start[k].radius);
                assert(self.bodies@[k].last_position == start[k].last_position);
                assert(valid_body(orig[k]));
            }
        }
    }

    /// Places a body at `cursor` if one of the smallest radius fits there.
    /// Its radius is the largest, up to the preferred radius of `draws`, at
    /// which it overlaps no body and stays inside the arena.
    pub fn spawn(&mut self, cursor: Point, draws: &SpawnDraws) -> (spawned: bool)
        requires
            old(self).wf(),
            old(self)@.len() < MAX_BODIES,
            draws.valid(),
        ensures
            final(self).wf(),
            spawned == spawn_allowed(old(self)@, cursor),
            spawn_outcome(old(self)@, cursor, *draws, final(self)@),
    {
        let ghost s = self.bodies@;
        let ghost drawn = drawn_radius(*draws);
        if cursor.x < -OUTER_RADIUS || cursor.x > OUTER_RADIUS || cursor.y < -OUTER_RADIUS
            || cursor.y > OUTER_RADIUS {
            proof {
                let cx = cursor.x as int;
                let cy = cursor.y as int;
                assert(cx * cx + cy * cy > (OUTER_RADIUS - SMALLEST_RADIUS) * (OUTER_RADIUS
                    - SMALLEST_RADIUS)) by (nonlinear_arith)
                    requires
                        cx < -OUTER_RADIUS || cx > OUTER_RADIUS || cy < -OUTER_RADIUS || cy
                            > OUTER_RADIUS;
            }
            return false;
        }
        let larger = if draws.first >= draws.second {
            draws.first
        } else {
            draws.second
        };
        let step = larger * ((LARGEST_RADIUS - SMALLEST_RADIUS) as u64) / DRAW_RANGE;
        let mut r: i64 = SMALLEST_RADIUS + step as i64;
        let n = self.bodies.len();
        let mut i: usize = 0;
        while i < n
            invariant
                s == self.bodies@,
                n == s.len(),
                valid_bodies(s),
                0 <= i <= n,
                -OUTER_RADIUS <= cursor.x <= OUTER_RADIUS,
                -OUTER_RADIUS <= cursor.y <= OUTER_RADIUS,
                r <= drawn,
                drawn <= LARGEST_RADIUS,
                forall|t: int|
                    0 <= t ==> (t <= r <==> (t <= drawn && #[trigger] clear_of_first(
                        s,
                        cursor,
                        t,
                        i as int,
                    ))),
            decreases n - i,
        {
            let b = self.bodies[i];
            proof {
                assert(valid_body(s[i as int]));
                lemma_contained_coords(b.position, b.radius as int);
            }
            let dx = (cursor.x - b.position.x) as i128;
            let dy = (cursor.y - b.position.y) as i128;
            assert(dx * dx <= 0x40_0000 * 0x40_0000 && dx * dx >= 0) by (nonlinear_arith)
                requires -0x40_0000 <= dx <= 0x40_0000;
            assert(dy * dy <= 0x40_0000 * 0x40_0000 && dy * dy >= 0) by (nonlinear_arith)
                requires -0x40_0000 <= dy <= 0x40_0000;
            let d2 = dx * dx + dy * dy;
            let f = floor_root(d2 as u128);
            let clearance = f as i64 - b.radius;
            proof {
                assert forall|t: int| 0 <= t implies #[trigger] clear_of_first(
                    s,
                    cursor,
                    t,
                    i + 1,
                ) == (clear_of_first(s, cursor, t, i as int) && t <= clearance) by {
                    lemma_floor_cond(t, b.radius as int, d2 as int, f as int);
                }
            }
            if clearance < r {
                r = clearance;
            }
            i = i + 1;
        }
        let cx = cursor.x as i128;
        let cy = cursor.y as i128;
        assert(cx * cx <= 0x20_0000 * 0x20_0000 && cx * cx >= 0) by (nonlinear_arith)
            requires -0x20_0000 <= cx <= 0x20_0000;
        assert(cy * cy <= 0x20_0000 * 0x20_0000 && cy * cy >= 0) by (nonlinear_arith)
            requires -0x20_0000 <= cy <= 0x20_0000;
        let n0 = cx * cx + cy * cy;
        let c0 = ceil_root(n0 as u128);
        let room = OUTER_RADIUS - c0 as i64;
        proof {
            assert forall|t: int| 0 <= t <= OUTER_RADIUS implies (t <= room <==> inside_arena(
                cursor,
                t,
            )) by {
                lemma_ceil_cond(OUTER_RADIUS - t, n0 as int, c0 as int);
            }
        }
        if room < r {
            r = room;
        }
        proof {
            assert forall|t: int| 0 <= t <= OUTER_RADIUS implies (t <= r <==> (t <= drawn
                && #[trigger] fits(s, cursor, t))) by {
                assert(s.len() == n);
            }
            assert(fits(s, cursor, SMALLEST_RADIUS as int) == (SMALLEST_RADIUS <= r));
        }
        if r >= SMALLEST_RADIUS {
            let colour = Colour {
                red: COLOUR_FLOOR + draws.red as u8,
                green: COLOUR_FLOOR + draws.green as u8,
                blue: COLOUR_FLOOR + draws.blue as u8,
            };
            self.bodies.push(
                Body { position: cursor, last_position: cursor, radius: r, colour: colour },
            );
            proof {
                assert(fits(s, cursor, r as int));
                if r < drawn {
                    assert(!fits(s, cursor, r + 1));
                }
                assert(self.bodies@.drop_last() =~= s);
                assert(valid_body(self.bodies@.last()));
                assert forall|k: int| 0 <= k < self.bodies@.len() implies #[trigger] valid_body(
                    self.bodies@[k],
                ) by {
                    if k < n {
                        assert(self.bodies@[k] == s[k]);
                    }
                }
            }
            true
        } else {
            false
        }
    }

    /// Removes every body that `cursor` lies strictly inside; the others keep their order.
    pub fn remove_at(&mut self, cursor: Point)
        requires
            old(self).wf(),
        ensures
            final(self).wf(),
            final(self)@ == kept(old(self)@, cursor),
    {
        let ghost s = self.bodies@;
        let n = self.bodies.len();
        let mut out: Vec<Body> = Vec::new();
        let mut i: usize = 0;
        while i < n
            invariant
                s == self.bodies@,
                n == s.len(),
                valid_bodies(s),
                0 <= i <= n,
                out@ == kept(s.subrange(0, i as int), cursor),
                out@.len() <= i,
                forall|k: int| 0 <= k < out@.len() ==> #[trigger] valid_body(out@[k]),
            decreases n - i,
        {
            let b = self.bodies[i];
            assert(valid_body(s[i as int]));
            proof {
                assert(s.subrange(0, i + 1).drop_last() =~= s.subrange(0, i as int));
                assert(s.subrange(0, i + 1).last() == b);
            }
            if !covers_point(&b, cursor) {
                out.push(b);
                proof {
                    assert forall|k: int| 0 <= k < out@.len() implies #[trigger] valid_body(
                        out@[k],
                    ) by {
                        if k < out@.len() - 1 {
                            assert(out@[k] == out@.drop_last()[k]);
                        }
                    }
                }
            }
            i = i + 1;
        }
        proof {
            assert(s.subrange(0, n as int) =~= s);
        }
        self.bodies = out;
    }

    /// An arena holding `bodies`, if each has a radius in range and lies,
    /// with its previous position, inside the arena, and there are not too many.
    pub fn from_bodies(bodies: Vec<Body>) -> (r: Option<World>)
        ensures
            r is Some <==> valid_bodies(bodies@),
            r matches Some(w) ==> w@ == bodies@,
    {
        if bodies.len() as u64 > MAX_BODIES {
            return None;
        }
        let n = bodies.len();
        let mut i: usize = 0;
        while i < n
            invariant
                n == bodies@.len(),
                n <= MAX_BODIES,
                0 <= i <= n,
                forall|k: int| 0 <= k < i ==> #[trigger] valid_body(bodies@[k]),
            decreases n - i,
        {
            let b = bodies[i];
            if b.radius < SMALLEST_RADIUS || b.radius > LARGEST_RADIUS || !inside(
                b.position,
                b.radius,
            ) || !inside(b.last_position, b.radius) {
                assert(!valid_body(bodies@[i as int]));
                return None;
            }
            i = i + 1;
        }
        Some(World { bodies })
    }
}

} // verus!
