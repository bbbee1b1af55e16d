use vstd::prelude::*;
use vstd::arithmetic::div_mod::{lemma_fundamental_div_mod, lemma_fundamental_div_mod_converse};
use vstd::arithmetic::mul::lemma_mul_is_distributive_add;
use rand::Rng;

verus! {

/// A countdown that restarts each time it runs out. Durations are counted in
/// nanoseconds of simulated time.
#[derive(Clone, Copy, Debug, PartialEq, Eq, Structural)]
pub struct RepeatingTimer {
    pub period: u64,
    pub elapsed: u64,
}

/// How many times a timer with `period` that has run `elapsed` runs out over
/// the successive advances `deltas`, and what it has run when they are done.
pub open spec fn run_over(elapsed: nat, period: nat, deltas: Seq<nat>) -> (nat, nat)
    decreases deltas.len(),
{
    if deltas.len() == 0 {
        (0, elapsed)
    } else {
        let (fired, now) = run_over(elapsed, period, deltas.drop_last());
        let total = (now + deltas.last()) as int;
        ((fired + total / (period as int)) as nat, (total % (period as int)) as nat)
    }
}

/// The sum of `deltas`.
pub open spec fn total_time(deltas: Seq<nat>) -> nat
    decreases deltas.len(),
{
    if deltas.len() == 0 {
        0
    } else {
        total_time(deltas.drop_last()) + deltas.last()
    }
}

impl RepeatingTimer {
    pub open spec fn wf(&self) -> bool {
        self.period > 0 && self.elapsed < self.period
    }

    /// A timer with `period` that has not run yet.
    pub fn new(period: u64) -> (r: RepeatingTimer)
        requires
            period > 0,
        ensures
            r.wf(),
            r.period == period,
            r.elapsed == 0,
    {
        RepeatingTimer { period, elapsed: 0 }
    }

    /// How many times the timer runs out if it advances by `delta`.
    pub open spec fn fires_after(&self, delta: nat) -> nat {
        ((self.elapsed + delta) / (self.period as int)) as nat
    }

    /// Advances the timer by `delta` and returns how many times it ran out;
    /// what is left over is carried into the next period.
    pub fn advance(&mut self, delta: u64) -> (fired: u64)
        requires
            old(self).wf(),
        ensures
            final(self).wf(),
            final(self).period == old(self).period,
            fired == old(self).fires_after(delta as nat),
            final(self).elapsed == (old(self).elapsed + delta) % (old(self).period as int),
    {
        let p = self.period;
        let e = self.elapsed;
        let room = p - e;
        if delta < room {
            self.elapsed = e + delta;
            proof {
                lemma_fundamental_div_mod_converse(e + delta, p as int, 0, e + delta);
            }
            0
        } else {
            let rest = delta - room;
            let q = rest / p;
            let r = rest % p;
            proof {
                lemma_fundamental_div_mod(rest as int, p as int);
                assert(q <= rest) by (nonlinear_arith)
                    requires
                        rest == p * q + r,
                        p >= 1,
                        r >= 0,
                        q >= 0,
                ;
                lemma_mul_is_distributive_add(p as int, q as int, 1);
                assert(e + delta == (q + 1) * p + r) by (nonlinear_arith)
                    requires
                        rest == p * q + r,
                        rest == delta - (p - e),
                        p * (q + 1) == p * q + p * 1,
                ;
                lemma_fundamental_div_mod_converse(e + delta, p as int, q + 1, r as int);
            }
            self.elapsed = r;
            q + 1
        }
    }
}

/// For any sequence of advances, a timer runs out once per whole period of
/// simulated time: the number of times is the time run in all divided by the
/// period, and what is left over is the remainder.
pub proof fn lemma_fires_once_per_period(elapsed: nat, period: nat, deltas: Seq<nat>)
    requires
        elapsed < period,
    ensures
        run_over(elapsed, period, deltas).0 == ((elapsed + total_time(deltas)) as int) / (
        period as int),
        run_over(elapsed, period, deltas).1 == ((elapsed + total_time(deltas)) as int) % (
        period as int),
    decreases deltas.len(),
{
    if deltas.len() > 0 {
        lemma_fires_once_per_period(elapsed, period, deltas.drop_last());
        let p = period as int;
        let x = (elapsed + total_time(deltas.drop_last())) as int;
        let d = deltas.last() as int;
        let y: int = x % p + d;
        lemma_fundamental_div_mod(x, p);
        lemma_fundamental_div_mod(y, p);
        lemma_mul_is_distributive_add(p, x / p, y / p);
        assert(x + d == (x / p + y / p) * p + y % p) by (nonlinear_arith)
            requires
                x == p * (x / p) + x % p,
                y == x % p + d,
                y == p * (y / p) + y % p,
                p * (x / p + y / p) == p * (x / p) + p * (y / p),
        ;
        assert(0 <= y % p < p);
        lemma_fundamental_div_mod_converse(x + d, p, x / p + y / p, y % p);
        assert(deltas.drop_last().push(deltas.last()) =~= deltas);
        assert(total_time(deltas) == total_time(deltas.drop_last()) + d);
    } else {
        lemma_fundamental_div_mod_converse(elapsed as int, period as int, 0, elapsed as int);
    }
}

/// Simulated nanoseconds between two obstacles.
pub const SPAWN_PERIOD: u64 = 3_000_000_000;

/// Lowest vertical offset of a new obstacle from the spawn origin.
pub const MIN_OFFSET: i32 = -250;

/// Highest vertical offset of a new obstacle from the spawn origin.
pub const MAX_OFFSET: i32 = 250;

/// Horizontal position at which new obstacles appear.
pub const ORIGIN_X: i32 = 700;

/// Vertical position around which new obstacles are offset.
pub const ORIGIN_Y: i32 = 0;

/// Speed of an obstacle, leftwards, in units per second.
pub const OBSTACLE_SPEED: i32 = 150;

#[derive(Clone, Copy, Debug, PartialEq, Eq, Structural)]
pub enum SpawnerError {
    /// The period is zero.
    ZeroPeriod,
    /// The lowest offset lies above the highest.
    EmptyRange,
}

/// Emits an obstacle each time its timer runs out, at a vertical offset drawn
/// from `[min_offset, max_offset]` around the spawn origin.
#[derive(Clone, Copy, Debug, PartialEq, Eq, Structural)]
pub struct Spawner {
    pub timer: RepeatingTimer,
    pub min_offset: i32,
    pub max_offset: i32,
    pub origin_x: i32,
    pub origin_y: i32,
    /// Horizontal speed of an obstacle, leftwards, in units per second.
    pub speed: i32,
}

impl Spawner {
    pub open spec fn wf(&self) -> bool {
        self.timer.wf() && self.min_offset <= self.max_offset
    }

    /// Whether `offset` lies in the configured range, both ends included.
    pub open spec fn admits(&self, offset: i32) -> bool {
        self.min_offset <= offset <= self.max_offset
    }

    /// A spawner whose timer has not run yet.
    pub fn new(
        period: u64,
        min_offset: i32,
        max_offset: i32,
        origin_x: i32,
        origin_y: i32,
        speed: i32,
    ) -> (r: Result<Spawner, SpawnerError>)
        ensures
            match r {
                Ok(s) => {
                    &&& period > 0 && min_offset <= max_offset
                    &&& s.wf()
                    &&& s == (Spawner {
                        timer: RepeatingTimer { period, elapsed: 0 },
                        min_offset,
                        max_offset,
                        origin_x,
                        origin_y,
                        speed,
                    })
                },
                Err(e) => e == (if period == 0 {
                    SpawnerError::ZeroPeriod
                } else {
                    SpawnerError::EmptyRange
                }) && (period == 0 || min_offset > max_offset),
            },
    {
        if period == 0 {
            return Err(SpawnerError::ZeroPeriod);
        }
        if min_offset > max_offset {
            return Err(SpawnerError::EmptyRange);
        }
        Ok(Spawner {
            timer: RepeatingTimer::new(period),
            min_offset,
            max_offset,
            origin_x,
            origin_y,
            speed,
        })
    }

    /// The spawner of the level: one obstacle every three simulated seconds,
    /// offsets from -250 to 250.
    pub fn standard() -> (r: Spawner)
        ensures
            r.wf(),
            r.timer == (RepeatingTimer { period: SPAWN_PERIOD, elapsed: 0 }),
            r.min_offset == MIN_OFFSET,
            r.max_offset == MAX_OFFSET,
            r.origin_x == ORIGIN_X,
            r.origin_y == ORIGIN_Y,
            r.speed == OBSTACLE_SPEED,
    {
        Spawner {
            timer: RepeatingTimer::new(SPAWN_PERIOD),
            min_offset: MIN_OFFSET,
            max_offset: MAX_OFFSET,
            origin_x: ORIGIN_X,
            origin_y: ORIGIN_Y,
            speed: OBSTACLE_SPEED,
        }
    }

    /// Draws an offset at random from the configured range.
    pub fn draw_offset(&self) -> (r: i32)
        requires
            self.wf(),
        ensures
            self.admits(r),
    {
        draw_between(self.min_offset, self.max_offset)
    }
}

/// Relies on rand::thread_rng and rand::Rng::gen_range over an inclusive
/// range: the value drawn lies between the two bounds, both included.
#[verifier::external_body]
fn draw_between(lo: i32, hi: i32) -> (r: i32)
    requires
        lo <= hi,
    ensures
        lo <= r <= hi,
{
    rand::thread_rng().gen_range(lo..=hi)
}

} // verus!
