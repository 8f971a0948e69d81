use vstd::prelude::*;

verus! {

/// An opaque entity handle. Handles are never reused by a store.
#[derive(Clone, Copy, Debug, PartialEq, Eq, Structural)]
pub struct Entity(pub u64);

/// A two-dimensional integer vector.
#[derive(Clone, Copy, Debug, PartialEq, Eq, Structural)]
pub struct Vec2 {
    pub x: i64,
    pub y: i64,
}

/// A position in the world: `x` and `y` in the plane, `z` a depth used only
/// for drawing order, which movement never changes.
#[derive(Clone, Copy, Debug, PartialEq, Eq, Structural)]
pub struct Position {
    pub x: i64,
    pub y: i64,
    pub z: i64,
}

/// The axis-aligned extent used for overlap tests: `size` holds the
/// half-width and half-height of a rectangle centred on the entity's position.
#[derive(Clone, Copy, Debug, PartialEq, Eq, Structural)]
pub struct Intersect {
    pub size: Vec2,
}

/// Damage capacity left, and damage staged this tick but not yet subtracted.
#[derive(Clone, Copy, Debug, PartialEq, Eq, Structural)]
pub struct Health {
    pub current: i64,
    pub unapplied_damage: i64,
}

/// A zone that damages whatever target overlaps it, except the entity that it
/// ignores (typically its owner).
#[derive(Clone, Copy, Debug, PartialEq, Eq, Structural)]
pub struct DamageZone {
    pub damage: u32,
    pub ignore: Option<Entity>,
}

/// The impulse accumulated during the current tick.
#[derive(Clone, Copy, Debug, PartialEq, Eq, Structural)]
pub struct Velocity {
    pub v: Vec2,
}

/// Marks the player-controlled character.
#[derive(Clone, Copy, Debug, PartialEq, Eq, Structural)]
pub struct PlayerCharacter;

/// Marks the boss, which pursues the player at `speed`.
#[derive(Clone, Copy, Debug, PartialEq, Eq, Structural)]
pub struct Boss {
    pub speed: i64,
}

/// The player's weapon and the damage one swing deals to each target it touches.
#[derive(Clone, Copy, Debug, PartialEq, Eq, Structural)]
pub struct PlayerWeapon {
    pub damage: u32,
}

/// A health bar that shows the health of entity `id`.
#[derive(Clone, Copy, Debug, PartialEq, Eq, Structural)]
pub struct HealthMeter {
    pub id: Entity,
}

/// A one-shot countdown: `elapsed` grows with each tick up to `duration`.
#[derive(Clone, Copy, Debug, PartialEq, Eq, Structural)]
pub struct Timer {
    pub duration: u64,
    pub elapsed: u64,
}

/// Removes its entity once its timer has run out.
#[derive(Clone, Copy, Debug, PartialEq, Eq, Structural)]
pub struct DespawnerTimer {
    pub timer: Timer,
}

/// The elapsed time of a one-shot timer after `dt` more time has passed.
pub open spec fn advanced(duration: u64, elapsed: u64, dt: u64) -> int {
    if elapsed + dt >= duration { duration as int } else { elapsed + dt }
}

impl Timer {
    pub open spec fn wf(self) -> bool {
        self.elapsed <= self.duration
    }

    pub open spec fn is_finished(self) -> bool {
        self.elapsed >= self.duration
    }

    /// A timer of the given duration that has not started.
    pub fn new(duration: u64) -> (t: Timer)
        ensures
            t.duration == duration,
            t.elapsed == 0,
            t.wf(),
    {
        Timer { duration, elapsed: 0 }
    }

    /// Lets `dt` of time pass; the elapsed time stops at the duration.
    pub fn tick(&mut self, dt: u64)
        requires
            old(self).wf(),
        ensures
            final(self).duration == old(self).duration,
            final(self).elapsed == advanced(old(self).duration, old(self).elapsed, dt),
            final(self).wf(),
    {
        if dt >= self.duration - self.elapsed {
            self.elapsed = self.duration;
        } else {
            self.elapsed = self.elapsed + dt;
        }
    }

    /// Whether the whole duration has elapsed.
    pub fn finished(&self) -> (r: bool)
        ensures
            r == self.is_finished(),
    {
        self.elapsed >= self.duration
    }
}

/// The timer after each time step of `dts` in turn.
pub open spec fn run_timer(t: Timer, dts: Seq<u64>) -> Timer
    decreases dts.len(),
{
    if dts.len() == 0 {
        t
    } else {
        let p = run_timer(t, dts.drop_last());
        Timer { duration: p.duration, elapsed: advanced(p.duration, p.elapsed, dts.last()) as u64 }
    }
}

/// The total of the time steps `dts`.
pub open spec fn total_time(dts: Seq<u64>) -> int
    decreases dts.len(),
{
    if dts.len() == 0 { 0 } else { total_time(dts.drop_last()) + dts.last() }
}

/// A one-shot timer finishes exactly once the time that has passed reaches its
/// duration: after the steps `dts`, a fresh timer of duration `d` has elapsed
/// the smaller of `d` and the total, and is finished if and only if the total
/// is at least `d`.
pub proof fn lemma_timer_finishes(d: u64, dts: Seq<u64>)
    ensures
        run_timer(Timer { duration: d, elapsed: 0 }, dts).wf(),
        run_timer(Timer { duration: d, elapsed: 0 }, dts).duration == d,
        run_timer(Timer { duration: d, elapsed: 0 }, dts).elapsed == if total_time(dts) >= d {
            d as int
        } else {
            total_time(dts)
        },
        run_timer(Timer { duration: d, elapsed: 0 }, dts).is_finished() <==> total_time(dts) >= d,
    decreases dts.len(),
{
    if dts.len() > 0 {
        lemma_timer_finishes(d, dts.drop_last());
    }
}

impl DespawnerTimer {
    /// A despawner whose entity goes once `despawn_time` has elapsed.
    pub fn new(despawn_time: u64) -> (d: DespawnerTimer)
        ensures
            d.timer.duration == despawn_time,
            d.timer.elapsed == 0,
            d.timer.wf(),
    {
        DespawnerTimer { timer: Timer::new(despawn_time) }
    }
}

} // verus!
