use vstd::prelude::*;

use crate::components::{Position, Vec2, Velocity};
use crate::damage::clamp_i64;
use crate::store::{lemma_same_frame, sole_match, EntityRecord, Query, World};

verus! {

/// Half the side of the square world; positions are held within twice this
/// distance of the origin on each axis.
pub const BOUNDS: i64 = 170;

/// Speed that the movement keys add to the player each tick.
pub const WALK_SPEED: i64 = 120;

/// Impulse that a dash adds to the player.
pub const DASH_IMPULSE: i64 = 10000;

/// `x` held within the world's extent.
pub open spec fn clamp_bound(x: int) -> int {
    if x > 2 * BOUNDS { 2 * BOUNDS as int } else if x < -2 * BOUNDS { -2 * BOUNDS as int } else { x }
}

/// `r` with its position and velocity replaced.
pub open spec fn with_motion(r: EntityRecord, p: Option<Position>, v: Option<Velocity>) -> EntityRecord {
    EntityRecord {
        id: r.id,
        parent: r.parent,
        position: p,
        velocity: v,
        intersect: r.intersect,
        health: r.health,
        zone: r.zone,
        despawner: r.despawner,
        player: r.player,
        boss: r.boss,
        weapon: r.weapon,
        meter: r.meter,
    }
}

pub open spec fn zero_velocity() -> Velocity {
    Velocity { v: Vec2 { x: 0, y: 0 } }
}

/// `r` after one step of `dt`: its position, if any, moves by velocity times
/// `dt` and is held within the world on each axis, its depth kept; its
/// velocity is reset to zero. Without a velocity nothing changes.
pub open spec fn moved(r: EntityRecord, dt: u32) -> EntityRecord {
    match r.velocity {
        Some(v) => with_motion(
            r,
            match r.position {
                Some(p) => Some(
                    Position {
                        x: clamp_bound(p.x + v.v.x * dt) as i64,
                        y: clamp_bound(p.y + v.v.y * dt) as i64,
                        z: p.z,
                    },
                ),
                None => None,
            },
            Some(zero_velocity()),
        ),
        None => r,
    }
}

fn step_axis(p: i64, v: i64, dt: u32) -> (r: i64)
    ensures
        r == clamp_bound(p + v * dt),
{
    let dt128: i128 = dt as i128;
    proof {
        assert(-0x8000_0000_0000_0000 * 0x1_0000_0000 <= v * dt128 <= 0x7fff_ffff_ffff_ffff * 0x1_0000_0000)
            by (nonlinear_arith)
            requires
                -0x8000_0000_0000_0000 <= v <= 0x7fff_ffff_ffff_ffff,
                0 <= dt128 <= 0xffff_ffff,
        ;
    }
    let x: i128 = p as i128 + v as i128 * dt128;
    let bound: i128 = 2 * BOUNDS as i128;
    if x > bound {
        2 * BOUNDS
    } else if x < -bound {
        -2 * BOUNDS
    } else {
        x as i64
    }
}

/// Moves every entity with a velocity by velocity times `dt`, holds it within
/// the world, and resets its velocity to zero.
pub fn move_with_velocity(world: &mut World, dt: u32)
    requires
        old(world).wf(),
    ensures
        final(world).wf(),
        final(world).next_id == old(world).next_id,
        final(world).records@.len() == old(world).records@.len(),
        forall|i: int| 0 <= i < old(world).records@.len() ==>
            #[trigger] final(world).records@[i] == moved(old(world).records@[i], dt),
        final(world).records@ == moved_all(old(world).records@, dt),
{
    let ghost old_recs = world.records@;
    let n = world.records.len();
    let mut i: usize = 0;
    while i < n
        invariant
            old_recs == old(world).records@,
            n == old_recs.len(),
            world.records@.len() == n,
            world.next_id == old(world).next_id,
            i <= n,
            forall|k: int| 0 <= k < i ==> #[trigger] world.records@[k] == moved(old_recs[k], dt),
            forall|k: int| i <= k < n ==> #[trigger] world.records@[k] == old_recs[k],
        decreases n - i,
    {
        let mut r = world.records[i];
        match r.velocity {
            Some(v) => {
                match r.position {
                    Some(p) => {
                        let x = step_axis(p.x, v.v.x, dt);
                        let y = step_axis(p.y, v.v.y, dt);
                        r.position = Some(Position { x, y, z: p.z });
                    },
                    None => {},
                }
                r.velocity = Some(Velocity { v: Vec2 { x: 0, y: 0 } });
                world.records.set(i, r);
            },
            None => {},
        }
        i = i + 1;
    }
    proof {
        lemma_same_frame(old_recs, world.records@, world.next_id);
        assert(world.records@ =~= moved_all(old_recs, dt));
    }
}

/// The keys held this tick.
#[derive(Clone, Copy, Debug, PartialEq, Eq, Structural)]
pub struct KeyState {
    pub left: bool,
    pub right: bool,
    pub up: bool,
    pub down: bool,
}

/// The impulse that the held keys give at `amount` per key: right and up
/// positive, left and down negative.
pub open spec fn key_impulse(keys: KeyState, amount: int) -> (int, int) {
    (
        (if keys.right { amount } else { 0 }) - (if keys.left { amount } else { 0 }),
        (if keys.up { amount } else { 0 }) - (if keys.down { amount } else { 0 }),
    )
}

/// `r` with `(dx, dy)` added to its velocity, each axis saturating.
pub open spec fn pushed(r: EntityRecord, dx: int, dy: int) -> EntityRecord {
    match r.velocity {
        Some(v) => with_motion(
            r,
            r.position,
            Some(Velocity { v: Vec2 { x: clamp_i64(v.v.x + dx) as i64, y: clamp_i64(v.v.y + dy) as i64 } }),
        ),
        None => r,
    }
}

/// `recs` with record `i` pushed by `(dx, dy)`.
pub open spec fn pushed_at(recs: Seq<EntityRecord>, i: int, dx: int, dy: int) -> Seq<EntityRecord> {
    recs.update(i, pushed(recs[i], dx, dy))
}

/// `recs` after the walking or dash impulse of the held keys at `amount` is
/// added to the one player with a velocity; unchanged without exactly one.
pub open spec fn player_pushed(recs: Seq<EntityRecord>, keys: KeyState, amount: int) -> Seq<EntityRecord> {
    if exists|i: int| sole_match(recs, Query::PlayerMover, i) {
        let i = choose|i: int| sole_match(recs, Query::PlayerMover, i);
        pushed_at(recs, i, key_impulse(keys, amount).0, key_impulse(keys, amount).1)
    } else {
        recs
    }
}

/// `recs` with every record moved by one step of `dt`.
pub open spec fn moved_all(recs: Seq<EntityRecord>, dt: u32) -> Seq<EntityRecord> {
    Seq::new(recs.len(), |i: int| moved(recs[i], dt))
}

/// `b` differs from `a` in positions and velocities at most.
pub open spec fn motion_only(a: Seq<EntityRecord>, b: Seq<EntityRecord>) -> bool {
    &&& a.len() == b.len()
    &&& forall|i: int| 0 <= i < a.len() ==> with_motion(#[trigger] b[i], a[i].position, a[i].velocity) == a[i]
}

fn add_sat(a: i64, d: i128) -> (r: i64)
    requires
        -0x4000_0000_0000_0000_0000_0000_0000_0000 < d < 0x4000_0000_0000_0000_0000_0000_0000_0000,
    ensures
        r == clamp_i64(a + d),
{
    let s: i128 = a as i128 + d;
    if s > i64::MAX as i128 {
        i64::MAX
    } else if s < i64::MIN as i128 {
        i64::MIN
    } else {
        s as i64
    }
}

fn push_velocity(world: &mut World, i: usize, dx: i128, dy: i128)
    requires
        old(world).wf(),
        i < old(world).records@.len(),
        -0x4000_0000_0000_0000_0000_0000_0000_0000 < dx < 0x4000_0000_0000_0000_0000_0000_0000_0000,
        -0x4000_0000_0000_0000_0000_0000_0000_0000 < dy < 0x4000_0000_0000_0000_0000_0000_0000_0000,
    ensures
        final(world).wf(),
        final(world).next_id == old(world).next_id,
        final(world).records@ == pushed_at(old(world).records@, i as int, dx as int, dy as int),
        motion_only(old(world).records@, final(world).records@),
{
    let mut r = world.records[i];
    match r.velocity {
        Some(v) => {
            r.velocity = Some(Velocity { v: Vec2 { x: add_sat(v.v.x, dx), y: add_sat(v.v.y, dy) } });
            world.records.set(i, r);
        },
        None => {},
    }
    proof {
        assert(world.records@ =~= pushed_at(old(world).records@, i as int, dx as int, dy as int));
        lemma_same_frame(old(world).records@, world.records@, world.next_id);
    }
}

fn impulse_axis(pos: bool, neg: bool, amount: i64) -> (r: i128)
    requires
        0 <= amount,
    ensures
        r == (if pos { amount as int } else { 0 }) - (if neg { amount as int } else { 0 }),
{
    let a: i128 = amount as i128;
    let p: i128 = if pos { a } else { 0 };
    let n: i128 = if neg { a } else { 0 };
    p - n
}

fn push_player(world: &mut World, keys: KeyState, amount: i64)
    requires
        old(world).wf(),
        0 <= amount,
    ensures
        final(world).wf(),
        final(world).next_id == old(world).next_id,
        (forall|i: int| !sole_match(old(world).records@, Query::PlayerMover, i)) ==> final(world).records@
            == old(world).records@,
        forall|i: int| sole_match(old(world).records@, Query::PlayerMover, i) ==> final(world).records@
            == pushed_at(old(world).records@, i, key_impulse(keys, amount as int).0, key_impulse(keys, amount as int).1),
        final(world).records@ == player_pushed(old(world).records@, keys, amount as int),
        motion_only(old(world).records@, final(world).records@),
{
    match world.single(Query::PlayerMover) {
        Some(i) => {
            let dx = impulse_axis(keys.right, keys.left, amount);
            let dy = impulse_axis(keys.up, keys.down, amount);
            push_velocity(world, i, dx, dy);
            proof {
                assert forall|j: int| sole_match(old(world).records@, Query::PlayerMover, j) implies j == i by {}
                assert(sole_match(old(world).records@, Query::PlayerMover, i as int));
            }
        },
        None => {},
    }
    proof {
        let o = old(world).records@;
        let f = world.records@;
        if f == o {
            assert forall|i: int| 0 <= i < o.len() implies with_motion(#[trigger] f[i], o[i].position, o[i].velocity) == o[i] by {}
        }
    }
}

/// Adds the walking impulse of the held keys to the player's velocity, when
/// exactly one player with a velocity exists; otherwise nothing changes.
pub fn player_char_controls(world: &mut World, keys: KeyState)
    requires
        old(world).wf(),
    ensures
        final(world).wf(),
        final(world).next_id == old(world).next_id,
        (forall|i: int| !sole_match(old(world).records@, Query::PlayerMover, i)) ==> final(world).records@
            == old(world).records@,
        forall|i: int| sole_match(old(world).records@, Query::PlayerMover, i) ==> final(world).records@
            == pushed_at(old(world).records@, i, key_impulse(keys, WALK_SPEED as int).0, key_impulse(keys, WALK_SPEED as int).1),
        final(world).records@ == player_pushed(old(world).records@, keys, WALK_SPEED as int),
        motion_only(old(world).records@, final(world).records@),
{
    push_player(world, keys, WALK_SPEED);
}

/// Adds the dash impulse in the direction of the held keys to the player's
/// velocity, when exactly one player with a velocity exists; otherwise nothing changes.
pub fn player_dash_ability(world: &mut World, keys: KeyState)
    requires
        old(world).wf(),
    ensures
        final(world).wf(),
        final(world).next_id == old(world).next_id,
        (forall|i: int| !sole_match(old(world).records@, Query::PlayerMover, i)) ==> final(world).records@
            == old(world).records@,
        forall|i: int| sole_match(old(world).records@, Query::PlayerMover, i) ==> final(world).records@
            == pushed_at(old(world).records@, i, key_impulse(keys, DASH_IMPULSE as int).0, key_impulse(keys, DASH_IMPULSE as int).1),
        final(world).records@ == player_pushed(old(world).records@, keys, DASH_IMPULSE as int),
        motion_only(old(world).records@, final(world).records@),
{
    push_player(world, keys, DASH_IMPULSE);
}

/// `r` is the integer square root of `n`.
pub open spec fn is_root(n: int, r: int) -> bool {
    0 <= r && r * r <= n < (r + 1) * (r + 1)
}

/// The integer square root of `n`.
pub open spec fn root(n: int) -> int {
    choose|r: int| is_root(n, r)
}

/// `a / b` rounded toward zero, for positive `b`.
pub open spec fn div_trunc(a: int, b: int) -> int {
    if a >= 0 { a / b } else { -((-a) / b) }
}

/// Largest offset, on each axis, for which the pursuit impulse is computed.
pub const PURSUIT_REACH: i128 = 0x4000_0000_0000_0000;

/// Whether the offset `(dx, dy)` is within the pursuit's reach.
pub open spec fn within_reach(dx: int, dy: int) -> bool {
    -PURSUIT_REACH < dx < PURSUIT_REACH && -PURSUIT_REACH < dy < PURSUIT_REACH
}

/// The pursuit impulse toward an offset `(dx, dy)` at `speed`: speed times the
/// offset divided by its length, the length being the integer square root of
/// `dx² + dy²`, each axis rounded toward zero. No offset gives no impulse.
pub open spec fn pursuit(dx: int, dy: int, speed: int) -> (int, int) {
    if dx == 0 && dy == 0 {
        (0, 0)
    } else {
        let len = root(dx * dx + dy * dy);
        (div_trunc(speed * dx, len), div_trunc(speed * dy, len))
    }
}

proof fn lemma_root_unique(n: int, a: int, b: int)
    requires
        is_root(n, a),
        is_root(n, b),
    ensures
        a == b,
{
    if a < b {
        assert((a + 1) * (a + 1) <= b * b) by (nonlinear_arith)
            requires
                0 <= a + 1 <= b,
        ;
    } else if b < a {
        assert((b + 1) * (b + 1) <= a * a) by (nonlinear_arith)
            requires
                0 <= b + 1 <= a,
        ;
    }
}

fn isqrt(n: u128) -> (r: u128)
    requires
        n < 0x4000_0000_0000_0000_0000_0000_0000_0000,
    ensures
        is_root(n as int, r as int),
        r as int == root(n as int),
{
    let mut lo: u128 = 0;
    let mut hi: u128 = 0x8000_0000_0000_0000;
    assert(hi * hi == 0x4000_0000_0000_0000_0000_0000_0000_0000) by (nonlinear_arith)
        requires
            hi == 0x8000_0000_0000_0000,
    ;
    while hi - lo > 1
        invariant
            lo < hi <= 0x8000_0000_0000_0000,
            lo * lo <= n,
            n < hi * hi,
        decreases hi - lo,
    {
        let mid = lo + (hi - lo) / 2;
        assert(mid * mid <= 0x4000_0000_0000_0000_0000_0000_0000_0000) by (nonlinear_arith)
            requires
                mid <= 0x8000_0000_0000_0000,
        ;
        if mid * mid <= n {
            lo = mid;
        } else {
            hi = mid;
        }
    }
    proof {
        assert(is_root(n as int, lo as int));
        lemma_root_unique(n as int, lo as int, root(n as int));
    }
    lo
}

proof fn lemma_div_bound(a: int, b: int)
    requires
        b >= 1,
    ensures
        -a <= div_trunc(a, b) <= a || a <= div_trunc(a, b) <= -a,
{
    if a >= 0 {
        assert(0 <= a / b <= a) by (nonlinear_arith)
            requires
                a >= 0,
                b >= 1,
        ;
    } else {
        assert(0 <= (-a) / b <= -a) by (nonlinear_arith)
            requires
                -a >= 0,
                b >= 1,
        ;
    }
}

fn div_toward_zero(a: i128, b: u128) -> (q: i128)
    requires
        b >= 1,
        -0x4000_0000_0000_0000_0000_0000_0000_0000 < a < 0x4000_0000_0000_0000_0000_0000_0000_0000,
    ensures
        q == div_trunc(a as int, b as int),
{
    proof {
        lemma_div_bound(a as int, b as int);
    }
    if a >= 0 {
        ((a as u128) / b) as i128
    } else {
        let m: u128 = (-a) as u128;
        -((m / b) as i128)
    }
}

/// The pursuit impulse from `from` toward `to` at `speed`, when the offset is
/// within reach.
fn pursuit_impulse(from: Position, to: Position, speed: i64) -> (r: (i128, i128))
    requires
        within_reach(to.x - from.x, to.y - from.y),
    ensures
        r.0 == pursuit(to.x - from.x, to.y - from.y, speed as int).0,
        r.1 == pursuit(to.x - from.x, to.y - from.y, speed as int).1,
        -0x4000_0000_0000_0000_0000_0000_0000_0000 < r.0 < 0x4000_0000_0000_0000_0000_0000_0000_0000,
        -0x4000_0000_0000_0000_0000_0000_0000_0000 < r.1 < 0x4000_0000_0000_0000_0000_0000_0000_0000,
{
    let dx: i128 = to.x as i128 - from.x as i128;
    let dy: i128 = to.y as i128 - from.y as i128;
    if dx == 0 && dy == 0 {
        return (0, 0);
    }
    let s: i128 = speed as i128;
    proof {
        assert(0 <= dx * dx < 0x1000_0000_0000_0000_0000_0000_0000_0000) by (nonlinear_arith)
            requires
                -0x4000_0000_0000_0000 < dx < 0x4000_0000_0000_0000,
        ;
        assert(0 <= dy * dy < 0x1000_0000_0000_0000_0000_0000_0000_0000) by (nonlinear_arith)
            requires
                -0x4000_0000_0000_0000 < dy < 0x4000_0000_0000_0000,
        ;
        assert(-0x2000_0000_0000_0000_0000_0000_0000_0000 < s * dx < 0x2000_0000_0000_0000_0000_0000_0000_0000)
            by (nonlinear_arith)
            requires
                -0x4000_0000_0000_0000 < dx < 0x4000_0000_0000_0000,
                -0x8000_0000_0000_0000 <= s < 0x8000_0000_0000_0000,
        ;
        assert(-0x2000_0000_0000_0000_0000_0000_0000_0000 < s * dy < 0x2000_0000_0000_0000_0000_0000_0000_0000)
            by (nonlinear_arith)
            requires
                -0x4000_0000_0000_0000 < dy < 0x4000_0000_0000_0000,
                -0x8000_0000_0000_0000 <= s < 0x8000_0000_0000_0000,
        ;
        assert(dx * dx + dy * dy >= 1) by (nonlinear_arith)
            requires
                dx != 0 || dy != 0,
        ;
    }
    let n: u128 = (dx * dx + dy * dy) as u128;
    let len = isqrt(n);
    proof {
        let l = len as int;
        let m = n as int;
        assert(l >= 1) by (nonlinear_arith)
            requires
                m < (l + 1) * (l + 1),
                m >= 1,
                l >= 0,
        ;
    }
    (div_toward_zero(s * dx, len), div_toward_zero(s * dy, len))
}

/// `recs` after the boss turns toward the player: when exactly one boss with a
/// velocity and a position and exactly one player with a position exist, and
/// the player lies within reach, the pursuit impulse at the boss's speed is
/// added to the boss's velocity. Otherwise unchanged.
pub open spec fn boss_pursued(recs: Seq<EntityRecord>) -> Seq<EntityRecord> {
    if exists|b: int, p: int| sole_match(recs, Query::BossMover, b) && sole_match(recs, Query::PlayerPosition, p) {
        let (b, p) = choose|b: int, p: int|
            sole_match(recs, Query::BossMover, b) && sole_match(recs, Query::PlayerPosition, p);
        let bp = recs[b].position->0;
        let pp = recs[p].position->0;
        if within_reach(pp.x - bp.x, pp.y - bp.y) {
            let imp = pursuit(pp.x - bp.x, pp.y - bp.y, recs[b].boss->0.speed as int);
            pushed_at(recs, b, imp.0, imp.1)
        } else {
            recs
        }
    } else {
        recs
    }
}

/// Turns the boss toward the player: when exactly one boss with a velocity and
/// a position and exactly one player with a position exist, adds to the boss's
/// velocity its speed times the unit direction toward the player, in whole
/// units (see `pursuit`). An offset beyond `PURSUIT_REACH` on an axis, or a
/// missing boss or player, leaves everything unchanged.
pub fn boss_movement(world: &mut World)
    requires
        old(world).wf(),
    ensures
        final(world).wf(),
        final(world).next_id == old(world).next_id,
        final(world).records@ == boss_pursued(old(world).records@),
        motion_only(old(world).records@, final(world).records@),
{
    match (world.single(Query::BossMover), world.single(Query::PlayerPosition)) {
        (Some(b), Some(p)) => {
            proof {
                assert forall|j: int| sole_match(old(world).records@, Query::BossMover, j) implies j == b by {}
                assert forall|j: int| sole_match(old(world).records@, Query::PlayerPosition, j) implies j == p by {}
                assert(sole_match(old(world).records@, Query::BossMover, b as int)
                    && sole_match(old(world).records@, Query::PlayerPosition, p as int));
            }
            let boss = world.records[b];
            let player = world.records[p];
            let bp = boss.position.unwrap();
            let pp = player.position.unwrap();
            let speed = boss.boss.unwrap().speed;
            let dx: i128 = pp.x as i128 - bp.x as i128;
            let dy: i128 = pp.y as i128 - bp.y as i128;
            if -PURSUIT_REACH < dx && dx < PURSUIT_REACH && -PURSUIT_REACH < dy && dy < PURSUIT_REACH {
                let imp = pursuit_impulse(bp, pp, speed);
                push_velocity(world, b, imp.0, imp.1);
            }
        },
        _ => {},
    }
    proof {
        let o = old(world).records@;
        let f = world.records@;
        if f == o {
            assert forall|i: int| 0 <= i < o.len() implies with_motion(#[trigger] f[i], o[i].position, o[i].velocity) == o[i] by {}
        }
    }
}

/// One step of `dt` applied to a record whose velocity is `v` and position `p`
/// inside the world moves it by exactly `v * dt` and leaves its velocity zero.
pub proof fn lemma_step_inside_bounds(r: EntityRecord, dt: u32)
    requires
        r.velocity is Some,
        r.position is Some,
        -2 * BOUNDS <= r.position->0.x + r.velocity->0.v.x * dt <= 2 * BOUNDS,
        -2 * BOUNDS <= r.position->0.y + r.velocity->0.v.y * dt <= 2 * BOUNDS,
    ensures
        moved(r, dt).position->0.x == r.position->0.x + r.velocity->0.v.x * dt,
        moved(r, dt).position->0.y == r.position->0.y + r.velocity->0.v.y * dt,
        moved(r, dt).position->0.z == r.position->0.z,
        moved(r, dt).velocity == Some(zero_velocity()),
{
}

} // verus!
