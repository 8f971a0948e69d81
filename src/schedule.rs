use vstd::prelude::*;

use crate::components::{Entity, Position, Vec2};
use crate::damage::{damage_apply, damage_zone_apply, player_weapon_attack};
use crate::despawn::{
    all_removed, apply_despawns, boss_death, collect_doomed, despawn_by_timer, doomed, health_meter,
    lemma_dead_removed,
    player_death, Doom,
};
use crate::events::{EventChannel, IntersectEvent, ShakeEvent};
use crate::intersect::check_intersect;
use crate::movement::{boss_movement, move_with_velocity, player_char_controls, player_dash_ability, KeyState};
use crate::store::{after_removal, holds_record, live, records_wf, EntityRecord, World};
use crate::damage::{committed_all, damage_effects, staged_all, weapon_effect, weapon_staged, Source};
use crate::despawn::{boss_defeated, doomed_ids, player_fallen, timers_ticked};
use crate::intersect::all_events;
use crate::movement::{boss_pursued, moved_all, player_pushed, with_motion, DASH_IMPULSE, WALK_SPEED};

verus! {

/// The phases of a tick, in the order in which they run.
#[derive(Clone, Copy, Debug, PartialEq, Eq, Structural)]
pub enum GameSet {
    Check,
    CommandsAction,
    SingleAction,
    ContinousAction,
    Apply,
    Despawn,
}

pub open spec fn phase_rank(s: GameSet) -> int {
    match s {
        GameSet::Check => 0,
        GameSet::CommandsAction => 1,
        GameSet::SingleAction => 2,
        GameSet::ContinousAction => 3,
        GameSet::Apply => 4,
        GameSet::Despawn => 5,
    }
}

impl GameSet {
    /// The position of the phase within a tick, from 0 for Check to 5 for Despawn.
    pub fn rank(&self) -> (r: u8)
        ensures
            r as int == phase_rank(*self),
    {
        match self {
            GameSet::Check => 0,
            GameSet::CommandsAction => 1,
            GameSet::SingleAction => 2,
            GameSet::ContinousAction => 3,
            GameSet::Apply => 4,
            GameSet::Despawn => 5,
        }
    }

    /// The phase that follows this one within a tick; none follows Despawn.
    pub fn next(&self) -> (r: Option<GameSet>)
        ensures
            match r {
                Some(n) => phase_rank(n) == phase_rank(*self) + 1,
                None => *self == GameSet::Despawn,
            },
    {
        match self {
            GameSet::Check => Some(GameSet::CommandsAction),
            GameSet::CommandsAction => Some(GameSet::SingleAction),
            GameSet::SingleAction => Some(GameSet::ContinousAction),
            GameSet::ContinousAction => Some(GameSet::Apply),
            GameSet::Apply => Some(GameSet::Despawn),
            GameSet::Despawn => None,
        }
    }
}

/// What the outside world hands to one tick: the time step, the held keys,
/// and the input edges of this tick.
#[derive(Clone, Copy, Debug, PartialEq, Eq, Structural)]
pub struct TickInput {
    pub dt: u32,
    pub keys: KeyState,
    pub attack_pressed: bool,
    pub dash_pressed: bool,
}

/// How the game stands after a tick.
#[derive(Clone, Copy, Debug, PartialEq, Eq, Structural)]
pub enum Outcome {
    Playing,
    /// The boss has died.
    Won,
    /// The player has died.
    Lost,
}

/// What a tick hands back for presentation.
pub struct TickReport {
    /// Where the weapon swing's effect shows, if the weapon swung.
    pub attack_effect: Option<Position>,
    /// Where damage effects show, one per entity that took damage.
    pub damage_effects: Vec<Position>,
    /// The camera shakes requested this tick.
    pub shakes: Vec<ShakeEvent>,
    pub outcome: Outcome,
}

/// Intensity of the camera shake that a weapon swing requests.
pub const SWING_SHAKE: u32 = 1;

/// A record at rest between ticks: no staged damage and no velocity left over.
pub open spec fn settled(r: EntityRecord) -> bool {
    &&& r.health is Some ==> r.health->0.unapplied_damage == 0
    &&& r.velocity is Some ==> r.velocity->0.v == Vec2 { x: 0, y: 0 }
}

/// A record that nothing in a tick removes: it has no owner, health, despawn
/// timer or health meter, and is not a weapon.
pub open spec fn plain(r: EntityRecord) -> bool {
    &&& r.parent is None
    &&& r.health is None
    &&& r.despawner is None
    &&& r.meter is None
    &&& r.weapon is None
}

/// Every plain record of `old` is still alive, and plain, in `cur`.
pub open spec fn kept_plain(old: Seq<EntityRecord>, cur: Seq<EntityRecord>) -> bool {
    forall|i: int| 0 <= i < old.len() && plain(#[trigger] old[i]) ==>
        exists|j: int| 0 <= j < cur.len() && cur[j].id == old[i].id && plain(cur[j])
}

/// `b` changes `a` record by record, keeping handles and plain records plain.
pub open spec fn step_keeps_plain(a: Seq<EntityRecord>, b: Seq<EntityRecord>) -> bool {
    &&& a.len() == b.len()
    &&& forall|j: int| 0 <= j < a.len() ==> (#[trigger] b[j]).id == a[j].id && (plain(a[j]) ==> plain(b[j]))
}

/// Every handle of `ids` belongs to a record of `recs` that is not plain.
pub open spec fn unplain_handles(recs: Seq<EntityRecord>, ids: Seq<Entity>) -> bool {
    forall|m: int| 0 <= m < ids.len() ==> unplain_handle(recs, #[trigger] ids[m])
}

/// Some record of `recs` that is not plain has the handle `e`.
pub open spec fn unplain_handle(recs: Seq<EntityRecord>, e: Entity) -> bool {
    exists|j: int| 0 <= j < recs.len() && recs[j].id == e && !plain(recs[j])
}

proof fn lemma_step_keeps_plain(o: Seq<EntityRecord>, a: Seq<EntityRecord>, b: Seq<EntityRecord>)
    requires
        kept_plain(o, a),
        step_keeps_plain(a, b),
    ensures
        kept_plain(o, b),
{
    assert forall|i: int| 0 <= i < o.len() && plain(#[trigger] o[i]) implies
        exists|j: int| 0 <= j < b.len() && b[j].id == o[i].id && plain(b[j]) by {
        let j = choose|j: int| 0 <= j < a.len() && a[j].id == o[i].id && plain(a[j]);
        assert(b[j].id == a[j].id);
    }
}

proof fn lemma_removal_keeps_plain(o: Seq<EntityRecord>, a: Seq<EntityRecord>, b: Seq<EntityRecord>, ids: Seq<Entity>, next_id: u64)
    requires
        records_wf(a, next_id),
        kept_plain(o, a),
        unplain_handles(a, ids),
        forall|i: int| 0 <= i < a.len() && (#[trigger] a[i]).parent is None && !ids.contains(a[i].id)
            ==> holds_record(b, a[i]),
    ensures
        kept_plain(o, b),
{
    assert forall|i: int| 0 <= i < o.len() && plain(#[trigger] o[i]) implies
        exists|j: int| 0 <= j < b.len() && b[j].id == o[i].id && plain(b[j]) by {
        let j = choose|j: int| 0 <= j < a.len() && a[j].id == o[i].id && plain(a[j]);
        if ids.contains(a[j].id) {
            let m = choose|m: int| 0 <= m < ids.len() && ids[m] == a[j].id;
            assert(unplain_handle(a, ids[m]));
            let j2 = choose|j2: int| 0 <= j2 < a.len() && a[j2].id == ids[m] && !plain(a[j2]);
            if j < j2 {
                assert(a[j].id.0 < a[j2].id.0);
            } else if j2 < j {
                assert(a[j2].id.0 < a[j].id.0);
            }
        }
        assert(holds_record(b, a[j]));
        let k = choose|k: int| 0 <= k < b.len() && b[k] == a[j];
        assert(b[k].id == o[i].id);
    }
}

/// The intersection events that a tick reads: those still waiting in the
/// channel, or else the ones that detection finds in `recs`.
pub open spec fn tick_events(recs: Seq<EntityRecord>, pending: Seq<IntersectEvent>) -> Seq<IntersectEvent> {
    if pending.len() > 0 { pending } else { all_events(recs) }
}

/// `recs` without the health meters whose tracked entity is gone or has no health.
pub open spec fn stale_removed(recs: Seq<EntityRecord>) -> Seq<EntityRecord> {
    after_removal(recs, doomed_ids(recs, recs.len() as int, Doom::StaleMeter))
}

/// The world after CommandsAction and the barrier.
pub open spec fn commands_records(recs: Seq<EntityRecord>, evs: Seq<IntersectEvent>, attack: bool) -> Seq<EntityRecord> {
    if attack { weapon_staged(stale_removed(recs), evs) } else { stale_removed(recs) }
}

/// The world after SingleAction and ContinousAction.
pub open spec fn actions_records(recs: Seq<EntityRecord>, input: TickInput) -> Seq<EntityRecord> {
    let dashed = if input.dash_pressed { player_pushed(recs, input.keys, DASH_IMPULSE as int) } else { recs };
    boss_pursued(player_pushed(dashed, input.keys, WALK_SPEED as int))
}

/// The world after Apply.
pub open spec fn apply_records(recs: Seq<EntityRecord>, evs: Seq<IntersectEvent>, dt: u32) -> Seq<EntityRecord> {
    moved_all(committed_all(staged_all(recs, Source::Zones, evs)), dt)
}

/// The world after the timers advance by `dt` and the expired entities go.
pub open spec fn expired_records(recs: Seq<EntityRecord>, dt: u64) -> Seq<EntityRecord> {
    let t = timers_ticked(recs, dt);
    after_removal(t, doomed_ids(t, t.len() as int, Doom::Expired))
}

/// The handles that the player's and the boss's deaths remove.
pub open spec fn fallen_ids(recs: Seq<EntityRecord>) -> Seq<Entity> {
    player_fallen(recs) + match boss_defeated(recs) {
        Some(b) => seq![b],
        None => Seq::empty(),
    }
}

/// The game's outcome given the world at the deaths check.
pub open spec fn outcome_of(recs: Seq<EntityRecord>) -> Outcome {
    if player_fallen(recs).len() > 0 {
        Outcome::Lost
    } else if boss_defeated(recs) is Some {
        Outcome::Won
    } else {
        Outcome::Playing
    }
}

/// The world after the deaths are removed.
pub open spec fn deaths_records(recs: Seq<EntityRecord>) -> Seq<EntityRecord> {
    after_removal(recs, fallen_ids(recs))
}

/// The world after every entity with health at or below zero is removed.
pub open spec fn dead_records(recs: Seq<EntityRecord>) -> Seq<EntityRecord> {
    after_removal(recs, doomed_ids(recs, recs.len() as int, Doom::Dead))
}

/// Where the damage effects of Apply show, for the world `recs` at its start.
pub open spec fn apply_effects(recs: Seq<EntityRecord>, evs: Seq<IntersectEvent>) -> Seq<Position> {
    let st = staged_all(recs, Source::Zones, evs);
    damage_effects(st, st.len() as int)
}

/// The world at the start of Apply.
pub open spec fn before_apply(recs: Seq<EntityRecord>, pending: Seq<IntersectEvent>, input: TickInput) -> Seq<EntityRecord> {
    let evs = tick_events(recs, pending);
    actions_records(commands_records(recs, evs, input.attack_pressed), input)
}

/// The world at the start of Despawn.
pub open spec fn before_despawn(recs: Seq<EntityRecord>, pending: Seq<IntersectEvent>, input: TickInput) -> Seq<EntityRecord> {
    apply_records(before_apply(recs, pending, input), tick_events(recs, pending), input.dt)
}

/// The world after a whole tick, phase by phase.
pub open spec fn tick_records(recs: Seq<EntityRecord>, pending: Seq<IntersectEvent>, input: TickInput) -> Seq<EntityRecord> {
    dead_records(deaths_records(expired_records(before_despawn(recs, pending, input), input.dt as u64)))
}

/// Every handle of `cur` was alive in `old`.
pub open spec fn handles_within(old: Seq<EntityRecord>, cur: Seq<EntityRecord>) -> bool {
    forall|j: int| 0 <= j < cur.len() ==> live(old, (#[trigger] cur[j]).id)
}

proof fn lemma_handles_step(o: Seq<EntityRecord>, a: Seq<EntityRecord>, b: Seq<EntityRecord>)
    requires
        handles_within(o, a),
        step_keeps_plain(a, b),
    ensures
        handles_within(o, b),
{
    assert forall|j: int| 0 <= j < b.len() implies live(o, (#[trigger] b[j]).id) by {
        assert(b[j].id == a[j].id);
        assert(live(o, a[j].id));
    }
}

proof fn lemma_handles_removal(o: Seq<EntityRecord>, a: Seq<EntityRecord>, b: Seq<EntityRecord>, ids: Seq<Entity>)
    requires
        handles_within(o, a),
        all_removed(a, b, ids),
    ensures
        handles_within(o, b),
{
    assert forall|j: int| 0 <= j < b.len() implies live(o, (#[trigger] b[j]).id) by {
        assert(holds_record(a, b[j]));
        let k = choose|k: int| 0 <= k < a.len() && a[k] == b[j];
        assert(live(o, a[k].id));
    }
}

proof fn lemma_handles_refl(a: Seq<EntityRecord>)
    ensures
        handles_within(a, a),
{
    assert forall|j: int| 0 <= j < a.len() implies live(a, (#[trigger] a[j]).id) by {}
}

proof fn lemma_handles_trans(o: Seq<EntityRecord>, a: Seq<EntityRecord>, b: Seq<EntityRecord>)
    requires
        handles_within(o, a),
        handles_within(a, b),
    ensures
        handles_within(o, b),
{
    assert forall|j: int| 0 <= j < b.len() implies live(o, (#[trigger] b[j]).id) by {
        assert(live(a, b[j].id));
        let k = choose|k: int| 0 <= k < a.len() && #[trigger] a[k].id == b[j].id;
        assert(live(o, a[k].id));
    }
}

proof fn lemma_kept_plain_trans(o: Seq<EntityRecord>, a: Seq<EntityRecord>, b: Seq<EntityRecord>)
    requires
        kept_plain(o, a),
        kept_plain(a, b),
    ensures
        kept_plain(o, b),
{
    assert forall|i: int| 0 <= i < o.len() && plain(#[trigger] o[i]) implies
        exists|j: int| 0 <= j < b.len() && b[j].id == o[i].id && plain(b[j]) by {
        let j = choose|j: int| 0 <= j < a.len() && a[j].id == o[i].id && plain(a[j]);
        assert(plain(a[j]));
    }
}

proof fn lemma_kept_plain_refl(a: Seq<EntityRecord>)
    ensures
        kept_plain(a, a),
{
    assert forall|i: int| 0 <= i < a.len() && plain(#[trigger] a[i]) implies
        exists|j: int| 0 <= j < a.len() && a[j].id == a[i].id && plain(a[j]) by {}
}

proof fn lemma_removal_keeps_settled(a: Seq<EntityRecord>, b: Seq<EntityRecord>, ids: Seq<Entity>)
    requires
        all_removed(a, b, ids),
        forall|j: int| 0 <= j < a.len() ==> settled(#[trigger] a[j]),
    ensures
        forall|j: int| 0 <= j < b.len() ==> settled(#[trigger] b[j]),
{
    assert forall|j: int| 0 <= j < b.len() implies settled(#[trigger] b[j]) by {
        assert(holds_record(a, b[j]));
        let k = choose|k: int| 0 <= k < a.len() && a[k] == b[j];
        assert(settled(a[k]));
    }
}

/// Removes the entities of `ids`, none of which is plain.
fn remove_unplain(world: &mut World, ids: &Vec<Entity>)
    requires
        old(world).wf(),
        unplain_handles(old(world).records@, ids@),
    ensures
        final(world).wf(),
        final(world).next_id == old(world).next_id,
        kept_plain(old(world).records@, final(world).records@),
        all_removed(old(world).records@, final(world).records@, ids@),
        final(world).records@ == after_removal(old(world).records@, ids@),
{
    let ghost s0 = world.records@;
    apply_despawns(world, ids);
    proof {
        lemma_kept_plain_refl(s0);
        lemma_removal_keeps_plain(s0, s0, world.records@, ids@, world.next_id);
    }
}

/// Every handle doomed for `k` belongs to a record that is not plain.
proof fn lemma_doomed_unplain(recs: Seq<EntityRecord>, ids: Seq<Entity>, k: Doom)
    requires
        forall|m: int| 0 <= m < ids.len() ==> crate::despawn::doomed_handle(recs, #[trigger] ids[m], k),
    ensures
        unplain_handles(recs, ids),
{
    assert forall|m: int| 0 <= m < ids.len() implies
        unplain_handle(recs, #[trigger] ids[m]) by {
        assert(crate::despawn::doomed_handle(recs, ids[m], k));
        let j = choose|j: int| 0 <= j < recs.len() && recs[j].id == ids[m] && doomed(recs, recs[j], k);
        assert(!plain(recs[j]));
    }
}

proof fn lemma_timers_step(s0: Seq<EntityRecord>, s1: Seq<EntityRecord>, dt: u64)
    requires
        s0.len() == s1.len(),
        forall|j: int| 0 <= j < s0.len() ==> #[trigger] s1[j] == crate::despawn::timer_ticked(s0[j], dt),
        forall|j: int| 0 <= j < s0.len() ==> settled(#[trigger] s0[j]),
    ensures
        forall|j: int| 0 <= j < s1.len() ==> settled(#[trigger] s1[j]),
        step_keeps_plain(s0, s1),
{
    assert forall|j: int| 0 <= j < s1.len() implies settled(#[trigger] s1[j]) by {
        assert(s1[j] == crate::despawn::timer_ticked(s0[j], dt));
        assert(settled(s0[j]));
    }
    assert forall|j: int| 0 <= j < s0.len() implies (#[trigger] s1[j]).id == s0[j].id
        && (plain(s0[j]) ==> plain(s1[j])) by {
        assert(s1[j] == crate::despawn::timer_ticked(s0[j], dt));
    }
}

/// The weapon swing of CommandsAction, when `attack` is set: stages the swing
/// against `channel`'s intersection events and requests a camera shake.
fn swing(world: &mut World, channel: &mut EventChannel, attack: bool) -> (r: Option<Position>)
    requires
        old(world).wf(),
    ensures
        final(world).wf(),
        final(world).next_id == old(world).next_id,
        step_keeps_plain(old(world).records@, final(world).records@),
        final(channel).intersect@ == old(channel).intersect@,
        final(world).records@ == if attack {
            weapon_staged(old(world).records@, old(channel).intersect@)
        } else {
            old(world).records@
        },
        r == if attack { weapon_effect(old(world).records@) } else { None },
        final(channel).shake@ == old(channel).shake@ + if r is Some {
            seq![ShakeEvent { intensity: SWING_SHAKE }]
        } else {
            Seq::empty()
        },
{
    let mut attack_effect: Option<Position> = None;
    if attack {
        match player_weapon_attack(world, &channel.intersect) {
            Some(p) => {
                attack_effect = Some(p);
                channel.shake.push(ShakeEvent { intensity: SWING_SHAKE });
            },
            None => {},
        }
    }
    proof {
        assert(channel.shake@ =~= old(channel).shake@ + if attack_effect is Some {
            seq![ShakeEvent { intensity: SWING_SHAKE }]
        } else {
            Seq::<ShakeEvent>::empty()
        });
    }
    attack_effect
}

/// CommandsAction and the barrier after it: removes the health meters whose
/// tracked entity is gone or has no health, and, when `attack` is set, swings
/// the weapon against the waiting intersection events and requests a camera
/// shake. Returns where the swing's effect shows.
#[verifier::rlimit(100)]
fn commands_phase(world: &mut World, channel: &mut EventChannel, attack: bool) -> (r: Option<Position>)
    requires
        old(world).wf(),
    ensures
        final(world).wf(),
        final(world).next_id == old(world).next_id,
        kept_plain(old(world).records@, final(world).records@),
        handles_within(old(world).records@, final(world).records@),
        final(channel).intersect@ == old(channel).intersect@,
        final(world).records@ == commands_records(old(world).records@, old(channel).intersect@, attack),
        r == if attack { weapon_effect(stale_removed(old(world).records@)) } else { None },
        final(channel).shake@ == old(channel).shake@ + if r is Some {
            seq![ShakeEvent { intensity: SWING_SHAKE }]
        } else {
            Seq::empty()
        },
{
    let ghost s0 = world.records@;
    let stale = health_meter(world);
    proof {
        lemma_doomed_unplain(s0, stale@, Doom::StaleMeter);
    }
    remove_unplain(world, &stale);
    let ghost s1 = world.records@;
    proof {
        lemma_handles_refl(s0);
        lemma_handles_removal(s0, s0, s1, stale@);
    }
    assert(s1 == stale_removed(s0));
    let r = swing(world, channel, attack);
    proof {
        lemma_step_keeps_plain(s0, s1, world.records@);
        lemma_handles_step(s0, s1, world.records@);
    }
    r
}

/// SingleAction and ContinousAction: the dash on its input edge, then walking
/// and the boss's pursuit.
fn action_phases(world: &mut World, input: TickInput)
    requires
        old(world).wf(),
    ensures
        final(world).wf(),
        final(world).next_id == old(world).next_id,
        step_keeps_plain(old(world).records@, final(world).records@),
        final(world).records@ == actions_records(old(world).records@, input),
{
    let ghost s0 = world.records@;
    if input.dash_pressed {
        player_dash_ability(world, input.keys);
    }
    let ghost s1 = world.records@;
    proof {
        if !input.dash_pressed {
            assert forall|i: int| 0 <= i < s0.len() implies with_motion(#[trigger] s1[i], s0[i].position, s0[i].velocity) == s0[i] by {}
        }
    }
    player_char_controls(world, input.keys);
    let ghost s2 = world.records@;
    boss_movement(world);
    proof {
        let s3 = world.records@;
        assert forall|j: int| 0 <= j < s0.len() implies (#[trigger] s3[j]).id == s0[j].id
            && (plain(s0[j]) ==> plain(s3[j])) by {
            assert(with_motion(s1[j], s0[j].position, s0[j].velocity) == s0[j]);
            assert(with_motion(s2[j], s1[j].position, s1[j].velocity) == s1[j]);
            assert(with_motion(s3[j], s2[j].position, s2[j].velocity) == s2[j]);
        }
    }
}

/// Apply: stages zone damage from the intersection events, commits all staged
/// damage, then moves. Returns where damage effects show.
fn apply_phase(world: &mut World, events: &Vec<IntersectEvent>, dt: u32) -> (effects: Vec<Position>)
    requires
        old(world).wf(),
    ensures
        final(world).wf(),
        final(world).next_id == old(world).next_id,
        step_keeps_plain(old(world).records@, final(world).records@),
        forall|j: int| 0 <= j < final(world).records@.len() ==> settled(#[trigger] final(world).records@[j]),
        final(world).records@ == apply_records(old(world).records@, events@, dt),
        effects@ == apply_effects(old(world).records@, events@),
{
    let ghost s0 = world.records@;
    damage_zone_apply(world, events);
    let ghost s1 = world.records@;
    let effects = damage_apply(world);
    let ghost s2 = world.records@;
    move_with_velocity(world, dt);
    proof {
        let s3 = world.records@;
        assert forall|j: int| 0 <= j < s3.len() implies settled(#[trigger] s3[j]) by {
            assert(s3[j] == crate::movement::moved(s2[j], dt));
        }
        assert forall|j: int| 0 <= j < s0.len() implies (#[trigger] s3[j]).id == s0[j].id
            && (plain(s0[j]) ==> plain(s3[j])) by {
            assert(s1[j] == crate::damage::staged_record(s0[j], crate::damage::staged_total(s0, crate::damage::Source::Zones, events@, s0[j].id)));
            assert(s2[j] == crate::damage::committed(s1[j]));
            assert(s3[j] == crate::movement::moved(s2[j], dt));
        }
    }
    effects
}

/// The first part of Despawn: advances the despawn timers and removes the
/// entities whose timer ran out.
#[verifier::rlimit(50)]
fn expire_phase(world: &mut World, dt: u64)
    requires
        old(world).wf(),
        forall|j: int| 0 <= j < old(world).records@.len() ==> settled(#[trigger] old(world).records@[j]),
    ensures
        final(world).wf(),
        final(world).next_id == old(world).next_id,
        kept_plain(old(world).records@, final(world).records@),
        forall|j: int| 0 <= j < final(world).records@.len() ==> settled(#[trigger] final(world).records@[j]),
        final(world).records@ == expired_records(old(world).records@, dt),
        handles_within(old(world).records@, final(world).records@),
{
    let ghost s0 = world.records@;
    let expired = despawn_by_timer(world, dt);
    let ghost s1 = world.records@;
    proof {
        lemma_timers_step(s0, s1, dt);
        lemma_kept_plain_refl(s0);
        lemma_step_keeps_plain(s0, s0, s1);
        crate::despawn::lemma_collected_handles(s1, expired@, Doom::Expired);
        lemma_doomed_unplain(s1, expired@, Doom::Expired);
    }
    remove_unplain(world, &expired);
    proof {
        lemma_kept_plain_trans(s0, s1, world.records@);
        lemma_removal_keeps_settled(s1, world.records@, expired@);
        lemma_handles_refl(s0);
        lemma_handles_step(s0, s0, s1);
        lemma_handles_removal(s0, s1, world.records@, expired@);
    }
}

/// The deaths of Despawn: detects the player's and the boss's death and
/// removes them, with the weapon when the player died.
fn deaths_phase(world: &mut World) -> (outcome: Outcome)
    requires
        old(world).wf(),
        forall|j: int| 0 <= j < old(world).records@.len() ==> settled(#[trigger] old(world).records@[j]),
    ensures
        final(world).wf(),
        final(world).next_id == old(world).next_id,
        kept_plain(old(world).records@, final(world).records@),
        forall|j: int| 0 <= j < final(world).records@.len() ==> settled(#[trigger] final(world).records@[j]),
        final(world).records@ == deaths_records(old(world).records@),
        outcome == outcome_of(old(world).records@),
        handles_within(old(world).records@, final(world).records@),
{
    let ghost s0 = world.records@;
    let mut outcome = Outcome::Playing;
    let fallen = player_death(world);
    let boss_fallen = boss_death(world);
    if fallen.len() > 0 {
        outcome = Outcome::Lost;
    } else if boss_fallen.is_some() {
        outcome = Outcome::Won;
    }
    let mut deaths: Vec<Entity> = fallen;
    match boss_fallen {
        Some(b) => deaths.push(b),
        None => {},
    }
    proof {
        assert forall|m: int| 0 <= m < deaths@.len() implies
            unplain_handle(s0, #[trigger] deaths@[m]) by {
            if m < fallen@.len() {
                assert(deaths@[m] == fallen@[m]);
                let i = choose|i: int| crate::store::sole_match(s0, crate::store::Query::PlayerHealth, i)
                    && s0[i].health->0.current <= 0;
                if m == 1 {
                    let w = choose|w: int| crate::store::sole_match(s0, crate::store::Query::Weapon, w);
                    assert(fallen@ == seq![s0[i].id, s0[w].id]);
                }
            } else {
                let i = choose|i: int| crate::store::sole_match(s0, crate::store::Query::BossHealth, i)
                    && s0[i].health->0.current <= 0;
            }
        }
    }
    proof {
        assert(deaths@ =~= fallen_ids(s0));
    }
    remove_unplain(world, &deaths);
    proof {
        lemma_removal_keeps_settled(s0, world.records@, deaths@);
        lemma_handles_refl(s0);
        lemma_handles_removal(s0, s0, world.records@, deaths@);
    }
    outcome
}

/// The end of Despawn: removes every entity whose health is at or below zero.
fn dead_phase(world: &mut World)
    requires
        old(world).wf(),
        forall|j: int| 0 <= j < old(world).records@.len() ==> settled(#[trigger] old(world).records@[j]),
    ensures
        final(world).wf(),
        final(world).next_id == old(world).next_id,
        kept_plain(old(world).records@, final(world).records@),
        forall|j: int| 0 <= j < final(world).records@.len() ==> settled(#[trigger] final(world).records@[j]),
        forall|j: int| 0 <= j < final(world).records@.len() ==>
            !doomed(final(world).records@, #[trigger] final(world).records@[j], Doom::Dead),
        final(world).records@ == dead_records(old(world).records@),
        handles_within(old(world).records@, final(world).records@),
{
    let ghost s0 = world.records@;
    let dead = collect_doomed(world, Doom::Dead);
    proof {
        lemma_doomed_unplain(s0, dead@, Doom::Dead);
    }
    remove_unplain(world, &dead);
    proof {
        lemma_removal_keeps_settled(s0, world.records@, dead@);
        lemma_handles_refl(s0);
        lemma_handles_removal(s0, s0, world.records@, dead@);
        lemma_dead_removed(s0, world.records@, world.next_id);
    }
}

/// Runs one tick: Check, CommandsAction, the barrier that commits removals,
/// SingleAction, ContinousAction, Apply and Despawn, in that order; then
/// clears the event channel. Afterwards no entity has staged damage or
/// velocity left, and none has health at or below zero. The resulting world is
/// exactly the phases' spec functions applied in order (`tick_records`), reading
/// the events still waiting in the channel or else those detected this tick.
/// Every handle afterwards was alive before, and an entity without owner,
/// health, despawn timer or health meter that is not a weapon stays alive.
pub fn run_tick(world: &mut World, channel: &mut EventChannel, input: TickInput) -> (report: TickReport)
    requires
        old(world).wf(),
    ensures
        final(world).wf(),
        final(channel).intersect@.len() == 0,
        final(channel).shake@.len() == 0,
        forall|j: int| 0 <= j < final(world).records@.len() ==> settled(#[trigger] final(world).records@[j]),
        forall|j: int| 0 <= j < final(world).records@.len() ==>
            !doomed(final(world).records@, #[trigger] final(world).records@[j], Doom::Dead),
        final(world).next_id == old(world).next_id,
        kept_plain(old(world).records@, final(world).records@),
        final(world).records@ == tick_records(old(world).records@, old(channel).intersect@, input),
        handles_within(old(world).records@, final(world).records@),
        report.attack_effect == if input.attack_pressed {
            weapon_effect(stale_removed(old(world).records@))
        } else {
            None
        },
        report.damage_effects@ == apply_effects(
            before_apply(old(world).records@, old(channel).intersect@, input),
            tick_events(old(world).records@, old(channel).intersect@),
        ),
        report.outcome == outcome_of(
            expired_records(before_despawn(old(world).records@, old(channel).intersect@, input), input.dt as u64),
        ),
        report.shakes@ == old(channel).shake@ + if report.attack_effect is Some {
            seq![ShakeEvent { intensity: SWING_SHAKE }]
        } else {
            Seq::empty()
        },
{
    let ghost s0 = world.records@;
    // Check: fresh intersection events, unless some are still unread.
    if channel.intersect_empty() {
        channel.intersect = check_intersect(world);
    }
    // CommandsAction, then the barrier.
    let attack_effect = commands_phase(world, channel, input.attack_pressed);
    let ghost s1 = world.records@;
    // SingleAction, then ContinousAction.
    action_phases(world, input);
    let ghost s2 = world.records@;
    // Apply.
    let damage_effects = apply_phase(world, &channel.intersect, input.dt);
    let ghost s3 = world.records@;
    // Despawn: expired timers, then deaths, then everything without health left.
    expire_phase(world, input.dt as u64);
    let ghost s4 = world.records@;
    let outcome = deaths_phase(world);
    let ghost s5 = world.records@;
    dead_phase(world);
    proof {
        lemma_kept_plain_refl(s1);
        lemma_step_keeps_plain(s1, s1, s2);
        lemma_step_keeps_plain(s1, s2, s3);
        lemma_kept_plain_trans(s0, s1, s3);
        lemma_kept_plain_trans(s0, s3, s4);
        lemma_kept_plain_trans(s0, s4, s5);
        lemma_kept_plain_trans(s0, s5, world.records@);
        lemma_handles_refl(s1);
        lemma_handles_step(s1, s1, s2);
        lemma_handles_step(s1, s2, s3);
        lemma_handles_trans(s0, s1, s3);
        lemma_handles_trans(s0, s3, s4);
        lemma_handles_trans(s0, s4, s5);
        lemma_handles_trans(s0, s5, world.records@);
    }
    // Event bookkeeping: this tick's events are dropped.
    let mut shakes: Vec<ShakeEvent> = Vec::new();
    let mut k: usize = 0;
    while k < channel.shake.len()
        invariant
            k <= channel.shake@.len(),
            shakes@ == channel.shake@.take(k as int),
        decreases channel.shake@.len() - k,
    {
        shakes.push(channel.shake[k]);
        k = k + 1;
        assert(shakes@ =~= channel.shake@.take(k as int));
    }
    assert(shakes@ =~= channel.shake@);
    channel.clear();
    TickReport { attack_effect, damage_effects, shakes, outcome }
}

/// No velocity carries over between ticks: an impulse added during a tick to a
/// record at rest leaves exactly that impulse as its velocity.
pub proof fn lemma_no_carryover(r: EntityRecord, dx: int, dy: int)
    requires
        settled(r),
        r.velocity is Some,
        i64::MIN <= dx <= i64::MAX,
        i64::MIN <= dy <= i64::MAX,
    ensures
        crate::movement::pushed(r, dx, dy).velocity->0.v == (Vec2 { x: dx as i64, y: dy as i64 }),
{
}

} // verus!
