use vstd::prelude::*;

use crate::components::{Entity, Health, Position};
use crate::events::IntersectEvent;
use crate::store::{
    lemma_lookup, lemma_same_frame, live, lookup, records_wf, sole_match, EntityRecord, Query,
    World,
};

verus! {

/// What stages damage from intersection events.
#[derive(Clone, Copy, Debug, PartialEq, Eq, Structural)]
pub enum Source {
    /// Every damage zone, acting on the targets that overlap it.
    Zones,
    /// One swing of the weapon `weapon`, dealing `damage` to each target it touches.
    Weapon { weapon: Entity, damage: u32 },
}

/// The damage that event `ev` stages on its target `ev.ab.1`.
pub open spec fn hit(recs: Seq<EntityRecord>, src: Source, ev: IntersectEvent) -> int {
    match src {
        Source::Zones => match (lookup(recs, ev.ab.0), lookup(recs, ev.ab.1)) {
            (Some(a), Some(b)) => {
                if a.zone is Some && a.intersect is Some && b.health is Some && b.intersect is Some
                    && a.zone->0.ignore != Some(b.id) {
                    a.zone->0.damage as int
                } else {
                    0
                }
            },
            _ => 0,
        },
        Source::Weapon { weapon, damage } => {
            if ev.ab.0 == weapon {
                match lookup(recs, ev.ab.1) {
                    Some(b) => if b.health is Some && b.player is None { damage as int } else { 0 },
                    None => 0,
                }
            } else {
                0
            }
        },
    }
}

/// The damage that the events `evs` stage on `t`, summed.
pub open spec fn staged_total(recs: Seq<EntityRecord>, src: Source, evs: Seq<IntersectEvent>, t: Entity) -> int
    decreases evs.len(),
{
    if evs.len() == 0 {
        0
    } else {
        staged_total(recs, src, evs.drop_last(), t) + if evs.last().ab.1 == t {
            hit(recs, src, evs.last())
        } else {
            0
        }
    }
}

/// `r` with its health replaced by `h`.
pub open spec fn with_health(r: EntityRecord, h: Health) -> EntityRecord {
    EntityRecord {
        id: r.id,
        parent: r.parent,
        position: r.position,
        velocity: r.velocity,
        intersect: r.intersect,
        health: Some(h),
        zone: r.zone,
        despawner: r.despawner,
        player: r.player,
        boss: r.boss,
        weapon: r.weapon,
        meter: r.meter,
    }
}

/// `x` held to the range of `i64`.
pub open spec fn clamp_i64(x: int) -> int {
    if x > i64::MAX { i64::MAX as int } else if x < i64::MIN { i64::MIN as int } else { x }
}

/// `r` after `amount` more damage is staged on it; unchanged without health.
/// Staged damage saturates at the largest `i64`.
pub open spec fn staged_record(r: EntityRecord, amount: int) -> EntityRecord {
    match r.health {
        Some(h) => with_health(
            r,
            Health {
                current: h.current,
                unapplied_damage: clamp_i64(h.unapplied_damage + amount) as i64,
            },
        ),
        None => r,
    }
}

/// Damage staged by events is never negative.
pub proof fn lemma_staged_nonneg(recs: Seq<EntityRecord>, src: Source, evs: Seq<IntersectEvent>, t: Entity)
    ensures
        staged_total(recs, src, evs, t) >= 0,
    decreases evs.len(),
{
    if evs.len() > 0 {
        lemma_staged_nonneg(recs, src, evs.drop_last(), t);
    }
}

/// Damage stacks: the damage that two batches of events stage on a target is
/// the sum of what each batch stages.
pub proof fn lemma_damage_stacks(
    recs: Seq<EntityRecord>,
    src: Source,
    a: Seq<IntersectEvent>,
    b: Seq<IntersectEvent>,
    t: Entity,
)
    ensures
        staged_total(recs, src, a + b, t) == staged_total(recs, src, a, t) + staged_total(recs, src, b, t),
    decreases b.len(),
{
    if b.len() == 0 {
        assert(a + b =~= a);
    } else {
        assert((a + b).drop_last() =~= a + b.drop_last());
        assert((a + b).last() == b.last());
        lemma_damage_stacks(recs, src, a, b.drop_last(), t);
    }
}

/// The damages of the zones `zs` (indices into `recs`), summed.
pub open spec fn zone_sum(recs: Seq<EntityRecord>, zs: Seq<int>) -> int
    decreases zs.len(),
{
    if zs.len() == 0 {
        0
    } else {
        zone_sum(recs, zs.drop_last()) + recs[zs.last()].zone->0.damage
    }
}

/// Damage from simultaneous zones stacks: when the events are one per zone of
/// `zs`, each zone acting on target `t` without ignoring it, the damage staged
/// on `t` is the sum of the zones' damages.
pub proof fn lemma_zone_damage_sums(
    recs: Seq<EntityRecord>,
    next_id: u64,
    t: int,
    zs: Seq<int>,
    evs: Seq<IntersectEvent>,
)
    requires
        records_wf(recs, next_id),
        0 <= t < recs.len(),
        recs[t].health is Some,
        recs[t].intersect is Some,
        evs.len() == zs.len(),
        forall|k: int| 0 <= k < zs.len() ==> {
            let z = #[trigger] zs[k];
            &&& 0 <= z < recs.len()
            &&& recs[z].zone is Some
            &&& recs[z].intersect is Some
            &&& recs[z].zone->0.ignore != Some(recs[t].id)
            &&& evs[k] == IntersectEvent { ab: (recs[z].id, recs[t].id) }
        },
    ensures
        staged_total(recs, Source::Zones, evs, recs[t].id) == zone_sum(recs, zs),
    decreases zs.len(),
{
    if zs.len() > 0 {
        let n = recs.len();
        assert forall|a: int, b: int| 0 <= a < b < n implies recs[a].id != recs[b].id by {
            assert(recs[a].id.0 < recs[b].id.0);
        }
        let k = zs.len() - 1;
        let z = zs[k];
        assert forall|m: int| 0 <= m < zs.drop_last().len() implies {
            let z2 = #[trigger] zs.drop_last()[m];
            &&& 0 <= z2 < recs.len()
            &&& recs[z2].zone is Some
            &&& recs[z2].intersect is Some
            &&& recs[z2].zone->0.ignore != Some(recs[t].id)
            &&& evs.drop_last()[m] == IntersectEvent { ab: (recs[z2].id, recs[t].id) }
        } by {
            assert(zs.drop_last()[m] == zs[m]);
        }
        lemma_zone_damage_sums(recs, next_id, t, zs.drop_last(), evs.drop_last());
        lemma_lookup(recs, recs[z].id);
        lemma_lookup(recs, recs[t].id);
        assert(evs.last() == evs[k]);
    }
}

/// Staged damage is applied exactly once: a target with nothing staged that has
/// `total` staged on it, where the result fits, loses exactly `total` health at
/// the commit, and a second commit changes nothing.
pub proof fn lemma_damage_applied_once(r: EntityRecord, total: int)
    requires
        r.health is Some,
        r.health->0.unapplied_damage == 0,
        0 <= total <= i64::MAX,
        r.health->0.current - total >= i64::MIN,
    ensures
        committed(staged_record(r, total)).health == Some(
            Health { current: (r.health->0.current - total) as i64, unapplied_damage: 0 },
        ),
        committed(committed(staged_record(r, total))) == committed(staged_record(r, total)),
{
}

/// Stages on each target the damage that the events hand to it from `src`.
fn stage_hits(world: &mut World, events: &Vec<IntersectEvent>, src: Source)
    requires
        old(world).wf(),
    ensures
        final(world).wf(),
        final(world).next_id == old(world).next_id,
        final(world).records@.len() == old(world).records@.len(),
        forall|i: int| 0 <= i < old(world).records@.len() ==> #[trigger] final(world).records@[i]
            == staged_record(old(world).records@[i], staged_total(old(world).records@, src, events@, old(world).records@[i].id)),
{
    let ghost old_recs = world.records@;
    let n = world.records.len();
    proof {
        assert forall|a: int, b: int| 0 <= a < b < n implies old_recs[a].id != old_recs[b].id by {
            assert(old_recs[a].id.0 < old_recs[b].id.0);
        }
    }
    let mut k: usize = 0;
    while k < events.len()
        invariant
            records_wf(old_recs, world.next_id),
            world.next_id == old(world).next_id,
            old_recs == old(world).records@,
            n == old_recs.len(),
            world.records@.len() == n,
            k <= events@.len(),
            forall|a: int, b: int| 0 <= a < b < n ==> old_recs[a].id != old_recs[b].id,
            forall|i: int| 0 <= i < n ==> #[trigger] world.records@[i]
                == staged_record(old_recs[i], staged_total(old_recs, src, events@.take(k as int), old_recs[i].id)),
        decreases events@.len() - k,
    {
        let ev = events[k];
        let ghost pre = world.records@;
        proof {
            assert(events@.take(k + 1).drop_last() =~= events@.take(k as int));
            assert(events@.take(k + 1).last() == ev);
            lemma_lookup(old_recs, ev.ab.0);
            lemma_lookup(old_recs, ev.ab.1);
            assert forall|i: int| 0 <= i < n implies pre[i].id == old_recs[i].id by {
                assert(pre[i] == staged_record(old_recs[i], staged_total(old_recs, src, events@.take(k as int), old_recs[i].id)));
            }
        }
        let amount: u32 = match src {
            Source::Zones => {
                match (world.find(ev.ab.0), world.find(ev.ab.1)) {
                    (Some(ia), Some(ib)) => {
                        let a = world.records[ia];
                        let b = world.records[ib];
                        proof {
                            assert(a == staged_record(old_recs[ia as int], staged_total(old_recs, src, events@.take(k as int), old_recs[ia as int].id)));
                            assert(b == staged_record(old_recs[ib as int], staged_total(old_recs, src, events@.take(k as int), old_recs[ib as int].id)));
                        }
                        match a.zone {
                            Some(z) => {
                                let ignored = match z.ignore {
                                    Some(g) => g == b.id,
                                    None => false,
                                };
                                if a.intersect.is_some() && b.health.is_some() && b.intersect.is_some() && !ignored {
                                    z.damage
                                } else {
                                    0
                                }
                            },
                            None => 0,
                        }
                    },
                    _ => {
                        proof {
                            if live(old_recs, ev.ab.0) {
                                let j = choose|j: int| 0 <= j < n && #[trigger] old_recs[j].id == ev.ab.0;
                                assert(pre[j].id == ev.ab.0);
                            }
                            if live(old_recs, ev.ab.1) {
                                let j = choose|j: int| 0 <= j < n && #[trigger] old_recs[j].id == ev.ab.1;
                                assert(pre[j].id == ev.ab.1);
                            }
                        }
                        0
                    },
                }
            },
            Source::Weapon { weapon, damage } => {
                if ev.ab.0 == weapon {
                    match world.find(ev.ab.1) {
                        Some(ib) => {
                            let b = world.records[ib];
                            proof {
                                assert(b == staged_record(old_recs[ib as int], staged_total(old_recs, src, events@.take(k as int), old_recs[ib as int].id)));
                            }
                            if b.health.is_some() && b.player.is_none() {
                                damage
                            } else {
                                0
                            }
                        },
                        None => {
                            proof {
                                if live(old_recs, ev.ab.1) {
                                    let j = choose|j: int| 0 <= j < n && #[trigger] old_recs[j].id == ev.ab.1;
                                    assert(pre[j].id == ev.ab.1);
                                }
                            }
                            0
                        },
                    }
                } else {
                    0
                }
            },
        };
        assert(amount == hit(old_recs, src, ev));
        if amount > 0 {
            match world.find(ev.ab.1) {
                Some(ib) => {
                    let mut r = world.records[ib];
                    match r.health {
                        Some(h) => {
                            let sum: i128 = h.unapplied_damage as i128 + amount as i128;
                            let u: i64 = if sum > i64::MAX as i128 { i64::MAX } else { sum as i64 };
                            r.health = Some(Health { current: h.current, unapplied_damage: u });
                            world.records.set(ib, r);
                        },
                        None => {},
                    }
                },
                None => {},
            }
        }
        proof {
            let tk = events@.take(k as int);
            let tk1 = events@.take(k + 1);
            assert forall|i: int| 0 <= i < n implies #[trigger] world.records@[i]
                == staged_record(old_recs[i], staged_total(old_recs, src, tk1, old_recs[i].id)) by {
                lemma_staged_nonneg(old_recs, src, tk, old_recs[i].id);
                assert(pre[i] == staged_record(old_recs[i], staged_total(old_recs, src, tk, old_recs[i].id)));
            }
        }
        k = k + 1;
    }
    proof {
        assert(events@.take(events@.len() as int) =~= events@);
        lemma_same_frame(old_recs, world.records@, world.next_id);
    }
}

/// `recs` with the damage of `evs` from `src` staged on every record.
pub open spec fn staged_all(recs: Seq<EntityRecord>, src: Source, evs: Seq<IntersectEvent>) -> Seq<EntityRecord> {
    Seq::new(recs.len(), |i: int| staged_record(recs[i], staged_total(recs, src, evs, recs[i].id)))
}

/// `recs` after one swing of the one weapon with a position against `evs`;
/// unchanged without exactly one such weapon.
pub open spec fn weapon_staged(recs: Seq<EntityRecord>, evs: Seq<IntersectEvent>) -> Seq<EntityRecord> {
    if exists|w: int| sole_match(recs, Query::WeaponPosition, w) {
        let w = choose|w: int| sole_match(recs, Query::WeaponPosition, w);
        staged_all(recs, Source::Weapon { weapon: recs[w].id, damage: recs[w].weapon->0.damage }, evs)
    } else {
        recs
    }
}

/// The position of the one weapon with a position, if exactly one exists.
pub open spec fn weapon_effect(recs: Seq<EntityRecord>) -> Option<Position> {
    if exists|w: int| sole_match(recs, Query::WeaponPosition, w) {
        let w = choose|w: int| sole_match(recs, Query::WeaponPosition, w);
        recs[w].position
    } else {
        None
    }
}

/// Stages, for every intersection event, the damage of the acting entity's
/// zone on the target: the zone must not ignore the target, and both must hold
/// an extent; the target must hold health. Damage from several zones adds up.
pub fn damage_zone_apply(world: &mut World, events: &Vec<IntersectEvent>)
    requires
        old(world).wf(),
    ensures
        final(world).wf(),
        final(world).next_id == old(world).next_id,
        final(world).records@.len() == old(world).records@.len(),
        forall|i: int| 0 <= i < old(world).records@.len() ==> #[trigger] final(world).records@[i]
            == staged_record(
                old(world).records@[i],
                staged_total(old(world).records@, Source::Zones, events@, old(world).records@[i].id),
            ),
        final(world).records@ == staged_all(old(world).records@, Source::Zones, events@),
{
    stage_hits(world, events, Source::Zones);
    assert(world.records@ =~= staged_all(old(world).records@, Source::Zones, events@));
}

/// One swing of the weapon, when exactly one weapon with a position exists:
/// stages the weapon's damage on every non-player target with health that an
/// event shows the weapon acting on, and returns the weapon's position for the
/// swing's effects. Without such a weapon nothing changes and `None` is returned.
pub fn player_weapon_attack(world: &mut World, events: &Vec<IntersectEvent>) -> (r: Option<Position>)
    requires
        old(world).wf(),
    ensures
        final(world).records@ == weapon_staged(old(world).records@, events@),
        r == weapon_effect(old(world).records@),
        final(world).wf(),
        final(world).next_id == old(world).next_id,
        final(world).records@.len() == old(world).records@.len(),
        forall|i: int| 0 <= i < old(world).records@.len() ==> (#[trigger] final(world).records@[i]).id
            == old(world).records@[i].id && (old(world).records@[i].health is None ==> final(world).records@[i]
            == old(world).records@[i]),
        (forall|i: int| !sole_match(old(world).records@, Query::WeaponPosition, i)) ==> {
            &&& r is None
            &&& final(world).records@ == old(world).records@
        },
        forall|w: int| sole_match(old(world).records@, Query::WeaponPosition, w) ==> {
            let rec = old(world).records@[w];
            let src = Source::Weapon { weapon: rec.id, damage: rec.weapon->0.damage };
            &&& r == rec.position
            &&& forall|i: int| 0 <= i < old(world).records@.len() ==> #[trigger] final(world).records@[i]
                == staged_record(old(world).records@[i], staged_total(old(world).records@, src, events@, old(world).records@[i].id))
        },
{
    match world.single(Query::WeaponPosition) {
        Some(w) => {
            let rec = world.records[w];
            let src = Source::Weapon { weapon: rec.id, damage: rec.weapon.unwrap().damage };
            stage_hits(world, events, src);
            proof {
                assert forall|w2: int| sole_match(old(world).records@, Query::WeaponPosition, w2) implies w2 == w by {}
                assert(sole_match(old(world).records@, Query::WeaponPosition, w as int));
                assert(world.records@ =~= staged_all(old(world).records@, src, events@));
            }
            rec.position
        },
        None => None,
    }
}

/// `r` after its staged damage is subtracted from its health, which saturates
/// at the range of `i64`, and the staged damage is cleared.
pub open spec fn committed(r: EntityRecord) -> EntityRecord {
    match r.health {
        Some(h) => with_health(
            r,
            Health { current: clamp_i64(h.current - h.unapplied_damage) as i64, unapplied_damage: 0 },
        ),
        None => r,
    }
}

/// `recs` with every record's staged damage committed.
pub open spec fn committed_all(recs: Seq<EntityRecord>) -> Seq<EntityRecord> {
    Seq::new(recs.len(), |i: int| committed(recs[i]))
}

/// Whether committing `r` shows a damage effect: it has a position and staged damage.
pub open spec fn shows_damage(r: EntityRecord) -> bool {
    r.health is Some && r.health->0.unapplied_damage != 0 && r.position is Some
}

/// The positions of the damage effects of the first `i` records.
pub open spec fn damage_effects(recs: Seq<EntityRecord>, i: int) -> Seq<Position>
    decreases i,
{
    if i <= 0 {
        Seq::empty()
    } else if shows_damage(recs[i - 1]) {
        damage_effects(recs, i - 1).push(recs[i - 1].position->0)
    } else {
        damage_effects(recs, i - 1)
    }
}

/// Commits the staged damage of every entity with health, and returns the
/// positions at which a damage effect shows, one per entity that had staged damage
/// and a position, in store order.
pub fn damage_apply(world: &mut World) -> (effects: Vec<Position>)
    requires
        old(world).wf(),
    ensures
        final(world).wf(),
        final(world).next_id == old(world).next_id,
        final(world).records@.len() == old(world).records@.len(),
        forall|i: int| 0 <= i < old(world).records@.len() ==>
            #[trigger] final(world).records@[i] == committed(old(world).records@[i]),
        effects@ == damage_effects(old(world).records@, old(world).records@.len() as int),
        final(world).records@ == committed_all(old(world).records@),
{
    let ghost old_recs = world.records@;
    let n = world.records.len();
    let mut effects: Vec<Position> = Vec::new();
    let mut i: usize = 0;
    while i < n
        invariant
            old_recs == old(world).records@,
            n == old_recs.len(),
            world.records@.len() == n,
            world.next_id == old(world).next_id,
            i <= n,
            forall|k: int| 0 <= k < i ==> #[trigger] world.records@[k] == committed(old_recs[k]),
            forall|k: int| i <= k < n ==> #[trigger] world.records@[k] == old_recs[k],
            effects@ == damage_effects(old_recs, i as int),
        decreases n - i,
    {
        let mut r = world.records[i];
        match r.health {
            Some(h) => {
                if h.unapplied_damage != 0 {
                    match r.position {
                        Some(p) => effects.push(p),
                        None => {},
                    }
                }
                let d: i128 = h.current as i128 - h.unapplied_damage as i128;
                let c: i64 = if d > i64::MAX as i128 {
                    i64::MAX
                } else if d < i64::MIN as i128 {
                    i64::MIN
                } else {
                    d as i64
                };
                r.health = Some(Health { current: c, unapplied_damage: 0 });
                world.records.set(i, r);
            },
            None => {},
        }
        i = i + 1;
    }
    proof {
        lemma_same_frame(old_recs, world.records@, world.next_id);
        assert(world.records@ =~= committed_all(old_recs));
    }
    effects
}

} // verus!
