use vstd::prelude::*;

use crate::components::{advanced, DespawnerTimer, Entity, Timer};
use crate::store::{
    after_removal, holds_record, lemma_lookup, removed_recursively, lemma_same_frame, live, lookup, records_wf, sole_match, EntityRecord,
    Query, World,
};

verus! {

/// Why an entity is to be removed.
#[derive(Clone, Copy, Debug, PartialEq, Eq, Structural)]
pub enum Doom {
    /// Its despawn timer has finished.
    Expired,
    /// Its health is at or below zero.
    Dead,
    /// It is a health meter whose tracked entity is gone or has no health.
    StaleMeter,
}

pub open spec fn doomed(recs: Seq<EntityRecord>, r: EntityRecord, k: Doom) -> bool {
    match k {
        Doom::Expired => r.despawner is Some && r.despawner->0.timer.is_finished(),
        Doom::Dead => r.health is Some && r.health->0.current <= 0,
        Doom::StaleMeter => r.meter is Some && match lookup(recs, r.meter->0.id) {
            Some(t) => t.health is None,
            None => true,
        },
    }
}

/// The handles of the first `i` records that are doomed for `k`, in store order.
pub open spec fn doomed_ids(recs: Seq<EntityRecord>, i: int, k: Doom) -> Seq<Entity>
    decreases i,
{
    if i <= 0 {
        Seq::empty()
    } else if doomed(recs, recs[i - 1], k) {
        doomed_ids(recs, i - 1, k).push(recs[i - 1].id)
    } else {
        doomed_ids(recs, i - 1, k)
    }
}

proof fn lemma_doomed_ids_contains(recs: Seq<EntityRecord>, i: int, k: Doom, j: int)
    requires
        0 <= j < i <= recs.len(),
        doomed(recs, recs[j], k),
    ensures
        doomed_ids(recs, i, k).contains(recs[j].id),
    decreases i,
{
    let s = doomed_ids(recs, i - 1, k);
    if j == i - 1 {
        assert(s.push(recs[j].id)[s.len() as int] == recs[j].id);
    } else {
        lemma_doomed_ids_contains(recs, i - 1, k, j);
        let m = choose|m: int| 0 <= m < s.len() && s[m] == recs[j].id;
        if doomed(recs, recs[i - 1], k) {
            assert(s.push(recs[i - 1].id)[m] == recs[j].id);
        }
    }
}

/// Some record with handle `e` is doomed for `k`.
pub open spec fn doomed_handle(recs: Seq<EntityRecord>, e: Entity, k: Doom) -> bool {
    exists|j: int| 0 <= j < recs.len() && recs[j].id == e && doomed(recs, recs[j], k)
}

proof fn lemma_doomed_ids_sound(recs: Seq<EntityRecord>, i: int, k: Doom)
    requires
        0 <= i <= recs.len(),
    ensures
        forall|m: int| 0 <= m < doomed_ids(recs, i, k).len() ==> doomed_handle(recs, #[trigger] doomed_ids(recs, i, k)[m], k),
    decreases i,
{
    if i > 0 {
        lemma_doomed_ids_sound(recs, i - 1, k);
        let s = doomed_ids(recs, i - 1, k);
        if doomed(recs, recs[i - 1], k) {
            assert forall|m: int| 0 <= m < s.push(recs[i - 1].id).len() implies doomed_handle(recs, #[trigger] s.push(recs[i - 1].id)[m], k) by {
                if m < s.len() {
                    assert(s.push(recs[i - 1].id)[m] == s[m]);
                }
            }
        }
    }
}

/// The handles of the entities doomed for `k`, in store order.
pub fn collect_doomed(world: &World, k: Doom) -> (ids: Vec<Entity>)
    requires
        world.wf(),
    ensures
        ids@ == doomed_ids(world.records@, world.records@.len() as int, k),
        forall|m: int| 0 <= m < ids@.len() ==> doomed_handle(world.records@, #[trigger] ids@[m], k),
        forall|j: int| 0 <= j < world.records@.len() && doomed(world.records@, #[trigger] world.records@[j], k)
            ==> ids@.contains(world.records@[j].id),
{
    let ghost recs = world.records@;
    let n = world.records.len();
    proof {
        assert forall|a: int, b: int| 0 <= a < b < n implies recs[a].id != recs[b].id by {
            assert(recs[a].id.0 < recs[b].id.0);
        }
    }
    let mut ids: Vec<Entity> = Vec::new();
    let mut i: usize = 0;
    while i < n
        invariant
            recs == world.records@,
            n == recs.len(),
            i <= n,
            forall|a: int, b: int| 0 <= a < b < n ==> recs[a].id != recs[b].id,
            ids@ == doomed_ids(recs, i as int, k),
        decreases n - i,
    {
        let r = world.records[i];
        let hit = match k {
            Doom::Expired => match r.despawner {
                Some(d) => d.timer.finished(),
                None => false,
            },
            Doom::Dead => match r.health {
                Some(h) => h.current <= 0,
                None => false,
            },
            Doom::StaleMeter => match r.meter {
                Some(m) => {
                    proof {
                        lemma_lookup(recs, m.id);
                    }
                    match world.find(m.id) {
                        Some(t) => world.records[t].health.is_none(),
                        None => true,
                    }
                },
                None => false,
            },
        };
        if hit {
            ids.push(r.id);
        }
        i = i + 1;
    }
    proof {
        assert forall|j: int| 0 <= j < n && doomed(recs, #[trigger] recs[j], k) implies ids@.contains(recs[j].id) by {
            lemma_doomed_ids_contains(recs, n as int, k, j);
        }
        lemma_doomed_ids_sound(recs, n as int, k);
    }
    ids
}

/// `r` with its despawn timer, if any, advanced by `dt`.
pub open spec fn timer_ticked(r: EntityRecord, dt: u64) -> EntityRecord {
    match r.despawner {
        Some(d) => EntityRecord {
            despawner: Some(
                DespawnerTimer {
                    timer: Timer {
                        duration: d.timer.duration,
                        elapsed: advanced(d.timer.duration, d.timer.elapsed, dt) as u64,
                    },
                },
            ),
            ..r
        },
        None => r,
    }
}

/// The health meters to remove: those whose tracked entity is gone or has no
/// health, in store order.
pub fn health_meter(world: &World) -> (ids: Vec<Entity>)
    requires
        world.wf(),
    ensures
        ids@ == doomed_ids(world.records@, world.records@.len() as int, Doom::StaleMeter),
        forall|m: int| 0 <= m < ids@.len() ==> doomed_handle(world.records@, #[trigger] ids@[m], Doom::StaleMeter),
{
    collect_doomed(world, Doom::StaleMeter)
}

/// Every handle of a collected list belongs to a doomed record.
pub proof fn lemma_collected_handles(recs: Seq<EntityRecord>, ids: Seq<Entity>, k: Doom)
    requires
        ids == doomed_ids(recs, recs.len() as int, k),
    ensures
        forall|m: int| 0 <= m < ids.len() ==> doomed_handle(recs, #[trigger] ids[m], k),
{
    lemma_doomed_ids_sound(recs, recs.len() as int, k);
}

/// `recs` with every despawn timer advanced by `dt`.
pub open spec fn timers_ticked(recs: Seq<EntityRecord>, dt: u64) -> Seq<EntityRecord> {
    Seq::new(recs.len(), |i: int| timer_ticked(recs[i], dt))
}

/// Advances every despawn timer by `dt`, and returns the handles of the
/// entities whose timer has then finished, in store order.
pub fn despawn_by_timer(world: &mut World, dt: u64) -> (ids: Vec<Entity>)
    requires
        old(world).wf(),
    ensures
        final(world).wf(),
        final(world).next_id == old(world).next_id,
        final(world).records@.len() == old(world).records@.len(),
        forall|i: int| 0 <= i < old(world).records@.len() ==>
            #[trigger] final(world).records@[i] == timer_ticked(old(world).records@[i], dt),
        ids@ == doomed_ids(final(world).records@, final(world).records@.len() as int, Doom::Expired),
        final(world).records@ == timers_ticked(old(world).records@, dt),
{
    let ghost old_recs = world.records@;
    let n = world.records.len();
    let mut i: usize = 0;
    while i < n
        invariant
            old_recs == old(world).records@,
            records_wf(old_recs, world.next_id),
            n == old_recs.len(),
            world.records@.len() == n,
            world.next_id == old(world).next_id,
            i <= n,
            forall|k: int| 0 <= k < i ==> #[trigger] world.records@[k] == timer_ticked(old_recs[k], dt),
            forall|k: int| i <= k < n ==> #[trigger] world.records@[k] == old_recs[k],
        decreases n - i,
    {
        let mut r = world.records[i];
        match r.despawner {
            Some(d) => {
                let mut t = d.timer;
                t.tick(dt);
                r.despawner = Some(DespawnerTimer { timer: t });
                world.records.set(i, r);
            },
            None => {},
        }
        i = i + 1;
    }
    proof {
        lemma_same_frame(old_recs, world.records@, world.next_id);
        assert(world.records@ =~= timers_ticked(old_recs, dt));
    }
    collect_doomed(world, Doom::Expired)
}

/// Every handle in `ids` is gone, and what is left was there before.
pub open spec fn all_removed(old: Seq<EntityRecord>, new: Seq<EntityRecord>, ids: Seq<Entity>) -> bool {
    &&& forall|k: int| 0 <= k < ids.len() ==> !live(new, #[trigger] ids[k])
    &&& forall|j: int| 0 <= j < new.len() ==> holds_record(old, #[trigger] new[j])
}

/// Removes each entity of `ids`, with everything it owns.
pub fn apply_despawns(world: &mut World, ids: &Vec<Entity>)
    requires
        old(world).wf(),
    ensures
        final(world).wf(),
        final(world).next_id == old(world).next_id,
        final(world).records@ == after_removal(old(world).records@, ids@),
        removed_recursively(old(world).records@, final(world).records@, ids@),
        all_removed(old(world).records@, final(world).records@, ids@),
        forall|i: int| 0 <= i < old(world).records@.len() && (#[trigger] old(world).records@[i]).parent is None
            && !ids@.contains(old(world).records@[i].id) ==> holds_record(final(world).records@, old(world).records@[i]),
{
    world.despawn_all(ids);
}

/// The handle of the boss when it alone is the boss with health and its health
/// is at or below zero.
pub open spec fn boss_defeated(recs: Seq<EntityRecord>) -> Option<Entity> {
    if exists|i: int| sole_match(recs, Query::BossHealth, i) && recs[i].health->0.current <= 0 {
        let i = choose|i: int| sole_match(recs, Query::BossHealth, i) && recs[i].health->0.current <= 0;
        Some(recs[i].id)
    } else {
        None
    }
}

/// Detects the boss's death: the handle of the one boss with health when that
/// health is at or below zero, else `None`.
pub fn boss_death(world: &World) -> (r: Option<Entity>)
    ensures
        r == boss_defeated(world.records@),
{
    match world.single(Query::BossHealth) {
        Some(i) => {
            let h = world.records[i].health.unwrap();
            proof {
                assert forall|j: int| sole_match(world.records@, Query::BossHealth, j) implies j == i as int by {}
            }
            if h.current <= 0 {
                Some(world.records[i].id)
            } else {
                None
            }
        },
        None => None,
    }
}

/// What the player's death removes: when the one player with health has health
/// at or below zero, that player, then the one weapon if exactly one exists.
pub open spec fn player_fallen(recs: Seq<EntityRecord>) -> Seq<Entity> {
    if exists|i: int| sole_match(recs, Query::PlayerHealth, i) && recs[i].health->0.current <= 0 {
        let i = choose|i: int| sole_match(recs, Query::PlayerHealth, i) && recs[i].health->0.current <= 0;
        if exists|w: int| sole_match(recs, Query::Weapon, w) {
            let w = choose|w: int| sole_match(recs, Query::Weapon, w);
            seq![recs[i].id, recs[w].id]
        } else {
            seq![recs[i].id]
        }
    } else {
        Seq::empty()
    }
}

/// Detects the player's death: when the one player with health has health at
/// or below zero, the handles to remove: the player, then the weapon if there
/// is exactly one. Otherwise nothing.
pub fn player_death(world: &World) -> (ids: Vec<Entity>)
    ensures
        ids@ == player_fallen(world.records@),
        (forall|i: int| !(sole_match(world.records@, Query::PlayerHealth, i)
            && world.records@[i].health->0.current <= 0)) ==> ids@.len() == 0,
        forall|i: int| sole_match(world.records@, Query::PlayerHealth, i) && world.records@[i].health->0.current <= 0
            ==> {
            &&& ids@.len() >= 1
            &&& ids@[0] == world.records@[i].id
            &&& (forall|w: int| sole_match(world.records@, Query::Weapon, w) ==>
                ids@ == seq![world.records@[i].id, world.records@[w].id])
            &&& ((forall|w: int| !sole_match(world.records@, Query::Weapon, w)) ==> ids@ == seq![world.records@[i].id])
        },
{
    let mut ids: Vec<Entity> = Vec::new();
    match world.single(Query::PlayerHealth) {
        Some(i) => {
            proof {
                assert forall|j: int| sole_match(world.records@, Query::PlayerHealth, j) implies j == i as int by {}
            }
            if world.records[i].health.unwrap().current <= 0 {
                ids.push(world.records[i].id);
                match world.single(Query::Weapon) {
                    Some(w) => {
                        proof {
                            assert forall|j: int| sole_match(world.records@, Query::Weapon, j) implies j == w as int by {}
                        }
                        ids.push(world.records[w].id);
                        assert(ids@ =~= seq![world.records@[i as int].id, world.records@[w as int].id]);
                    },
                    None => {
                        assert(ids@ =~= seq![world.records@[i as int].id]);
                    },
                }
            }
        },
        None => {},
    }
    ids
}

/// Removing every entity with health at or below zero leaves none: no record
/// that survives such a removal has health at or below zero.
pub proof fn lemma_dead_removed(old: Seq<EntityRecord>, new: Seq<EntityRecord>, next_id: u64)
    requires
        records_wf(old, next_id),
        all_removed(old, new, doomed_ids(old, old.len() as int, Doom::Dead)),
    ensures
        forall|j: int| 0 <= j < new.len() ==> !doomed(new, #[trigger] new[j], Doom::Dead),
{
    assert forall|j: int| 0 <= j < new.len() implies !doomed(new, #[trigger] new[j], Doom::Dead) by {
        assert(holds_record(old, new[j]));
        let i = choose|i: int| 0 <= i < old.len() && old[i] == new[j];
        if doomed(old, old[i], Doom::Dead) {
            lemma_doomed_ids_contains(old, old.len() as int, Doom::Dead, i);
            let ids = doomed_ids(old, old.len() as int, Doom::Dead);
            let m = choose|m: int| 0 <= m < ids.len() && ids[m] == old[i].id;
            assert(!live(new, ids[m]));
            assert(new[j].id == ids[m]);
        }
    }
}

} // verus!
