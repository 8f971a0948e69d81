use vstd::prelude::*;

use crate::components::{
    Boss, DamageZone, DespawnerTimer, Entity, Health, HealthMeter, Intersect, PlayerCharacter,
    PlayerWeapon, Position, Velocity,
};

verus! {

/// One entity and the components it holds; `parent` is the entity that owns it.
#[derive(Clone, Copy, Debug, PartialEq, Eq, Structural)]
pub struct EntityRecord {
    pub id: Entity,
    pub parent: Option<Entity>,
    pub position: Option<Position>,
    pub velocity: Option<Velocity>,
    pub intersect: Option<Intersect>,
    pub health: Option<Health>,
    pub zone: Option<DamageZone>,
    pub despawner: Option<DespawnerTimer>,
    pub player: Option<PlayerCharacter>,
    pub boss: Option<Boss>,
    pub weapon: Option<PlayerWeapon>,
    pub meter: Option<HealthMeter>,
}

/// The components of an entity that is about to be spawned.
#[derive(Clone, Copy, Debug, PartialEq, Eq, Structural)]
pub struct Bundle {
    pub parent: Option<Entity>,
    pub position: Option<Position>,
    pub velocity: Option<Velocity>,
    pub intersect: Option<Intersect>,
    pub health: Option<Health>,
    pub zone: Option<DamageZone>,
    pub despawner: Option<DespawnerTimer>,
    pub player: Option<PlayerCharacter>,
    pub boss: Option<Boss>,
    pub weapon: Option<PlayerWeapon>,
    pub meter: Option<HealthMeter>,
}

/// The component store: every live entity, in the order of creation.
pub struct World {
    pub records: Vec<EntityRecord>,
    pub next_id: u64,
}

/// The record that `b` becomes under the handle `id`.
pub open spec fn record_of(id: Entity, b: Bundle) -> EntityRecord {
    EntityRecord {
        id,
        parent: b.parent,
        position: b.position,
        velocity: b.velocity,
        intersect: b.intersect,
        health: b.health,
        zone: b.zone,
        despawner: b.despawner,
        player: b.player,
        boss: b.boss,
        weapon: b.weapon,
        meter: b.meter,
    }
}

/// Whether some record of `recs` has the handle `e`.
pub open spec fn live(recs: Seq<EntityRecord>, e: Entity) -> bool {
    exists|i: int| 0 <= i < recs.len() && #[trigger] recs[i].id == e
}

/// The store's invariant: handles strictly increase in the order of creation
/// and stay below the next handle to give out; a parent is created before its
/// children and is alive as long as they are; every timer is well formed.
pub open spec fn records_wf(recs: Seq<EntityRecord>, next_id: u64) -> bool {
    &&& forall|i: int, j: int| 0 <= i < j < recs.len() ==> #[trigger] recs[i].id.0 < #[trigger] recs[j].id.0
    &&& forall|i: int| 0 <= i < recs.len() ==> #[trigger] recs[i].id.0 < next_id
    &&& forall|i: int| 0 <= i < recs.len() && (#[trigger] recs[i]).parent is Some ==> {
        let p = recs[i].parent->0;
        p.0 < recs[i].id.0 && live(recs, p)
    }
    &&& forall|i: int| 0 <= i < recs.len() && (#[trigger] recs[i]).despawner is Some ==>
        recs[i].despawner->0.timer.wf()
}

/// The record with handle `e`, if there is one.
pub open spec fn lookup(recs: Seq<EntityRecord>, e: Entity) -> Option<EntityRecord>
    decreases recs.len(),
{
    if recs.len() == 0 {
        None
    } else if recs.last().id == e {
        Some(recs.last())
    } else {
        lookup(recs.drop_last(), e)
    }
}

/// With distinct handles, `lookup` finds exactly the record that has the handle.
pub proof fn lemma_lookup(recs: Seq<EntityRecord>, e: Entity)
    requires
        forall|i: int, j: int| 0 <= i < j < recs.len() ==> recs[i].id != recs[j].id,
    ensures
        forall|i: int| 0 <= i < recs.len() && recs[i].id == e ==> lookup(recs, e) == Some(recs[i]),
        !live(recs, e) ==> lookup(recs, e) is None,
    decreases recs.len(),
{
    if recs.len() > 0 {
        let d = recs.drop_last();
        lemma_lookup(d, e);
        if !live(d, e) && recs.last().id != e {
            assert forall|i: int| 0 <= i < recs.len() implies recs[i].id != e by {
                if i < recs.len() - 1 {
                    assert(d[i] == recs[i]);
                }
            }
        }
        if live(recs, e) && recs.last().id != e {
            let i = choose|i: int| 0 <= i < recs.len() && #[trigger] recs[i].id == e;
            assert(d[i] == recs[i]);
        }
    }
}

/// `b` holds the same entities as `a`, in the same order, with the same owners
/// and well-formed timers; other components may differ.
pub open spec fn same_frame(a: Seq<EntityRecord>, b: Seq<EntityRecord>) -> bool {
    &&& a.len() == b.len()
    &&& forall|i: int| 0 <= i < a.len() ==> (#[trigger] b[i]).id == a[i].id && b[i].parent == a[i].parent
        && (b[i].despawner is Some ==> b[i].despawner->0.timer.wf())
}

/// Changing components other than handles, owners and timers keeps the store's
/// invariant and the set of live entities.
pub proof fn lemma_same_frame(a: Seq<EntityRecord>, b: Seq<EntityRecord>, next_id: u64)
    requires
        records_wf(a, next_id),
        same_frame(a, b),
    ensures
        records_wf(b, next_id),
        forall|e: Entity| live(a, e) <==> live(b, e),
{
    assert forall|e: Entity| live(a, e) <==> live(b, e) by {
        if live(a, e) {
            let i = choose|i: int| 0 <= i < a.len() && #[trigger] a[i].id == e;
            assert(b[i].id == e);
        }
        if live(b, e) {
            let i = choose|i: int| 0 <= i < b.len() && #[trigger] b[i].id == e;
            assert(a[i].id == e);
        }
    }
    assert forall|i: int, j: int| 0 <= i < j < b.len() implies #[trigger] b[i].id.0 < #[trigger] b[j].id.0 by {
        assert(a[i].id.0 < a[j].id.0);
    }
    assert forall|i: int| 0 <= i < b.len() implies #[trigger] b[i].id.0 < next_id by {
        assert(a[i].id.0 < next_id);
    }
    assert forall|i: int| 0 <= i < b.len() && (#[trigger] b[i]).parent is Some implies {
        let p = b[i].parent->0;
        p.0 < b[i].id.0 && live(b, p)
    } by {
        assert(a[i].parent is Some);
    }
    assert forall|i: int| 0 <= i < b.len() && (#[trigger] b[i]).despawner is Some implies
        b[i].despawner->0.timer.wf() by {
    }
}

/// Handles are never given out twice: every handle alive in a store lies below
/// its next handle, which `spawn` gives out and then raises, and which nothing
/// lowers; so a removed handle never comes back.
pub proof fn lemma_handles_below_next(recs: Seq<EntityRecord>, next_id: u64, h: Entity)
    requires
        records_wf(recs, next_id),
        live(recs, h),
    ensures
        h.0 < next_id,
{
}

/// The singleton queries of the game: the entity that alone matches.
#[derive(Clone, Copy, Debug, PartialEq, Eq, Structural)]
pub enum Query {
    /// The player with a velocity.
    PlayerMover,
    /// The player with health.
    PlayerHealth,
    /// The boss with health.
    BossHealth,
    /// The boss with a velocity and a position.
    BossMover,
    /// The player with a position.
    PlayerPosition,
    /// The weapon with a position.
    WeaponPosition,
    /// The weapon.
    Weapon,
}

pub open spec fn matches_query(r: EntityRecord, q: Query) -> bool {
    match q {
        Query::PlayerMover => r.player is Some && r.velocity is Some,
        Query::PlayerHealth => r.player is Some && r.health is Some,
        Query::BossHealth => r.boss is Some && r.health is Some,
        Query::BossMover => r.boss is Some && r.velocity is Some && r.position is Some,
        Query::PlayerPosition => r.player is Some && r.position is Some,
        Query::WeaponPosition => r.weapon is Some && r.position is Some,
        Query::Weapon => r.weapon is Some,
    }
}

/// Record `i` matches `q` and no other record does.
pub open spec fn sole_match(recs: Seq<EntityRecord>, q: Query, i: int) -> bool {
    &&& 0 <= i < recs.len()
    &&& matches_query(recs[i], q)
    &&& forall|j: int| 0 <= j < recs.len() && j != i ==> !matches_query(#[trigger] recs[j], q)
}

/// At most one record is the sole match of a query.
pub proof fn lemma_sole_unique(recs: Seq<EntityRecord>, q: Query, i: int, j: int)
    requires
        sole_match(recs, q, i),
        sole_match(recs, q, j),
    ensures
        i == j,
{
}

fn query_matches(r: &EntityRecord, q: Query) -> (b: bool)
    ensures
        b == matches_query(*r, q),
{
    match q {
        Query::PlayerMover => r.player.is_some() && r.velocity.is_some(),
        Query::PlayerHealth => r.player.is_some() && r.health.is_some(),
        Query::BossHealth => r.boss.is_some() && r.health.is_some(),
        Query::BossMover => r.boss.is_some() && r.velocity.is_some() && r.position.is_some(),
        Query::PlayerPosition => r.player.is_some() && r.position.is_some(),
        Query::WeaponPosition => r.weapon.is_some() && r.position.is_some(),
        Query::Weapon => r.weapon.is_some(),
    }
}


/// Whether a record survives the removal of the entities `ids` and everything
/// they own, given the records `kept` that survive: it is not named in `ids`,
/// and its owner, if any, survives.
pub open spec fn survives(r: EntityRecord, ids: Seq<Entity>, kept: Seq<EntityRecord>) -> bool {
    !ids.contains(r.id) && (r.parent is None || live(kept, r.parent->0))
}

/// The survivors among the first `i` records of `old` when `ids` are removed
/// with everything they own, in store order.
pub open spec fn keep_prefix(old: Seq<EntityRecord>, ids: Seq<Entity>, i: int) -> Seq<EntityRecord>
    decreases i,
{
    if i <= 0 {
        Seq::empty()
    } else {
        let k = keep_prefix(old, ids, i - 1);
        if survives(old[i - 1], ids, k) { k.push(old[i - 1]) } else { k }
    }
}

/// What is left of `old` after removing `ids` and everything they own.
pub open spec fn after_removal(old: Seq<EntityRecord>, ids: Seq<Entity>) -> Seq<EntityRecord> {
    keep_prefix(old, ids, old.len() as int)
}

/// Whether `r` is one of `recs`.
pub open spec fn holds_record(recs: Seq<EntityRecord>, r: EntityRecord) -> bool {
    exists|j: int| 0 <= j < recs.len() && recs[j] == r
}

/// `new` is what is left of `old` after removing the entities `ids` and,
/// recursively, every entity that a removed entity owned.
pub open spec fn removed_recursively(old: Seq<EntityRecord>, new: Seq<EntityRecord>, ids: Seq<Entity>) -> bool {
    &&& forall|i: int| 0 <= i < old.len() ==>
        (holds_record(new, #[trigger] old[i]) <==> survives(old[i], ids, new))
    &&& forall|j: int| 0 <= j < new.len() ==> holds_record(old, #[trigger] new[j])
}

fn named_in(ids: &Vec<Entity>, e: Entity) -> (b: bool)
    ensures
        b == ids@.contains(e),
{
    let mut i: usize = 0;
    while i < ids.len()
        invariant
            i <= ids@.len(),
            forall|k: int| 0 <= k < i ==> ids@[k] != e,
        decreases ids@.len() - i,
    {
        if ids[i] == e {
            return true;
        }
        i = i + 1;
    }
    false
}

fn live_in(recs: &Vec<EntityRecord>, e: Entity) -> (b: bool)
    ensures
        b == live(recs@, e),
{
    let mut i: usize = 0;
    while i < recs.len()
        invariant
            i <= recs@.len(),
            forall|k: int| 0 <= k < i ==> recs@[k].id != e,
        decreases recs@.len() - i,
    {
        if recs[i].id == e {
            return true;
        }
        i = i + 1;
    }
    false
}

impl World {
    pub open spec fn wf(&self) -> bool {
        records_wf(self.records@, self.next_id)
    }

    /// An empty store.
    pub fn new() -> (w: World)
        ensures
            w.wf(),
            w.records@.len() == 0,
    {
        World { records: Vec::new(), next_id: 0 }
    }

    /// Whether `e` is alive.
    pub fn contains(&self, e: Entity) -> (b: bool)
        ensures
            b == live(self.records@, e),
    {
        match self.find(e) {
            Some(_) => true,
            None => false,
        }
    }

    /// The index of the record of `e`, if `e` is alive.
    pub fn find(&self, e: Entity) -> (r: Option<usize>)
        ensures
            match r {
                Some(i) => i < self.records@.len() && self.records@[i as int].id == e,
                None => !live(self.records@, e),
            },
    {
        let mut i: usize = 0;
        while i < self.records.len()
            invariant
                i <= self.records@.len(),
                forall|k: int| 0 <= k < i ==> self.records@[k].id != e,
            decreases self.records@.len() - i,
        {
            if self.records[i].id == e {
                return Some(i);
            }
            i = i + 1;
        }
        None
    }

    /// The index of the one entity that matches `q`; `None` when none or
    /// several match.
    pub fn single(&self, q: Query) -> (r: Option<usize>)
        ensures
            match r {
                Some(i) => sole_match(self.records@, q, i as int),
                None => forall|i: int| !sole_match(self.records@, q, i),
            },
    {
        let mut found: Option<usize> = None;
        let mut i: usize = 0;
        while i < self.records.len()
            invariant
                i <= self.records@.len(),
                match found {
                    Some(f) => f < i && matches_query(self.records@[f as int], q)
                        && forall|k: int| 0 <= k < i && k != f ==> !matches_query(#[trigger] self.records@[k], q),
                    None => forall|k: int| 0 <= k < i ==> !matches_query(#[trigger] self.records@[k], q),
                },
            decreases self.records@.len() - i,
        {
            if query_matches(&self.records[i], q) {
                if found.is_some() {
                    let f = found.unwrap();
                    assert(!sole_match(self.records@, q, i as int));
                    assert forall|k: int| !sole_match(self.records@, q, k) by {
                        if k != f {
                            assert(!sole_match(self.records@, q, k) || k == i);
                        }
                    }
                    return None;
                }
                found = Some(i);
            }
            i = i + 1;
        }
        found
    }


    /// Removes `e` and, recursively, every entity that it owns. A handle that
    /// is not alive removes nothing.
    pub fn despawn_recursive(&mut self, e: Entity)
        requires
            old(self).wf(),
        ensures
            final(self).wf(),
            final(self).next_id == old(self).next_id,
            final(self).records@ == after_removal(old(self).records@, seq![e]),
            removed_recursively(old(self).records@, final(self).records@, seq![e]),
            !live(final(self).records@, e),
    {
        let ids = vec![e];
        assert(ids@ =~= seq![e]);
        self.despawn_all(&ids);
        assert(ids@[0] == e);
    }

    /// Removes every entity of `ids` and, recursively, every entity that a
    /// removed entity owns. Handles that are not alive remove nothing.
    pub fn despawn_all(&mut self, ids: &Vec<Entity>)
        requires
            old(self).wf(),
        ensures
            final(self).wf(),
            final(self).next_id == old(self).next_id,
            final(self).records@ == after_removal(old(self).records@, ids@),
            removed_recursively(old(self).records@, final(self).records@, ids@),
            forall|k: int| 0 <= k < ids@.len() ==> !live(final(self).records@, #[trigger] ids@[k]),
    {
        let ghost old_recs = self.records@;
        let mut kept: Vec<EntityRecord> = Vec::new();
        let ghost mut idx: Seq<int> = Seq::empty();
        let mut i: usize = 0;
        while i < self.records.len()
            invariant
                self.records@ == old_recs,
                records_wf(old_recs, self.next_id),
                i <= old_recs.len(),
                idx.len() == kept@.len(),
                forall|j: int| 0 <= j < idx.len() ==> 0 <= #[trigger] idx[j] < i,
                forall|j: int| 0 <= j < idx.len() ==> kept@[j] == old_recs[#[trigger] idx[j]],
                forall|a: int, b: int| 0 <= a < b < idx.len() ==> #[trigger] idx[a] < #[trigger] idx[b],
                forall|k: int| 0 <= k < i ==>
                    (holds_record(kept@, #[trigger] old_recs[k]) <==> survives(old_recs[k], ids@, kept@)),
                forall|j: int| 0 <= j < kept@.len() ==> (#[trigger] kept@[j]).parent is Some
                    ==> live(kept@, kept@[j].parent->0),
                forall|j: int| 0 <= j < kept@.len() ==> !ids@.contains((#[trigger] kept@[j]).id),
                kept@ == keep_prefix(old_recs, ids@, i as int),
            decreases old_recs.len() - i,
        {
            let r = self.records[i];
            let keep = !named_in(ids, r.id) && match r.parent {
                None => true,
                Some(p) => live_in(&kept, p),
            };
            if keep {
                let ghost pre = kept@;
                kept.push(r);
                proof {
                    idx = idx.push(i as int);
                    let ks = kept@;
                    assert(ks[ks.len() - 1] == r);
                    assert forall|k: int| 0 <= k < i + 1 implies
                        (holds_record(ks, #[trigger] old_recs[k]) <==> survives(old_recs[k], ids@, ks)) by {
                        if k < i {
                            assert(old_recs[k].id.0 < r.id.0);
                            if old_recs[k].parent is Some {
                                let p = old_recs[k].parent->0;
                                if live(ks, p) {
                                    let j = choose|j: int| 0 <= j < ks.len() && #[trigger] ks[j].id == p;
                                    if j < pre.len() {
                                        assert(pre[j] == ks[j]);
                                    }
                                }
                                if live(pre, p) {
                                    let j = choose|j: int| 0 <= j < pre.len() && #[trigger] pre[j].id == p;
                                    assert(pre[j] == ks[j]);
                                }
                            }
                            if holds_record(ks, old_recs[k]) {
                                let j = choose|j: int| 0 <= j < ks.len() && ks[j] == old_recs[k];
                                if j < pre.len() {
                                    assert(pre[j] == ks[j]);
                                }
                            }
                            if holds_record(pre, old_recs[k]) {
                                let j = choose|j: int| 0 <= j < pre.len() && pre[j] == old_recs[k];
                                assert(pre[j] == ks[j]);
                            }
                        } else {
                            if r.parent is Some {
                                let p = r.parent->0;
                                let j = choose|j: int| 0 <= j < pre.len() && #[trigger] pre[j].id == p;
                                assert(pre[j] == ks[j]);
                            }
                            assert(ks[ks.len() - 1] == old_recs[k]);
                        }
                    }
                    assert forall|j: int| 0 <= j < ks.len() && (#[trigger] ks[j]).parent is Some implies
                        live(ks, ks[j].parent->0) by {
                        let p = ks[j].parent->0;
                        let jj = choose|jj: int| 0 <= jj < pre.len() && #[trigger] pre[jj].id == p;
                        assert(pre[jj] == ks[jj]);
                        if j < pre.len() {
                            assert(pre[j] == ks[j]);
                        }
                    }
                }
            } else {
                proof {
                    let ks = kept@;
                    assert forall|k: int| 0 <= k < i + 1 implies
                        (holds_record(ks, #[trigger] old_recs[k]) <==> survives(old_recs[k], ids@, ks)) by {
                        if k == i {
                            if holds_record(ks, old_recs[k]) {
                                let j = choose|j: int| 0 <= j < ks.len() && ks[j] == old_recs[k];
                                assert(idx[j] < i);
                                assert(old_recs[idx[j]].id.0 < old_recs[k].id.0);
                            }
                        }
                    }
                }
            }
            i = i + 1;
        }
        proof {
            let ks = kept@;
            assert forall|j: int| 0 <= j < ks.len() implies holds_record(old_recs, #[trigger] ks[j]) by {
                assert(old_recs[idx[j]] == ks[j]);
            }
            assert forall|a: int, b: int| 0 <= a < b < ks.len() implies
                #[trigger] ks[a].id.0 < #[trigger] ks[b].id.0 by {
                assert(idx[a] < idx[b]);
            }
            assert forall|a: int| 0 <= a < ks.len() implies #[trigger] ks[a].id.0 < self.next_id by {
                assert(ks[a] == old_recs[idx[a]]);
            }
            assert forall|a: int| 0 <= a < ks.len() && (#[trigger] ks[a]).parent is Some implies
                (ks[a].parent->0).0 < ks[a].id.0 by {
                assert(ks[a] == old_recs[idx[a]]);
            }
            assert forall|a: int| 0 <= a < ks.len() && (#[trigger] ks[a]).despawner is Some implies
                ks[a].despawner->0.timer.wf() by {
                assert(ks[a] == old_recs[idx[a]]);
            }
        }
        proof {
            let ks = kept@;
            assert forall|k: int| 0 <= k < ids@.len() implies !live(ks, #[trigger] ids@[k]) by {
                if live(ks, ids@[k]) {
                    let j = choose|j: int| 0 <= j < ks.len() && #[trigger] ks[j].id == ids@[k];
                    assert(ids@.contains(ks[j].id));
                }
            }
        }
        self.records = kept;
    }

    /// Creates an entity from `b` and returns its handle. Nothing is created,
    /// and `None` returned, when `b` names a parent that is not alive or when
    /// the handles are used up.
    pub fn spawn(&mut self, b: Bundle) -> (r: Option<Entity>)
        requires
            old(self).wf(),
            b.despawner is Some ==> b.despawner->0.timer.wf(),
        ensures
            final(self).wf(),
            match r {
                Some(e) => {
                    &&& e.0 == old(self).next_id
                    &&& final(self).next_id == old(self).next_id + 1
                    &&& final(self).records@ == old(self).records@.push(record_of(e, b))
                },
                None => final(self).records@ == old(self).records@ && final(self).next_id == old(self).next_id,
            },
            r is None <==> (old(self).next_id == u64::MAX
                || (b.parent is Some && !live(old(self).records@, b.parent->0))),
    {
        if self.next_id == u64::MAX {
            return None;
        }
        match b.parent {
            Some(p) => {
                if !self.contains(p) {
                    return None;
                }
            },
            None => {},
        }
        let e = Entity(self.next_id);
        let rec = EntityRecord {
            id: e,
            parent: b.parent,
            position: b.position,
            velocity: b.velocity,
            intersect: b.intersect,
            health: b.health,
            zone: b.zone,
            despawner: b.despawner,
            player: b.player,
            boss: b.boss,
            weapon: b.weapon,
            meter: b.meter,
        };
        let ghost pre = self.records@;
        self.records.push(rec);
        self.next_id = self.next_id + 1;
        proof {
            let recs = self.records@;
            assert(recs[recs.len() - 1] == rec);
            assert forall|i: int| 0 <= i < recs.len() && (#[trigger] recs[i]).parent is Some implies {
                let p = recs[i].parent->0;
                p.0 < recs[i].id.0 && live(recs, p)
            } by {
                let p = recs[i].parent->0;
                if i < pre.len() {
                    assert(pre[i] == recs[i]);
                    let k = choose|k: int| 0 <= k < pre.len() && #[trigger] pre[k].id == p;
                    assert(recs[k] == pre[k]);
                } else {
                    let k = choose|k: int| 0 <= k < pre.len() && #[trigger] pre[k].id == p;
                    assert(recs[k] == pre[k]);
                }
            }
        }
        Some(e)
    }
}

} // verus!
