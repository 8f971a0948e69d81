use arena_sim::components::{
    Boss, DamageZone, DespawnerTimer, Entity, Health, HealthMeter, Intersect, PlayerCharacter, PlayerWeapon,
    Position, Timer, Vec2, Velocity,
};
use arena_sim::damage::{damage_apply, damage_zone_apply, player_weapon_attack};
use arena_sim::despawn::{boss_death, collect_doomed, despawn_by_timer, health_meter, player_death, Doom};
use arena_sim::events::{EventChannel, IntersectEvent};
use arena_sim::intersect::{check_intersect, rect_overlap};
use arena_sim::movement::{boss_movement, move_with_velocity, player_char_controls, player_dash_ability, KeyState};
use arena_sim::schedule::{run_tick, GameSet, Outcome, TickInput};
use arena_sim::store::{Bundle, Query, World};

fn bare() -> Bundle {
    Bundle {
        parent: None,
        position: None,
        velocity: None,
        intersect: None,
        health: None,
        zone: None,
        despawner: None,
        player: None,
        boss: None,
        weapon: None,
        meter: None,
    }
}

fn at(x: i64, y: i64) -> Option<Position> {
    Some(Position { x, y, z: 900 })
}

fn square(side: i64) -> Option<Intersect> {
    Some(Intersect { size: Vec2 { x: side, y: side } })
}

fn health(current: i64) -> Option<Health> {
    Some(Health { current, unapplied_damage: 0 })
}

fn zone(damage: u32, ignore: Option<Entity>) -> Option<DamageZone> {
    Some(DamageZone { damage, ignore })
}

fn still() -> Option<Velocity> {
    Some(Velocity { v: Vec2 { x: 0, y: 0 } })
}

fn no_keys() -> KeyState {
    KeyState { left: false, right: false, up: false, down: false }
}

fn quiet(dt: u32) -> TickInput {
    TickInput { dt, keys: no_keys(), attack_pressed: false, dash_pressed: false }
}

fn rec(world: &World, e: Entity) -> Option<arena_sim::store::EntityRecord> {
    world.find(e).map(|i| world.records[i])
}

fn hp(world: &World, e: Entity) -> i64 {
    rec(world, e).unwrap().health.unwrap().current
}

#[test]
fn zone_overlap_costs_five_health_after_one_tick() {
    let mut w = World::new();
    let a = w.spawn(Bundle { position: at(0, 0), intersect: square(10), health: health(100), ..bare() }).unwrap();
    let _b = w.spawn(Bundle { position: at(4, 0), intersect: square(10), zone: zone(5, None), ..bare() }).unwrap();
    let mut ch = EventChannel::new();
    run_tick(&mut w, &mut ch, quiet(1));
    assert_eq!(hp(&w, a), 95);
    assert_eq!(rec(&w, a).unwrap().health.unwrap().unapplied_damage, 0);
}

#[test]
fn lethal_damage_destroys_within_the_tick() {
    let mut w = World::new();
    let a = w.spawn(Bundle { position: at(0, 0), intersect: square(10), health: health(3), ..bare() }).unwrap();
    w.spawn(Bundle { position: at(0, 0), intersect: square(10), zone: zone(5, None), ..bare() }).unwrap();
    let mut zw = World::new();
    let za = zw.spawn(Bundle { position: at(0, 0), intersect: square(10), health: health(3), ..bare() }).unwrap();
    zw.spawn(Bundle { position: at(0, 0), intersect: square(10), zone: zone(5, None), ..bare() }).unwrap();
    let evs = check_intersect(&zw);
    damage_zone_apply(&mut zw, &evs);
    damage_apply(&mut zw);
    assert_eq!(hp(&zw, za), -2);
    let mut ch = EventChannel::new();
    run_tick(&mut w, &mut ch, quiet(1));
    assert!(!w.contains(a));
    run_tick(&mut w, &mut ch, quiet(1));
    assert!(!w.contains(a));
}

#[test]
fn ignored_target_takes_no_damage() {
    let mut w = World::new();
    let t = w.spawn(Bundle { position: at(0, 0), intersect: square(10), health: health(50), ..bare() }).unwrap();
    w.spawn(Bundle { position: at(2, 2), intersect: square(10), zone: zone(9, Some(t)), ..bare() }).unwrap();
    let evs = check_intersect(&w);
    assert_eq!(evs.len(), 2);
    damage_zone_apply(&mut w, &evs);
    assert_eq!(rec(&w, t).unwrap().health.unwrap().unapplied_damage, 0);
    let mut ch = EventChannel::new();
    run_tick(&mut w, &mut ch, quiet(1));
    assert_eq!(hp(&w, t), 50);
}

#[test]
fn impulse_moves_once_and_resets() {
    let mut w = World::new();
    let e = w.spawn(Bundle { position: at(0, 0), velocity: Some(Velocity { v: Vec2 { x: 10, y: 0 } }), ..bare() }).unwrap();
    move_with_velocity(&mut w, 1);
    let r = rec(&w, e).unwrap();
    assert_eq!(r.position.unwrap(), Position { x: 10, y: 0, z: 900 });
    assert_eq!(r.velocity.unwrap().v, Vec2 { x: 0, y: 0 });
    move_with_velocity(&mut w, 1);
    assert_eq!(rec(&w, e).unwrap().position.unwrap().x, 10);
}

#[test]
fn movement_is_held_within_the_world() {
    let mut w = World::new();
    let e = w.spawn(Bundle { position: at(330, -330), velocity: Some(Velocity { v: Vec2 { x: 100, y: -100 } }), ..bare() }).unwrap();
    move_with_velocity(&mut w, 3);
    let p = rec(&w, e).unwrap().position.unwrap();
    assert_eq!((p.x, p.y, p.z), (340, -340, 900));
    let f = w.spawn(Bundle { position: at(0, 0), velocity: Some(Velocity { v: Vec2 { x: i64::MAX, y: i64::MIN } }), ..bare() }).unwrap();
    move_with_velocity(&mut w, u32::MAX);
    let p = rec(&w, f).unwrap().position.unwrap();
    assert_eq!((p.x, p.y), (340, -340));
}

#[test]
fn intersection_events_come_in_both_orders() {
    let mut w = World::new();
    let a = w.spawn(Bundle { position: at(0, 0), intersect: square(10), ..bare() }).unwrap();
    let b = w.spawn(Bundle { position: at(19, 0), intersect: square(10), ..bare() }).unwrap();
    let _c = w.spawn(Bundle { position: at(20, 0), intersect: square(10), ..bare() }).unwrap();
    let _d = w.spawn(Bundle { position: at(100, 100), ..bare() }).unwrap();
    let evs = check_intersect(&w);
    assert_eq!(evs.len(), 4);
    assert!(evs.contains(&IntersectEvent { ab: (a, b) }));
    assert!(evs.contains(&IntersectEvent { ab: (b, a) }));
    for ev in evs.iter() {
        assert_ne!(ev.ab.0, ev.ab.1);
        assert!(evs.contains(&IntersectEvent { ab: (ev.ab.1, ev.ab.0) }));
    }
}

#[test]
fn rectangles_apart_on_one_axis_do_not_overlap() {
    let s = Intersect { size: Vec2 { x: 10, y: 4 } };
    let p = Position { x: 0, y: 0, z: 0 };
    assert!(rect_overlap(p, s, Position { x: 19, y: 7, z: 0 }, s));
    assert!(!rect_overlap(p, s, Position { x: 19, y: 8, z: 0 }, s));
    assert!(!rect_overlap(p, s, Position { x: -20, y: 0, z: 0 }, s));
    let h = Intersect { size: Vec2 { x: 24, y: 24 } };
    assert!(rect_overlap(p, h, Position { x: 30, y: 0, z: 0 }, h));
    assert!(!rect_overlap(p, h, Position { x: 48, y: 0, z: 0 }, h));
    assert!(rect_overlap(Position { x: i64::MIN, y: 0, z: 0 }, s, Position { x: i64::MIN + 1, y: 0, z: 0 }, s));
    assert!(!rect_overlap(Position { x: i64::MIN, y: 0, z: 0 }, s, Position { x: i64::MAX, y: 0, z: 0 }, s));
}

#[test]
fn simultaneous_zones_stack_and_apply_once() {
    let mut w = World::new();
    let t = w.spawn(Bundle { position: at(0, 0), intersect: square(10), health: health(100), ..bare() }).unwrap();
    w.spawn(Bundle { position: at(1, 0), intersect: square(10), zone: zone(5, None), ..bare() }).unwrap();
    w.spawn(Bundle { position: at(-1, 0), intersect: square(10), zone: zone(7, None), ..bare() }).unwrap();
    w.spawn(Bundle { position: at(0, 1), intersect: square(10), zone: zone(11, None), ..bare() }).unwrap();
    let evs = check_intersect(&w);
    damage_zone_apply(&mut w, &evs);
    assert_eq!(rec(&w, t).unwrap().health.unwrap().unapplied_damage, 23);
    let effects = damage_apply(&mut w);
    assert_eq!(effects.len(), 1);
    assert_eq!(effects[0], Position { x: 0, y: 0, z: 900 });
    assert_eq!(hp(&w, t), 77);
    let again = damage_apply(&mut w);
    assert_eq!(again.len(), 0);
    assert_eq!(hp(&w, t), 77);
}

#[test]
fn staged_damage_saturates() {
    let mut w = World::new();
    let t = w.spawn(Bundle {
        position: at(0, 0),
        intersect: square(10),
        health: Some(Health { current: 10, unapplied_damage: i64::MAX - 1 }),
        ..bare()
    }).unwrap();
    w.spawn(Bundle { position: at(0, 0), intersect: square(10), zone: zone(5, None), ..bare() }).unwrap();
    let evs = check_intersect(&w);
    damage_zone_apply(&mut w, &evs);
    assert_eq!(rec(&w, t).unwrap().health.unwrap().unapplied_damage, i64::MAX);
    damage_apply(&mut w);
    assert_eq!(hp(&w, t), 10 - i64::MAX);
}

#[test]
fn events_naming_gone_entities_are_skipped() {
    let mut w = World::new();
    let t = w.spawn(Bundle { position: at(0, 0), intersect: square(10), health: health(20), ..bare() }).unwrap();
    let z = w.spawn(Bundle { position: at(0, 0), intersect: square(10), zone: zone(4, None), ..bare() }).unwrap();
    let evs = vec![
        IntersectEvent { ab: (z, t) },
        IntersectEvent { ab: (Entity(99), t) },
        IntersectEvent { ab: (z, Entity(77)) },
        IntersectEvent { ab: (t, z) },
    ];
    damage_zone_apply(&mut w, &evs);
    assert_eq!(rec(&w, t).unwrap().health.unwrap().unapplied_damage, 4);
}

#[test]
fn dead_entities_leave_by_the_end_of_the_tick() {
    let mut w = World::new();
    let a = w.spawn(Bundle { health: health(0), ..bare() }).unwrap();
    let b = w.spawn(Bundle { health: health(-5), ..bare() }).unwrap();
    let c = w.spawn(Bundle { health: health(1), ..bare() }).unwrap();
    assert_eq!(collect_doomed(&w, Doom::Dead), vec![a, b]);
    let mut ch = EventChannel::new();
    let report = run_tick(&mut w, &mut ch, quiet(1));
    assert!(!w.contains(a));
    assert!(!w.contains(b));
    assert!(w.contains(c));
    assert_eq!(report.outcome, Outcome::Playing);
}

#[test]
fn timer_finishes_when_elapsed_reaches_duration() {
    let mut t = Timer::new(10);
    t.tick(4);
    assert!(!t.finished());
    t.tick(4);
    assert!(!t.finished());
    assert_eq!(t.elapsed, 8);
    t.tick(4);
    assert!(t.finished());
    assert_eq!(t.elapsed, 10);
    t.tick(u64::MAX);
    assert_eq!(t.elapsed, 10);
}

#[test]
fn lifetime_timer_despawns_on_the_first_tick_it_runs_out() {
    let mut w = World::new();
    let e = w.spawn(Bundle { despawner: Some(DespawnerTimer::new(10)), ..bare() }).unwrap();
    let mut ch = EventChannel::new();
    run_tick(&mut w, &mut ch, quiet(4));
    assert!(w.contains(e));
    run_tick(&mut w, &mut ch, quiet(4));
    assert!(w.contains(e));
    run_tick(&mut w, &mut ch, quiet(2));
    assert!(!w.contains(e));
}

#[test]
fn despawn_by_timer_lists_finished_entities() {
    let mut w = World::new();
    let a = w.spawn(Bundle { despawner: Some(DespawnerTimer::new(3)), ..bare() }).unwrap();
    let _b = w.spawn(Bundle { despawner: Some(DespawnerTimer::new(30)), ..bare() }).unwrap();
    let c = w.spawn(Bundle { despawner: Some(DespawnerTimer::new(0)), ..bare() }).unwrap();
    assert_eq!(despawn_by_timer(&mut w, 5), vec![a, c]);
    assert_eq!(w.records.len(), 3);
}

#[test]
fn removal_takes_owned_entities_along() {
    let mut w = World::new();
    let root = w.spawn(bare()).unwrap();
    let child = w.spawn(Bundle { parent: Some(root), ..bare() }).unwrap();
    let grandchild = w.spawn(Bundle { parent: Some(child), ..bare() }).unwrap();
    let other = w.spawn(bare()).unwrap();
    let others_child = w.spawn(Bundle { parent: Some(other), ..bare() }).unwrap();
    w.despawn_recursive(root);
    assert!(!w.contains(root));
    assert!(!w.contains(child));
    assert!(!w.contains(grandchild));
    assert!(w.contains(other));
    assert!(w.contains(others_child));
    w.despawn_recursive(Entity(1000));
    assert_eq!(w.records.len(), 2);
}

#[test]
fn spawn_refuses_a_gone_parent() {
    let mut w = World::new();
    let p = w.spawn(bare()).unwrap();
    w.despawn_recursive(p);
    assert_eq!(w.spawn(Bundle { parent: Some(p), ..bare() }), None);
    let q = w.spawn(bare()).unwrap();
    assert_eq!(q, Entity(1));
    assert!(w.spawn(Bundle { parent: Some(q), ..bare() }).is_some());
}

#[test]
fn velocity_is_zero_after_each_tick_and_impulses_do_not_carry_over() {
    let mut w = World::new();
    let p = w.spawn(Bundle { position: at(0, 0), velocity: still(), player: Some(PlayerCharacter), ..bare() }).unwrap();
    let mut ch = EventChannel::new();
    let right = KeyState { left: false, right: true, up: false, down: false };
    run_tick(&mut w, &mut ch, TickInput { dt: 1, keys: right, attack_pressed: false, dash_pressed: false });
    assert_eq!(rec(&w, p).unwrap().position.unwrap().x, 120);
    assert_eq!(rec(&w, p).unwrap().velocity.unwrap().v, Vec2 { x: 0, y: 0 });
    run_tick(&mut w, &mut ch, quiet(1));
    assert_eq!(rec(&w, p).unwrap().position.unwrap().x, 120);
}

#[test]
fn controls_and_dash_add_impulses_to_the_single_player() {
    let mut w = World::new();
    let p = w.spawn(Bundle { position: at(0, 0), velocity: still(), player: Some(PlayerCharacter), ..bare() }).unwrap();
    let keys = KeyState { left: true, right: false, up: true, down: false };
    player_char_controls(&mut w, keys);
    assert_eq!(rec(&w, p).unwrap().velocity.unwrap().v, Vec2 { x: -120, y: 120 });
    player_dash_ability(&mut w, keys);
    assert_eq!(rec(&w, p).unwrap().velocity.unwrap().v, Vec2 { x: -10120, y: 10120 });
    let all = KeyState { left: true, right: true, up: true, down: true };
    player_char_controls(&mut w, all);
    assert_eq!(rec(&w, p).unwrap().velocity.unwrap().v, Vec2 { x: -10120, y: 10120 });
}

#[test]
fn two_players_make_the_controls_a_no_op() {
    let mut w = World::new();
    let p = w.spawn(Bundle { velocity: still(), player: Some(PlayerCharacter), ..bare() }).unwrap();
    w.spawn(Bundle { velocity: still(), player: Some(PlayerCharacter), ..bare() }).unwrap();
    assert_eq!(w.single(Query::PlayerMover), None);
    player_char_controls(&mut w, KeyState { left: false, right: true, up: false, down: false });
    assert_eq!(rec(&w, p).unwrap().velocity.unwrap().v, Vec2 { x: 0, y: 0 });
}

#[test]
fn boss_turns_toward_the_player() {
    let mut w = World::new();
    w.spawn(Bundle { position: at(-50, 0), player: Some(PlayerCharacter), ..bare() }).unwrap();
    let b = w.spawn(Bundle { position: at(0, 200), velocity: still(), boss: Some(Boss { speed: 60 }), ..bare() }).unwrap();
    boss_movement(&mut w);
    assert_eq!(rec(&w, b).unwrap().velocity.unwrap().v, Vec2 { x: -14, y: -58 });
}

#[test]
fn boss_pursuit_follows_the_unit_direction() {
    let mut w = World::new();
    w.spawn(Bundle { position: at(3, 4), player: Some(PlayerCharacter), ..bare() }).unwrap();
    let b = w.spawn(Bundle { position: at(0, 0), velocity: still(), boss: Some(Boss { speed: 60 }), ..bare() }).unwrap();
    boss_movement(&mut w);
    assert_eq!(rec(&w, b).unwrap().velocity.unwrap().v, Vec2 { x: 36, y: 48 });
    let mut v = World::new();
    v.spawn(Bundle { position: at(0, 0), player: Some(PlayerCharacter), ..bare() }).unwrap();
    let c = v.spawn(Bundle { position: at(0, 0), velocity: still(), boss: Some(Boss { speed: 60 }), ..bare() }).unwrap();
    boss_movement(&mut v);
    assert_eq!(rec(&v, c).unwrap().velocity.unwrap().v, Vec2 { x: 0, y: 0 });
}

#[test]
fn boss_out_of_reach_stays_put() {
    let mut w = World::new();
    w.spawn(Bundle { position: at(i64::MAX, 0), player: Some(PlayerCharacter), ..bare() }).unwrap();
    let b = w.spawn(Bundle { position: at(0, 0), velocity: still(), boss: Some(Boss { speed: 60 }), ..bare() }).unwrap();
    boss_movement(&mut w);
    assert_eq!(rec(&w, b).unwrap().velocity.unwrap().v, Vec2 { x: 0, y: 0 });
}

#[test]
fn boss_pursues_along_one_axis_at_full_speed() {
    let mut w = World::new();
    w.spawn(Bundle { position: at(0, -100), player: Some(PlayerCharacter), ..bare() }).unwrap();
    let b = w.spawn(Bundle { position: at(0, 200), velocity: still(), boss: Some(Boss { speed: 60 }), ..bare() }).unwrap();
    boss_movement(&mut w);
    assert_eq!(rec(&w, b).unwrap().velocity.unwrap().v, Vec2 { x: 0, y: -60 });
}

#[test]
fn removal_of_several_handles_keeps_the_rest() {
    let mut w = World::new();
    let a = w.spawn(bare()).unwrap();
    let a1 = w.spawn(Bundle { parent: Some(a), ..bare() }).unwrap();
    let b = w.spawn(bare()).unwrap();
    let b1 = w.spawn(Bundle { parent: Some(b), ..bare() }).unwrap();
    let c = w.spawn(bare()).unwrap();
    w.despawn_all(&vec![a, b1, Entity(999)]);
    assert!(!w.contains(a));
    assert!(!w.contains(a1));
    assert!(w.contains(b));
    assert!(!w.contains(b1));
    assert!(w.contains(c));
    assert_eq!(w.records.len(), 2);
}

#[test]
fn weapon_swing_damages_others_but_not_the_player() {
    let mut w = World::new();
    let p = w.spawn(Bundle { position: at(0, 0), intersect: square(24), health: health(100), player: Some(PlayerCharacter), ..bare() }).unwrap();
    let wp = w.spawn(Bundle { position: at(5, 0), intersect: square(12), weapon: Some(PlayerWeapon { damage: 5 }), ..bare() }).unwrap();
    let boss = w.spawn(Bundle { position: at(10, 0), intersect: square(32), health: health(100), boss: Some(Boss { speed: 60 }), ..bare() }).unwrap();
    let evs = check_intersect(&w);
    let effect = player_weapon_attack(&mut w, &evs);
    assert_eq!(effect, at(5, 0));
    assert_eq!(rec(&w, boss).unwrap().health.unwrap().unapplied_damage, 5);
    assert_eq!(rec(&w, p).unwrap().health.unwrap().unapplied_damage, 0);
    assert!(w.contains(wp));
}

#[test]
fn swing_in_a_tick_requests_a_shake() {
    let mut w = World::new();
    w.spawn(Bundle { position: at(5, 0), intersect: square(12), weapon: Some(PlayerWeapon { damage: 5 }), ..bare() }).unwrap();
    let boss = w.spawn(Bundle { position: at(10, 0), intersect: square(32), health: health(100), boss: Some(Boss { speed: 60 }), ..bare() }).unwrap();
    let mut ch = EventChannel::new();
    let report = run_tick(&mut w, &mut ch, TickInput { dt: 1, keys: no_keys(), attack_pressed: true, dash_pressed: false });
    assert_eq!(report.shakes.len(), 1);
    assert_eq!(report.shakes[0].intensity, 1);
    assert_eq!(report.attack_effect, at(5, 0));
    assert_eq!(report.damage_effects.len(), 1);
    assert_eq!(hp(&w, boss), 95);
    assert!(ch.intersect.is_empty());
}

#[test]
fn no_weapon_no_swing() {
    let mut w = World::new();
    w.spawn(Bundle { position: at(0, 0), health: health(10), ..bare() }).unwrap();
    assert_eq!(player_weapon_attack(&mut w, &Vec::new()), None);
}

#[test]
fn player_death_takes_the_weapon_and_ends_the_game() {
    let mut w = World::new();
    let p = w.spawn(Bundle { position: at(0, 0), health: health(0), player: Some(PlayerCharacter), ..bare() }).unwrap();
    let wp = w.spawn(Bundle { position: at(5, 0), weapon: Some(PlayerWeapon { damage: 5 }), ..bare() }).unwrap();
    assert_eq!(player_death(&w), vec![p, wp]);
    let mut ch = EventChannel::new();
    let report = run_tick(&mut w, &mut ch, quiet(1));
    assert_eq!(report.outcome, Outcome::Lost);
    assert!(!w.contains(p));
    assert!(!w.contains(wp));
}

#[test]
fn boss_death_wins_the_game() {
    let mut w = World::new();
    let b = w.spawn(Bundle { health: health(-1), boss: Some(Boss { speed: 60 }), ..bare() }).unwrap();
    assert_eq!(boss_death(&w), Some(b));
    let mut ch = EventChannel::new();
    let report = run_tick(&mut w, &mut ch, quiet(1));
    assert_eq!(report.outcome, Outcome::Won);
    assert!(!w.contains(b));
    assert_eq!(boss_death(&w), None);
}

#[test]
fn living_boss_is_not_dead() {
    let mut w = World::new();
    w.spawn(Bundle { health: health(1), boss: Some(Boss { speed: 60 }), ..bare() }).unwrap();
    assert_eq!(boss_death(&w), None);
}

#[test]
fn stale_health_meter_is_removed() {
    let mut w = World::new();
    let p = w.spawn(Bundle { health: health(100), ..bare() }).unwrap();
    let m1 = w.spawn(Bundle { meter: Some(HealthMeter { id: p }), ..bare() }).unwrap();
    let m2 = w.spawn(Bundle { meter: Some(HealthMeter { id: Entity(500) }), ..bare() }).unwrap();
    let m3 = w.spawn(Bundle { meter: Some(HealthMeter { id: m1 }), ..bare() }).unwrap();
    assert_eq!(health_meter(&w), vec![m2, m3]);
    assert_eq!(collect_doomed(&w, Doom::StaleMeter), vec![m2, m3]);
    let mut ch = EventChannel::new();
    run_tick(&mut w, &mut ch, quiet(1));
    assert!(w.contains(m1));
    assert!(!w.contains(m2));
    assert!(!w.contains(m3));
}

#[test]
fn check_is_skipped_while_events_wait() {
    let mut w = World::new();
    let t = w.spawn(Bundle { position: at(0, 0), intersect: square(10), health: health(100), ..bare() }).unwrap();
    let z = w.spawn(Bundle { position: at(500, 500), intersect: square(10), zone: zone(3, None), ..bare() }).unwrap();
    let mut ch = EventChannel::new();
    ch.intersect.push(IntersectEvent { ab: (z, t) });
    assert!(!ch.intersect_empty());
    run_tick(&mut w, &mut ch, quiet(1));
    assert_eq!(hp(&w, t), 97);
    assert!(ch.intersect_empty());
    run_tick(&mut w, &mut ch, quiet(1));
    assert_eq!(hp(&w, t), 97);
}

#[test]
fn phases_run_in_fixed_order() {
    let mut s = GameSet::Check;
    let mut seen = vec![s.rank()];
    while let Some(n) = s.next() {
        seen.push(n.rank());
        s = n;
    }
    assert_eq!(seen, vec![0, 1, 2, 3, 4, 5]);
    assert_eq!(s, GameSet::Despawn);
    assert_eq!(GameSet::ContinousAction.next(), Some(GameSet::Apply));
}
