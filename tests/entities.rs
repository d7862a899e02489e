use rebound::contact::{embed_target, CollisionProp};
use rebound::store::Store;
use rebound::unique_store::Key;

#[derive(Clone, Copy, Debug, PartialEq)]
enum Kind {
    Player,
}

type World = Store<Kind, (f32, f32), f32, u32>;

#[test]
fn terrain_contact_targets_the_entity() {
    let mut store: World = Store::new((0.0, 0.0), 1.0);
    let player = store.create_physical_entity(Kind::Player);
    assert_eq!(embed_target(CollisionProp::Entity(player), CollisionProp::Terrain), Some(player));
    assert_eq!(embed_target(CollisionProp::Terrain, CollisionProp::Entity(player)), Some(player));
}

/// Feeds contacts that started this frame into the embed accumulators, each
/// with the penetration vector the engine reported for it.
fn record_contacts(store: &mut World, contacts: &[(CollisionProp, CollisionProp, (f32, f32))]) {
    for (a, b, penetration) in contacts {
        store.record_contact(*a, *b, &vec![*penetration], |e, p| (e.0 + p.0, e.1 + p.1));
    }
}

#[test]
fn entity_entity_contact_corrects_nothing() {
    let mut store: World = Store::new((0.0, 0.0), 1.0);
    let a = store.create_physical_entity(Kind::Player);
    let b = store.create_physical_entity(Kind::Player);
    assert_eq!(embed_target(CollisionProp::Entity(a), CollisionProp::Entity(b)), None);
    assert_eq!(embed_target(CollisionProp::Terrain, CollisionProp::Terrain), None);
    store.embed.iter_mut(|_, _| (0.0, 0.0));
    record_contacts(
        &mut store,
        &[
            (CollisionProp::Entity(a), CollisionProp::Entity(b), (0.01, 0.0)),
            (CollisionProp::Entity(b), CollisionProp::Entity(a), (-0.01, 0.0)),
        ],
    );
    assert_eq!(store.embed.get(a), Some(&(0.0, 0.0)));
    assert_eq!(store.embed.get(b), Some(&(0.0, 0.0)));
}

#[test]
fn terrain_contacts_sum_into_the_entity_embed() {
    let mut store: World = Store::new((0.0, 0.0), 1.0);
    let player = store.create_physical_entity(Kind::Player);
    let other = store.create_physical_entity(Kind::Player);
    record_contacts(
        &mut store,
        &[
            (CollisionProp::Entity(player), CollisionProp::Terrain, (0.5, 0.0)),
            (CollisionProp::Terrain, CollisionProp::Entity(player), (0.0, 0.25)),
            (CollisionProp::Entity(player), CollisionProp::Entity(other), (1.0, 1.0)),
        ],
    );
    assert_eq!(store.embed.get(player), Some(&(0.5, 0.25)));
    assert_eq!(store.embed.get(other), Some(&(0.0, 0.0)));
}

#[test]
fn new_entity_starts_at_rest() {
    let mut store: World = Store::new((0.0, 0.0), 1.0);
    let k = store.create_physical_entity(Kind::Player);
    assert_eq!(store.types.get(k), Some(&Kind::Player));
    assert_eq!(store.velocity.get(k), Some(&(0.0, 0.0)));
    assert_eq!(store.acceleration.get(k), Some(&(0.0, 0.0)));
    assert_eq!(store.friction.get(k), Some(&1.0));
    assert_eq!(store.embed.get(k), Some(&(0.0, 0.0)));
    assert_eq!(store.bounds.get(k), None);
    assert_eq!(store.velocity_cap.get(k), None);
    let other = store.create_physical_entity(Kind::Player);
    assert_ne!(k, other);
    assert_eq!(store.velocity.iter().len(), 2);
}

fn clamp(v: f32, cap: f32) -> f32 {
    v.max(-cap).min(cap)
}

/// Runs the integration part of one frame with the "+X" input held.
fn integrate(store: &mut World, player: Key) {
    store.set_acceleration(player, &vec![(0.003, 0.0)], |t, i| (t.0 + i.0, t.1 + i.1));
    store.integrate_velocity(
        |_, v, a| (v.0 + a.0, v.1 + a.1),
        |_, v, f| (v.0 * f, v.1 * f),
        |_, v, c| (clamp(v.0, c.0), clamp(v.1, c.1)),
    );
}

#[test]
fn held_input_accelerates_under_friction_and_cap() {
    let mut store: World = Store::new((0.0, 0.0), 1.0);
    let player = store.create_physical_entity(Kind::Player);
    *store.friction.get_mut(player).unwrap() = 0.9;
    store.velocity_cap.insert(player, (0.06, 0.15));
    integrate(&mut store, player);
    let v = *store.velocity.get(player).unwrap();
    assert!((v.0 - 0.0027).abs() < 1e-7);
    assert_eq!(v.1, 0.0);
    for _ in 0..500 {
        integrate(&mut store, player);
        assert!(store.velocity.get(player).unwrap().0 <= 0.06);
    }
}

#[test]
fn integration_passes_run_in_order_and_skip_missing_entries() {
    let mut store: Store<Kind, i64, i64, u32> = Store::new(0, 1);
    let capped = store.create_physical_entity(Kind::Player);
    let free = store.create_physical_entity(Kind::Player);
    *store.acceleration.get_mut(capped).unwrap() = 7;
    *store.acceleration.get_mut(free).unwrap() = 7;
    *store.friction.get_mut(capped).unwrap() = 3;
    *store.friction.get_mut(free).unwrap() = 3;
    store.velocity_cap.insert(capped, 10);
    store.acceleration.remove(free);
    store.integrate_velocity(|_, v, a| v + a, |_, v, f| v * f, |_, v, c| v.min(c).max(-c));
    // capped: (0 + 7) * 3 = 21, clamped to 10; free: no acceleration, 0 * 3 = 0.
    assert_eq!(store.velocity.get(capped), Some(&10));
    assert_eq!(store.velocity.get(free), Some(&0));
    store.integrate_velocity(|_, v, a| v + a, |_, v, f| v * f, |_, v, c| v.min(c).max(-c));
    assert_eq!(store.velocity.get(capped), Some(&10));
}

#[test]
fn several_penetrations_of_one_contact_all_add_up() {
    let mut store: Store<Kind, i64, i64, u32> = Store::new(0, 1);
    let player = store.create_physical_entity(Kind::Player);
    store.record_contact(CollisionProp::Terrain, CollisionProp::Entity(player), &vec![3, 4, -2], |e, p| e + p);
    assert_eq!(store.embed.get(player), Some(&5));
}

#[test]
fn contact_for_entity_without_embed_entry_is_skipped() {
    let mut store: Store<Kind, i64, i64, u32> = Store::new(0, 1);
    let player = store.create_physical_entity(Kind::Player);
    store.embed.remove(player);
    store.record_contact(CollisionProp::Entity(player), CollisionProp::Terrain, &vec![3], |e, p| e + p);
    assert_eq!(store.embed.get(player), None);
    assert!(store.embed.iter().is_empty());
}

#[test]
fn opposing_inputs_cancel_and_acceleration_restarts_each_frame() {
    let mut store: Store<Kind, i64, i64, u32> = Store::new(0, 1);
    let player = store.create_physical_entity(Kind::Player);
    let other = store.create_physical_entity(Kind::Player);
    store.set_acceleration(player, &vec![3], |t, i| t + i);
    assert_eq!(store.acceleration.get(player), Some(&3));
    store.set_acceleration(player, &vec![3, -3], |t, i| t + i);
    assert_eq!(store.acceleration.get(player), Some(&0));
    store.set_acceleration(player, &vec![], |t, i| t + i);
    assert_eq!(store.acceleration.get(player), Some(&0));
    assert_eq!(store.acceleration.get(other), Some(&0));
}
