use cuicui::binding::{Local, SyncError, World};

#[test]
fn world_names_get_ids() {
    let mut world: World<u32> = World::default();
    assert_eq!(world.get_id("score"), None);
    let score = world.get_or_add("score");
    let name = world.get_or_add("name");
    assert_ne!(score, name);
    assert_eq!(score.get_value(), 1);
    assert_eq!(name.get_value(), 2);
    assert_eq!(world.get_or_add("score"), score);
    assert_eq!(world.get_id("score"), Some(score));
    assert_eq!(world.get_id("name"), Some(name));
}

#[test]
fn world_set_by_name() {
    let mut world: World<u32> = World::default();
    assert_eq!(world.set("score", 3), None);
    let score = world.get_or_add("score");
    assert_eq!(world.set("score", 3), Some(()));
    assert_eq!(world.view().get(score), Some(&3));
    assert_eq!(world.get_mut("score").map(|v| *v), Some(3));
    if let Some(value) = world.get_mut("score") {
        *value = 4;
    }
    assert_eq!(world.view().get(score), Some(&4));
    let other = world.get_or_add("other");
    assert_eq!(world.get_mut("other"), None);
    assert_eq!(world.view().get(other), None);
}

#[test]
fn world_set_neq_keeps_equal_values_unchanged() {
    let mut world: World<u32> = World::default();
    let score = world.get_or_add("score");
    world.set_id(score, 3);
    world.reset_changes();
    assert_eq!(world.set_neq("score", 3), Some(()));
    assert!(world.view().changed().is_empty());
    assert_eq!(world.set_neq("score", 5), Some(()));
    let changed: Vec<(u32, u32)> =
        world.view().changed().into_iter().map(|(id, v)| (id.get_value(), *v)).collect();
    assert_eq!(changed, vec![(score.get_value(), 5)]);
    assert_eq!(world.set_neq("nothing", 5), None);
}

#[test]
fn local_waits_for_sync() {
    let mut world: World<&str> = World::default();
    let score = world.get_or_add("score");
    let name = world.get_or_add("name");
    world.set_id(score, "global score");
    world.set_id(name, "global name");

    let mut local: Local<&str> = Local::default();
    local.set("score", "local score");
    assert_eq!(local.get_mut("score"), None);
    let view = world.view_with_local(&mut local).unwrap();
    assert_eq!(view.get(score), Some(&"local score"));
    assert_eq!(view.get(name), Some(&"global name"));

    local.set("score", "second score");
    assert_eq!(local.get_mut("score").map(|v| *v), Some("second score"));
}

#[test]
fn local_sync_stops_at_unknown_name() {
    let mut world: World<u32> = World::default();
    let known = world.get_or_add("known");
    let mut local: Local<u32> = Local::default();
    local.set("known", 1);
    local.set("unknown", 2);
    local.set("known", 3);
    assert_eq!(local.sync(&world), Err(SyncError::UnknownName));
    // The value before the unknown name is bound; the others are dropped.
    let view = world.view_with_local(&mut local).unwrap();
    assert_eq!(view.get(known), Some(&1));
    local.set("known", 5);
    assert_eq!(local.get_mut("known").map(|v| *v), Some(5));
}

#[test]
fn local_set_by_id_overlays_the_world() {
    let mut world: World<u32> = World::default();
    let score = world.get_or_add("score");
    world.set_id(score, 1);
    let mut local: Local<u32> = Local::default();
    local.set_by_id(score, 2);
    let view = world.view_with_local(&mut local).unwrap();
    assert_eq!(view.get(score), Some(&2));
    assert_eq!(world.view().get(score), Some(&1));
}
