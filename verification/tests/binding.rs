use cuicui::binding::{BindingMap, Entry, Id};
use cuicui::Index;

fn id(value: u32) -> Id {
    Id::new(value).unwrap()
}

#[test]
fn id_index() {
    assert!(Id::new(0).is_none());
    assert_eq!(id(1).get(), 0);
    assert_eq!(id(7).get(), 6);
    assert_eq!(id(7).get_value(), 7);
    assert_eq!(id(7).to_usize(), 6);
    assert_eq!(Id::try_from_usize(0), Some(id(1)));
    assert_eq!(Id::try_from_usize(41).map(|i| i.to_usize()), Some(41));
    assert_eq!(Id::try_from_usize(u32::MAX as usize), Some(id(u32::MAX)));
    assert_eq!(Id::try_from_usize(u32::MAX as usize + 1), None);
}

#[test]
fn map_insert_get() {
    let mut map = BindingMap::new();
    assert_eq!(map.len(), 0);
    map.set_id(id(3), "three");
    map.set_id(id(1), "one");
    map.insert(id(2), (false, "two"));
    assert_eq!(map.len(), 3);
    assert_eq!(map.get(id(1)), Some(&(true, "one")));
    assert_eq!(map.get(id(2)), Some(&(false, "two")));
    assert_eq!(map.get(id(4)), None);
    assert!(map.contains_key(id(3)));
    map.set_id(id(3), "THREE");
    assert_eq!(map.len(), 3);
    assert_eq!(map.get(id(3)), Some(&(true, "THREE")));
    map.reset_changes();
    assert_eq!(map.get(id(3)), Some(&(false, "THREE")));
    assert_eq!(map.get(id(1)), Some(&(false, "one")));
    if let Some(entry) = map.get_mut(id(1)) {
        *entry = (true, "uno");
    }
    assert_eq!(map.get(id(1)), Some(&(true, "uno")));
    assert!(map.get_mut(id(9)).is_none());
}

#[test]
fn view_overlay_first() {
    let mut root = BindingMap::new();
    root.set_id(id(1), 10);
    root.set_id(id(2), 20);
    root.set_id(id(4), 40);
    root.reset_changes();
    root.set_id(id(4), 41);
    let mut local = BindingMap::new();
    local.set_id(id(2), 200);
    local.set_id(id(3), 300);
    local.insert(id(4), (false, 400));

    let view = root.view();
    assert_eq!(view.get(id(2)), Some(&20));
    assert_eq!(view.get(id(3)), None);
    assert_eq!(view.changed(), vec![(id(4), &41)]);

    let view = root.view_with_local(&local);
    assert_eq!(view.get(id(1)), Some(&10));
    assert_eq!(view.get(id(2)), Some(&200));
    assert_eq!(view.get(id(3)), Some(&300));
    assert_eq!(view.get(id(4)), Some(&400));
    assert_eq!(view.get(id(5)), None);
    // Unchanged in the overlay, changed in the root: the root's value shows.
    assert_eq!(view.changed(), vec![(id(2), &200), (id(3), &300), (id(4), &41)]);
    let copy = view;
    assert_eq!(copy.get(id(2)), view.get(id(2)));
}

#[test]
fn entry_api() {
    let mut map: BindingMap<i32> = BindingMap::new();
    *map.entry(id(5)).or_insert(1) += 10;
    assert_eq!(map.get(id(5)), Some(&(true, 11)));
    map.reset_changes();
    *map.entry(id(5)).or_insert(1) += 10;
    assert_eq!(map.get(id(5)), Some(&(true, 21)));
    assert_eq!(*map.entry(id(6)).or_insert_with(|| 6), 6);
    assert_eq!(*map.entry(id(6)).or_insert_with(|| 60), 6);
    assert_eq!(*map.entry(id(7)).or_default(), 0);
    assert_eq!(*map.entry(id(6)).insert(66), 66);
    assert_eq!(*map.entry(id(8)).insert(8), 8);
    assert!(matches!(map.entry(id(9)), Entry::Vacant(_, _)));
    assert!(matches!(map.entry(id(8)), Entry::Occupied(_)));
    assert_eq!(map.len(), 4);
    assert_eq!(map.get(id(6)), Some(&(true, 66)));

    let mut other: BindingMap<i32> = BindingMap::new();
    *Entry::new(&mut other, id(1)).or_insert(3) *= 2;
    assert_eq!(other.get(id(1)), Some(&(true, 6)));
}

#[test]
fn entry_modify_changes_occupied_only() {
    let mut map: BindingMap<i32> = BindingMap::new();
    map.set_id(id(1), 10);
    let v = map.entry(id(1)).modify(|v| *v += 5).or_insert(0);
    assert_eq!(*v, 15);
    let v = map.entry(id(2)).modify(|v| *v += 5).or_insert(7);
    assert_eq!(*v, 7);
    assert_eq!(map.get(id(1)), Some(&(true, 15)));
    assert_eq!(map.get(id(2)), Some(&(true, 7)));
}
