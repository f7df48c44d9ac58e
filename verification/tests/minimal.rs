use cuicui::binding::Id;
use cuicui::resolve::evaluate::Action;
use cuicui::resolve::minimal::MinResolver;
use cuicui::resolve::{MakeModify, ModifyIndex};

fn value(range: std::ops::Range<u32>) -> MakeModify {
    MakeModify { range, depends: 0, changes: 1, binding: None }
}

fn bound(range: std::ops::Range<u32>, id: u32) -> MakeModify {
    MakeModify { range, depends: 0, changes: 1, binding: Id::new(id) }
}

fn action(index: u32, sections: Vec<u32>) -> Action {
    Action { index: ModifyIndex(index), sections, reset: false, bound: false }
}

#[test]
fn min_resolver_empty() {
    let (resolver, count, actions) = MinResolver::new(&[]);
    assert_eq!(count, 0);
    assert!(actions.is_empty());
    assert!(resolver.update(&[Id::new(1).unwrap()], 10).is_empty());
}

#[test]
fn min_resolver_values_and_bindings() {
    let mods = vec![
        value(0..2),
        bound(1..2, 1),
        bound(0..3, 2),
        value(3..5),
        bound(4..5, 1),
        bound(2..3, 3),
    ];
    let (resolver, count, actions) = MinResolver::new(&mods);
    assert_eq!(count, 5);
    assert_eq!(actions, vec![action(0, vec![0, 1]), action(3, vec![3, 4])]);

    let one = Id::new(1).unwrap();
    let two = Id::new(2).unwrap();
    let three = Id::new(3).unwrap();
    // The last section given to binding 1 wins; binding 2 spans more than
    // one section and is skipped.
    assert_eq!(resolver.update(&[one, two, three], 5), vec![(0, 4), (2, 2)]);
    assert_eq!(resolver.update(&[two], 5), vec![]);
    // Only sections below the item count are updated.
    assert_eq!(resolver.update(&[three, one], 4), vec![(0, 2)]);
    // A binding never given is not found.
    assert_eq!(resolver.update(&[Id::new(9).unwrap()], 5), vec![]);
}

#[test]
fn min_resolver_empty_value_range() {
    let (_, count, actions) = MinResolver::new(&[value(3..3)]);
    assert_eq!(count, 3);
    assert_eq!(actions, vec![action(0, vec![])]);
}
