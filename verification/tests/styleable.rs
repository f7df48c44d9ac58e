use cuicui::post_process::styleable::{Section, Styleable};
use cuicui::post_process::Split;
use cuicui::tree::{self, Dyn};
use std::cell::RefCell;
use std::rc::Rc;

/// A modifier as a plain value: name, static value or binding, range.
#[derive(Debug, PartialEq)]
enum Value {
    Static(String),
    Bound(String),
}

fn text(chars: &[char]) -> String {
    chars.iter().collect()
}

fn describe(section: &Section<'_, u32>) -> (Vec<(String, Value, usize)>, Vec<(usize, u32)>) {
    let native = section
        .0
        .modifiers
        .iter()
        .map(|m| {
            let value = match m.value {
                Dyn::Static(v) => Value::Static(text(v)),
                Dyn::Dynamic(v) => Value::Bound(text(v.path.binding())),
            };
            (text(m.name), value, m.subsection_count)
        })
        .collect();
    let extend = section.1.iter().map(|m| (m.influence, m.inner)).collect();
    (native, extend)
}

fn content(value: &str) -> (String, Value, usize) {
    ("Content".to_string(), Value::Static(value.to_string()), 1)
}

#[test]
fn split_by_word_stretches_modifiers() {
    let name: Vec<char> = "Content".chars().collect();
    let color: Vec<char> = "Color".chars().collect();
    let red: Vec<char> = "red".chars().collect();
    let hello: Vec<char> = "hello world".chars().collect();
    let sections = vec![tree::Section {
        modifiers: vec![
            tree::Modifier { name: &name, value: Dyn::Static(&hello), subsection_count: 1 },
            tree::Modifier { name: &color, value: Dyn::Static(&red), subsection_count: 1 },
        ],
    }];
    let styled: Styleable<u32> = Styleable::new(sections).split(Split::ByWord);
    let got: Vec<_> = styled.sections.iter().map(describe).collect();
    assert_eq!(
        got,
        vec![
            (
                vec![content("hello "), ("Color".to_string(), Value::Static("red".to_string()), 2)],
                vec![]
            ),
            (vec![content("world")], vec![]),
        ]
    );
}

#[test]
fn split_by_char_stretches_earlier_ranges() {
    let name: Vec<char> = "Content".chars().collect();
    let size: Vec<char> = "Size".chars().collect();
    let big: Vec<char> = "big".chars().collect();
    let ab: Vec<char> = "ab".chars().collect();
    let cd: Vec<char> = "cd".chars().collect();
    let sections = vec![
        tree::Section {
            modifiers: vec![
                tree::Modifier { name: &name, value: Dyn::Static(&ab), subsection_count: 1 },
                tree::Modifier { name: &size, value: Dyn::Static(&big), subsection_count: 2 },
            ],
        },
        tree::Section {
            modifiers: vec![tree::Modifier {
                name: &name,
                value: Dyn::Static(&cd),
                subsection_count: 1,
            }],
        },
    ];
    let styled: Styleable<u32> = Styleable::new(sections).split(Split::ByChar);
    let got: Vec<_> = styled.sections.iter().map(describe).collect();
    assert_eq!(
        got,
        vec![
            (
                vec![content("a"), ("Size".to_string(), Value::Static("big".to_string()), 4)],
                vec![]
            ),
            (vec![content("b")], vec![]),
            (vec![content("c")], vec![]),
            (vec![content("d")], vec![]),
        ]
    );
}

#[test]
fn split_leaves_bound_text() {
    let name: Vec<char> = "Content".chars().collect();
    let binding: Vec<char> = "score".chars().collect();
    let sections = vec![tree::Section {
        modifiers: vec![tree::Modifier {
            name: &name,
            value: Dyn::Dynamic(tree::Binding::named(&binding)),
            subsection_count: 1,
        }],
    }];
    let styled: Styleable<u32> = Styleable::new(sections).split(Split::ByChar);
    let got: Vec<_> = styled.sections.iter().map(describe).collect();
    assert_eq!(
        got,
        vec![(
            vec![("Content".to_string(), Value::Bound("score".to_string()), 1)],
            vec![]
        )]
    );
}

#[test]
fn chop_adds_a_modifier_per_piece() {
    let name: Vec<char> = "Content".chars().collect();
    let rainbow: Vec<char> = "Rainbow".chars().collect();
    let speed: Vec<char> = "fast".chars().collect();
    let ab: Vec<char> = "ab".chars().collect();
    let cd: Vec<char> = "c d".chars().collect();
    let sections = vec![
        tree::Section {
            modifiers: vec![
                tree::Modifier { name: &name, value: Dyn::Static(&ab), subsection_count: 1 },
                tree::Modifier { name: &rainbow, value: Dyn::Static(&speed), subsection_count: 2 },
            ],
        },
        tree::Section {
            modifiers: vec![tree::Modifier {
                name: &name,
                value: Dyn::Static(&cd),
                subsection_count: 1,
            }],
        },
    ];
    let calls: Rc<RefCell<Vec<(String, usize)>>> = Rc::new(RefCell::new(Vec::new()));
    let seen = Rc::clone(&calls);
    let counter = move |value: &[char], count: usize| {
        let mut seen = seen.borrow_mut();
        seen.push((text(value), count));
        seen.len() as u32 - 1
    };
    let styled: Styleable<u32> = Styleable::new(sections).chop(Split::ByChar, &rainbow, counter);
    let got: Vec<_> = styled.sections.iter().map(describe).collect();
    assert_eq!(
        got,
        vec![
            (vec![content("a")], vec![(1, 0)]),
            (vec![content("b")], vec![(1, 1)]),
            (vec![content("c")], vec![(1, 2)]),
            (vec![content(" ")], vec![(1, 3)]),
            (vec![content("d")], vec![(1, 4)]),
        ]
    );
    assert_eq!(*calls.borrow(), vec![("fast".to_string(), 5); 5]);
}

#[test]
fn alias_replaces_a_modifier_by_others() {
    let name: Vec<char> = "Content".chars().collect();
    let bleepoo: Vec<char> = "Bleepoo".chars().collect();
    let zooba: Vec<char> = "Zooba".chars().collect();
    let whoop: Vec<char> = "whoop_whoop".chars().collect();
    let bazinga: Vec<char> = "Bazinga".chars().collect();
    let hi: Vec<char> = "hi".chars().collect();
    let x: Vec<char> = "x".chars().collect();
    let y: Vec<char> = "y".chars().collect();
    let bound: Vec<char> = "bound".chars().collect();
    let sections = vec![
        tree::Section {
            modifiers: vec![
                tree::Modifier { name: &name, value: Dyn::Static(&hi), subsection_count: 1 },
                tree::Modifier { name: &bleepoo, value: Dyn::Static(&x), subsection_count: 2 },
                tree::Modifier { name: &bleepoo, value: Dyn::Static(&y), subsection_count: 1 },
            ],
        },
        tree::Section {
            modifiers: vec![tree::Modifier {
                name: &bleepoo,
                value: Dyn::Dynamic(tree::Binding::named(&bound)),
                subsection_count: 1,
            }],
        },
    ];
    let calls: Rc<RefCell<Vec<String>>> = Rc::new(RefCell::new(Vec::new()));
    let seen = Rc::clone(&calls);
    let zooba_name: &[char] = &zooba;
    let whoop_value: &[char] = &whoop;
    let bazinga_name: &[char] = &bazinga;
    let tree = tree::Tree { sections };
    let styled: Styleable<u32> = tree.transform().alias(&bleepoo, move |value| {
        seen.borrow_mut().push(text(value));
        vec![(zooba_name, whoop_value), (bazinga_name, value)]
    });
    let got: Vec<_> = styled.sections.iter().map(describe).collect();
    assert_eq!(
        got,
        vec![
            (
                vec![
                    content("hi"),
                    ("Zooba".to_string(), Value::Static("whoop_whoop".to_string()), 2),
                    ("Bazinga".to_string(), Value::Static("x".to_string()), 2),
                ],
                vec![]
            ),
            (vec![], vec![]),
        ]
    );
    assert_eq!(*calls.borrow(), vec!["x".to_string()]);
}

#[test]
fn alias_mods_adds_modifiers_with_the_alias_range() {
    let name: Vec<char> = "Content".chars().collect();
    let pulse: Vec<char> = "Pulse".chars().collect();
    let hi: Vec<char> = "hi".chars().collect();
    let two: Vec<char> = "2".chars().collect();
    let sections = vec![
        tree::Section {
            modifiers: vec![
                tree::Modifier { name: &pulse, value: Dyn::Static(&two), subsection_count: 3 },
                tree::Modifier { name: &name, value: Dyn::Static(&hi), subsection_count: 1 },
            ],
        },
        tree::Section {
            modifiers: vec![tree::Modifier { name: &name, value: Dyn::Static(&hi), subsection_count: 1 }],
        },
    ];
    let producer = |value: &[char]| {
        let n: u32 = text(value).parse().unwrap();
        vec![n * 10, n * 10 + 1]
    };
    let styled: Styleable<u32> = Styleable::new(sections).alias_mods(&pulse, producer);
    let got: Vec<_> = styled.sections.iter().map(describe).collect();
    assert_eq!(
        got,
        vec![(vec![content("hi")], vec![(3, 20), (3, 21)]), (vec![content("hi")], vec![]),]
    );
}

#[test]
fn try_split_refuses_an_empty_text() {
    let name: Vec<char> = "Content".chars().collect();
    let empty: Vec<char> = Vec::new();
    let sections = vec![tree::Section {
        modifiers: vec![tree::Modifier { name: &name, value: Dyn::Static(&empty), subsection_count: 1 }],
    }];
    let styled: Option<Styleable<u32>> = Styleable::new(sections).try_split(Split::ByChar);
    assert!(styled.is_none());
}

#[test]
fn try_chop_refuses_a_range_past_the_end() {
    let name: Vec<char> = "Content".chars().collect();
    let rainbow: Vec<char> = "Rainbow".chars().collect();
    let fast: Vec<char> = "fast".chars().collect();
    let ab: Vec<char> = "ab".chars().collect();
    let sections = vec![tree::Section {
        modifiers: vec![
            tree::Modifier { name: &name, value: Dyn::Static(&ab), subsection_count: 1 },
            tree::Modifier { name: &rainbow, value: Dyn::Static(&fast), subsection_count: 3 },
        ],
    }];
    let styled: Option<Styleable<u32>> =
        Styleable::new(sections).try_chop(Split::ByChar, &rainbow, |_: &[char], count: usize| count as u32);
    assert!(styled.is_none());
}

#[test]
fn try_split_splits_like_split() {
    let name: Vec<char> = "Content".chars().collect();
    let hello: Vec<char> = "hi you".chars().collect();
    let make = || {
        vec![tree::Section {
            modifiers: vec![tree::Modifier { name: &name, value: Dyn::Static(&hello), subsection_count: 1 }],
        }]
    };
    let a: Styleable<u32> = Styleable::new(make()).split(Split::ByWord);
    let b: Styleable<u32> = Styleable::new(make()).try_split(Split::ByWord).unwrap();
    let a: Vec<_> = a.sections.iter().map(describe).collect();
    let b: Vec<_> = b.sections.iter().map(describe).collect();
    assert_eq!(a, b);
    assert_eq!(a.len(), 2);
}

#[test]
fn splitting_keeps_the_text() {
    let name: Vec<char> = "Content".chars().collect();
    let size: Vec<char> = "Size".chars().collect();
    let big: Vec<char> = "big".chars().collect();
    let first: Vec<char> = "one two\nthree".chars().collect();
    let second: Vec<char> = " four five".chars().collect();
    let make = || {
        vec![
            tree::Section {
                modifiers: vec![
                    tree::Modifier { name: &size, value: Dyn::Static(&big), subsection_count: 2 },
                    tree::Modifier { name: &name, value: Dyn::Static(&first), subsection_count: 1 },
                ],
            },
            tree::Section {
                modifiers: vec![tree::Modifier {
                    name: &name,
                    value: Dyn::Static(&second),
                    subsection_count: 1,
                }],
            },
        ]
    };
    let whole = |styled: &Styleable<u32>| -> String {
        styled
            .sections
            .iter()
            .flat_map(|s| s.0.modifiers.iter().find_map(tree::get_content))
            .flat_map(|t| t.iter())
            .collect()
    };
    for split in [Split::ByWord, Split::ByChar, Split::ByLine] {
        let styled: Styleable<u32> = Styleable::new(make()).split(split);
        assert_eq!(whole(&styled), "one two\nthree four five");
    }
    let by_line: Styleable<u32> = Styleable::new(make()).split(Split::ByLine);
    assert_eq!(by_line.sections.len(), 3);
    // The size modifier spanned both sections; it spans the pieces of the first.
    assert_eq!(by_line.sections[0].0.modifiers[0].subsection_count, 3);
}
