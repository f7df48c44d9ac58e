use cuicui::binding::world::World;
use cuicui::post_process::finish::{FinishError, Hook, HookFormat};
use cuicui::post_process::styleable::{Modifier, Section, Styleable};
use cuicui::tree::{self, Dyn};

fn chars(s: &str) -> Vec<char> {
    s.chars().collect()
}

#[test]
fn finish_makes_modifiers() {
    let content = chars("Content");
    let color = chars("Color");
    let font = chars("Font");
    let text = chars("a\\{b");
    let empty: Vec<char> = vec![];
    let bound = chars("fg");
    let res = chars("Time");
    let path = chars(".seconds");
    let full = chars("Res.Time.seconds");
    let fmt = chars("clock");
    let watched = tree::Binding {
        path: tree::Path::Source(tree::Source { query: tree::Query::Res(&res), reflect_path: &path, binding: &full }),
        format: Some(tree::Format::UserDefined(&fmt)),
    };
    let sections = vec![
        Section(
            tree::Section {
                modifiers: vec![
                    tree::Modifier { name: &content, value: Dyn::Static(&text), subsection_count: 1 },
                    tree::Modifier { name: &color, value: Dyn::Dynamic(tree::Binding::named(&bound)), subsection_count: 2 },
                ],
            },
            vec![Modifier { influence: 2, inner: 7u32 }],
        ),
        Section(
            tree::Section {
                modifiers: vec![
                    tree::Modifier { name: &font, value: Dyn::Dynamic(watched), subsection_count: 1 },
                    tree::Modifier { name: &content, value: Dyn::Static(&empty), subsection_count: 1 },
                ],
            },
            vec![],
        ),
    ];
    let styleable = Styleable { sections };
    let mut world: World<u32> = World::default();
    let mut seen: Vec<(String, String)> = Vec::new();
    let mut hooks: Vec<Hook> = Vec::new();
    let result = styleable.finish(
        &mut world,
        &mut hooks,
        |name: &[char], value: &[char]| {
            seen.push((name.iter().collect(), value.iter().collect()));
            if value.is_empty() { Err("empty".to_string()) } else { Ok(value.len() as u32) }
        },
        |name: &[char]| if name == ['C', 'o', 'l', 'o', 'r'] { Some((1, 2)) } else { None },
        |m: &u32| (*m as u64, 8),
    );
    assert_eq!(seen, vec![("Content".to_string(), "a{b".to_string()), ("Content".to_string(), String::new())]);
    assert_eq!(result.len(), 5);
    let first = result[0].as_ref().unwrap();
    assert_eq!((first.0.range.clone(), first.0.depends, first.0.changes, first.0.binding, first.1), (0..1, 3, 8, None, Some(3)));
    let id = world.get_id("fg").unwrap();
    let second = result[1].as_ref().unwrap();
    assert_eq!((second.0.range.clone(), second.0.depends, second.0.changes, second.0.binding, second.1), (0..2, 1, 2, Some(id), None));
    let third = result[2].as_ref().unwrap();
    assert_eq!((third.0.range.clone(), third.0.depends, third.0.changes, third.0.binding, third.1), (0..2, 7, 8, None, Some(7)));
    assert_eq!(result[3].as_ref().err(), Some(&FinishError::NotAModifier));
    let clock = world.get_id("clock").unwrap();
    assert!(world.get_id("Res.Time.seconds").is_some());
    assert_eq!(hooks.len(), 1);
    assert_eq!(hooks[0].format, Some(HookFormat::UserDefined(clock)));
    assert_eq!(hooks[0].source.binding, &full[..]);
    assert_eq!(result[4].as_ref().err(), Some(&FinishError::Parse("empty".to_string())));
}
