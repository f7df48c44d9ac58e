use cuicui::tree::{
    content_name_chars, flatten_section, full_subsection, get_content, is_content, Binding, Dyn,
    Modifier, Section,
};

fn chars(text: &str) -> Vec<char> {
    text.chars().collect()
}

#[test]
fn free_section_holds_its_text() {
    let text = chars("hello");
    let section = Section::free(&text).unwrap();
    assert_eq!(section.modifiers.len(), 1);
    assert!(is_content(&section.modifiers[0]));
    assert_eq!(get_content(&section.modifiers[0]), Some(&text[..]));
    assert_eq!(section.modifiers[0].subsection_count, 1);
    assert!(Section::free(&[]).is_none());
}

#[test]
fn bound_text_is_no_content_value() {
    let binding = chars("score");
    let sections = Section::format(Binding::named(&binding));
    assert_eq!(sections.len(), 1);
    let m = sections[0].modifiers[0];
    assert!(is_content(&m));
    assert_eq!(m.value, Dyn::Dynamic(Binding::named(&binding[..])));
    match m.value {
        Dyn::Dynamic(b) => assert_eq!(b.path.binding(), &binding[..]),
        Dyn::Static(_) => unreachable!(),
    }
    assert_eq!(get_content(&m), None);
}

#[test]
fn flatten_stretches_modifiers_over_subsections() {
    let color = chars("Color");
    let red = chars("red");
    let a = chars("a");
    let b = chars("b");
    let modifiers = vec![Modifier::new(&color, Dyn::Static(&red))];
    let subsections = vec![Section::free(&a).unwrap(), Section::free(&b).unwrap()];
    let flat = flatten_section(modifiers, Some(subsections));
    assert_eq!(flat.len(), 2);
    assert_eq!(flat[0].modifiers.len(), 2);
    assert_eq!(get_content(&flat[0].modifiers[0]), Some(&a[..]));
    assert_eq!(flat[0].modifiers[1].name, &color[..]);
    assert_eq!(flat[0].modifiers[1].subsection_count, 2);
    assert_eq!(get_content(&flat[1].modifiers[0]), Some(&b[..]));
}

#[test]
fn flatten_without_subsections() {
    let color = chars("Color");
    let red = chars("red");
    let text = chars("text");
    let with_content = vec![
        Modifier::new(&color, Dyn::Static(&red)),
        Modifier::new(content_name_chars(), Dyn::Static(&text)),
    ];
    let flat = flatten_section(with_content, None);
    assert_eq!(flat.len(), 1);
    assert_eq!(flat[0].modifiers.len(), 2);
    assert!(flat[0].modifiers.iter().all(|m| m.subsection_count == 1));
    let without_content = vec![Modifier::new(&color, Dyn::Static(&red))];
    assert!(flatten_section(without_content, None).is_empty());
}

#[test]
fn full_subsection_puts_head_first() {
    let a = chars("a");
    let b = chars("b");
    let tail = vec![Section::free(&b).unwrap()];
    let full = full_subsection(Some(Section::free(&a).unwrap()), tail.clone());
    assert_eq!(full.len(), 2);
    assert_eq!(get_content(&full[0].modifiers[0]), Some(&a[..]));
    assert_eq!(full_subsection(None, tail.clone()), tail);
}
