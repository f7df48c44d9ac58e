use cuicui::modifiers::block::{
    read_items, AssociatedTypes, BlockError, Config, ConfigOption, ImplItemKind, UnrecognizedOption,
};
use cuicui::modifiers::{Modifiers, Modify, ModifyType, ValidateError};
use cuicui::modifiers::path::{parse_components, BracketContent, Component, PathError, PathToken};

fn ident(s: &str) -> PathToken {
    PathToken::Ident(s.to_string())
}

#[test]
fn path_components_all_kinds() {
    let tokens = vec![
        PathToken::Dot,
        ident("gee"),
        PathToken::Dot,
        PathToken::Index(0),
        PathToken::Bracket(BracketContent::Str("to".to_string())),
        PathToken::Bracket(BracketContent::Int("3".to_string())),
    ];
    assert_eq!(
        parse_components(&tokens),
        Ok(vec![
            Component::Field("gee".to_string()),
            Component::TupleField(0),
            Component::StringIndex("to".to_string()),
            Component::IntIndex("3".to_string()),
        ])
    );
}

#[test]
fn path_components_errors() {
    assert_eq!(parse_components(&[]), Err(PathError::Empty));
    assert_eq!(parse_components(&[ident("x")]), Err(PathError::Empty));
    assert_eq!(parse_components(&[PathToken::Dot]), Err(PathError::NotAnIndex(1)));
    assert_eq!(
        parse_components(&[PathToken::Dot, ident("a"), PathToken::Dot, PathToken::Other]),
        Err(PathError::NotAnIndex(3))
    );
    assert_eq!(
        parse_components(&[PathToken::Bracket(BracketContent::Other)]),
        Err(PathError::InvalidSpecifier(0))
    );
    assert_eq!(
        parse_components(&[PathToken::Dot, ident("a"), ident("b")]),
        Err(PathError::Unexpected(2))
    );
}

fn ty(s: &str) -> ImplItemKind {
    ImplItemKind::Type(s.to_string())
}

fn writer() -> ImplItemKind {
    let mods = Modifiers { mods: vec![Modify { ty: ModifyType::Write, ident: String::new() }], dynamic: None };
    ImplItemKind::Fn(Some(mods), vec![Some("state".to_string())])
}

#[test]
fn block_items_ok() {
    let items = vec![ty("Context"), writer(), ty("Item"), ty("Items"), ty("Item"), ty("Resolver")];
    assert_eq!(
        read_items(true, &items),
        Ok(AssociatedTypes { context: 0, item: 4, items: 3, resolver: Some(5), make_item: None })
    );
}

#[test]
fn block_items_errors() {
    let items = vec![ty("Context"), ImplItemKind::Other, ty("Item"), ty("Foo"), ty("Items")];
    assert_eq!(read_items(true, &items), Err(vec![BlockError::BadItem(1), BlockError::BadItem(3)]));
    assert_eq!(read_items(true, &[ty("Item"), ty("Items")]), Err(vec![BlockError::NoContext]));
    assert_eq!(read_items(true, &[ty("Context"), ty("Items")]), Err(vec![BlockError::NoItem]));
    assert_eq!(read_items(true, &[ty("Context"), ty("Item"), writer()]), Err(vec![BlockError::NoItems]));
    assert_eq!(read_items(false, &[ImplItemKind::Other]), Err(vec![BlockError::GenericSelf]));
    let reader = Modifiers { mods: vec![Modify { ty: ModifyType::Read, ident: "a".to_string() }], dynamic: None };
    let items = vec![
        ty("Context"),
        ImplItemKind::Fn(Some(reader), vec![Some("a".to_string())]),
        ImplItemKind::Fn(None, vec![]),
        ty("Item"),
        ty("Items"),
    ];
    assert_eq!(
        read_items(true, &items),
        Err(vec![BlockError::BadFn(1, ValidateError::NoOutput), BlockError::BadAttributes(2)])
    );
}

#[test]
fn config_options() {
    let mut config = Config::default();
    assert_eq!(config.fab_path, "::cuicui_fab");
    assert_eq!(config.enumset_crate, "enumset");
    assert_eq!(config.visibility, "pub");
    assert!(!config.no_debug_derive && !config.no_clone_derive);
    assert_eq!(config.parse(ConfigOption::NoDerive(vec!["Clone".to_string()])), Ok(()));
    assert!(config.no_clone_derive && !config.no_debug_derive);
    assert_eq!(config.parse(ConfigOption::FabPath("crate::fab".to_string())), Ok(()));
    assert_eq!(config.fab_path, "crate::fab");
    let before = config.clone();
    assert_eq!(config.parse(ConfigOption::Unrecognized), Err(UnrecognizedOption));
    assert_eq!(config, before);
}
