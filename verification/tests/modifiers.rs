use cuicui::modifiers::{DynamicReadWrite, Mode, Modifiers, Modify, ModifyType, ValidateError};

fn modify(ty: ModifyType, ident: &str) -> Modify {
    Modify { ty, ident: ident.to_string() }
}

fn arg(name: &str) -> Option<String> {
    Some(name.to_string())
}

fn dynamic() -> DynamicReadWrite {
    DynamicReadWrite { read: "reads".to_string(), write: "writes".to_string(), param_name: "item".to_string() }
}

#[test]
fn modify_kinds() {
    let write = modify(ModifyType::Write, "");
    let read_write = modify(ModifyType::ReadWrite, "x");
    let context = modify(ModifyType::Context, "ctx");
    assert!(write.is_write() && !write.is_read() && !write.requires_identifier());
    assert!(read_write.is_write() && read_write.is_read() && read_write.requires_identifier());
    assert!(!context.is_write() && context.is_read());
    assert!(modify(ModifyType::WriteMut, "w").is_write());
    assert!(read_write.has_ident(&"x".to_string()));
    assert!(!read_write.has_ident(&"y".to_string()));
}

#[test]
fn validate_no_output() {
    let mods = Modifiers { mods: vec![modify(ModifyType::Read, "a")], dynamic: None };
    assert_eq!(mods.validate(&[arg("a")]), Err(ValidateError::NoOutput));
    let mods = Modifiers { mods: vec![modify(ModifyType::Read, "a")], dynamic: Some(dynamic()) };
    assert_eq!(mods.validate(&[arg("a")]), Ok(()));
}

#[test]
fn validate_non_ident_input() {
    let mods = Modifiers { mods: vec![modify(ModifyType::Write, "")], dynamic: None };
    assert_eq!(mods.validate(&[arg("a"), None, None]), Err(ValidateError::NonIdentInput(1)));
    assert_eq!(mods.validate(&[]), Ok(()));
}

#[test]
fn validate_missing_argument() {
    let mods = Modifiers {
        mods: vec![
            modify(ModifyType::Write, ""),
            modify(ModifyType::Read, "a"),
            modify(ModifyType::ReadWrite, "b"),
        ],
        dynamic: None,
    };
    assert_eq!(mods.validate(&[arg("b"), arg("a"), arg("state")]), Ok(()));
    assert_eq!(mods.validate(&[arg("b")]), Err(ValidateError::MissingArgument(1)));
    assert_eq!(mods.validate(&[arg("a")]), Err(ValidateError::MissingArgument(2)));
    // Only the first attribute passed as an argument is matched by it.
    let twice = Modifiers {
        mods: vec![modify(ModifyType::WriteMut, "a"), modify(ModifyType::Read, "a")],
        dynamic: None,
    };
    assert_eq!(twice.validate(&[arg("a")]), Err(ValidateError::MissingArgument(1)));
}

#[test]
fn constructor_input() {
    let mods = Modifiers { mods: vec![modify(ModifyType::Read, "a")], dynamic: Some(dynamic()) };
    assert!(!mods.is_constructor_input(&arg("a")));
    assert!(!mods.is_constructor_input(&arg("item")));
    assert!(mods.is_constructor_input(&arg("state")));
}

#[test]
fn dynamic_fields() {
    let with = Modifiers { mods: vec![], dynamic: Some(dynamic()) };
    assert_eq!(with.dynamic_fields(), vec!["reads", "writes"]);
    assert_eq!(with.dynamic_field(Mode::Read).map(|s| s.as_str()), Some("reads"));
    assert_eq!(with.dynamic_field(Mode::Write).map(|s| s.as_str()), Some("writes"));
    let without = Modifiers { mods: vec![], dynamic: None };
    assert!(without.dynamic_fields().is_empty());
    assert_eq!(without.dynamic_field(Mode::Read), None);
}
