use cuicui::reflect_path::atom::{Atom, AtomicAccess, Found};
use cuicui::reflect_path::parse::{parse_path, parse_usize, PathParser, Token};
use cuicui::reflect_path::{Access, Path};

fn path(text: &str) -> Path<'_> {
    parse_path(text).unwrap()
}

#[test]
fn parse_fields_and_indices() {
    let p = path(".tuple.1");
    assert_eq!(p.0, vec![Access::Field(b"tuple"), Access::TupleIndex(1)]);

    let p = path(".y[0].baz");
    assert_eq!(
        p.0,
        vec![Access::Field(b"y"), Access::ArrayIndex(0), Access::Field(b"baz")]
    );

    let p = path("x.unit_variant");
    assert_eq!(p.0, vec![Access::Field(b"x"), Access::Field(b"unit_variant")]);

    let p = path(".array[2]");
    assert_eq!(p.0, vec![Access::Field(b"array"), Access::ArrayIndex(2)]);

    let p = path("");
    assert!(p.0.is_empty());
}

#[test]
fn parse_index_like_std() {
    assert_eq!(parse_usize(b"0"), Some(0));
    assert_eq!(parse_usize(b"007"), Some(7));
    assert_eq!(parse_usize(b"+12"), Some(12));
    assert_eq!(parse_usize(b"+"), None);
    assert_eq!(parse_usize(b""), None);
    assert_eq!(parse_usize(b"-1"), None);
    assert_eq!(parse_usize(b"1a"), None);
    assert_eq!(parse_usize(b"18446744073709551615"), Some(usize::MAX));
    assert_eq!(parse_usize(b"18446744073709551616"), None);
    for text in ["0", "42", "+3", "", "+", "x", "99999999999999999999"] {
        assert_eq!(parse_usize(text.as_bytes()), text.parse::<usize>().ok(), "{text}");
    }
}

#[test]
fn parse_rejects_malformed() {
    assert!(parse_path(".").is_none());
    assert!(parse_path("a.").is_none());
    assert!(parse_path("[x]").is_none());
    assert!(parse_path("]").is_none());
    assert!(parse_path(".[0]").is_none());
    assert!(parse_path("[]").is_none());
}

#[test]
fn parse_tuple_index_and_field() {
    let p = path(".0.1.+2.a1");
    assert_eq!(
        p.0,
        vec![
            Access::TupleIndex(0),
            Access::TupleIndex(1),
            Access::TupleIndex(2),
            Access::Field(b"a1")
        ]
    );
}

#[test]
fn parser_tokens() {
    let mut parser = PathParser::new(b".ab[3]");
    assert_eq!(parser.next_token(), Some(Token::Dot));
    assert_eq!(parser.next_token(), Some(Token::Ident(1, 3)));
    assert_eq!(parser.next_token(), Some(Token::OpenBracket));
    assert_eq!(parser.next_token(), Some(Token::Ident(4, 5)));
    assert_eq!(parser.next_token(), Some(Token::CloseBracket));
    assert_eq!(parser.next_token(), None);
}

#[test]
fn atom_relationships() {
    let gee = path(".gee");
    let wooz = path(".gee.wooz");
    let zooba = path(".zooba");
    assert_eq!(gee.atom_of(&wooz), Atom::Parent);
    assert_eq!(wooz.atom_of(&gee), Atom::Child);
    assert_eq!(gee.atom_of(&path(".gee")), Atom::Equal);
    assert_eq!(gee.atom_of(&zooba), Atom::Diverges);
    assert_eq!(Atom::Child.found(3), Some(Found::Child(3)));
    assert_eq!(Atom::Parent.found(1), Some(Found::Parent(1)));
    assert_eq!(Atom::Equal.found(1), Some(Found::Equal));
    assert_eq!(Atom::Diverges.found(1), None);
}

#[test]
fn atomic_access_conflicts() {
    let mut shared = AtomicAccess::new();
    assert!(!shared.add_path(path(".tuple.1")));
    assert!(!shared.add_path(path(".tuple.0")));
    assert!(!shared.add_path(path(".y[0].baz")));
    // A parent of an accessed path conflicts.
    assert!(shared.add_path(path(".tuple")));
    // A child of an accessed path conflicts.
    assert!(shared.add_path(path(".y[0].baz.w")));
    // The same path conflicts.
    assert!(shared.add_path(path(".tuple.1")));
    assert!(!shared.add_path(path(".y[1]")));
    assert_eq!(shared.len(), 4);
}

#[test]
fn from_non_atomic_keeps_children() {
    let paths = vec![path(".gee"), path(".gee.wooz"), path(".zooba"), path(".gee.zaboo")];
    let mut atomic = AtomicAccess::from_non_atomic(paths);
    assert_eq!(atomic.len(), 3);
    assert_eq!(atomic.index_of_subset(&path(".gee.wooz")), Some(Found::Equal));
    assert_eq!(atomic.index_of_subset(&path(".zooba")), Some(Found::Equal));
    assert_eq!(atomic.index_of_subset(&path(".gee.zaboo")), Some(Found::Equal));
    assert_eq!(atomic.index_of_subset(&path(".gee")), Some(Found::Child(0)));
    assert_eq!(atomic.index_of_subset(&path(".other")), None);
    assert!(atomic.add_path(path(".gee")));
    assert!(!atomic.add_path(path(".gee.other")));

    let mut with_room = AtomicAccess::with_capacity(2);
    assert!(!with_room.add_path(path(".a")));
    assert_eq!(with_room.len(), 1);
}
