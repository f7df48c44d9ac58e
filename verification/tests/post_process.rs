use cuicui::post_process::{escape_backslashes, Split};

fn chars(text: &str) -> Vec<char> {
    text.chars().collect()
}

fn pieces(split: Split, text: &str) -> Vec<String> {
    let text = chars(text);
    split.iter(&text).into_iter().map(|p| p.iter().collect()).collect()
}

fn unescape(text: &str) -> String {
    escape_backslashes(&chars(text)).into_iter().collect()
}

#[test]
fn split_like_split_inclusive() {
    let cases = ["hello world", "a b  c", "line\nother\n", "x", "", "é à\nü", " lead"];
    for text in cases {
        let expected: Vec<String> =
            text.split_inclusive(|c: char| c.is_whitespace()).map(String::from).collect();
        assert_eq!(pieces(Split::ByWord, text), expected, "{text:?}");
        let expected: Vec<String> = text.split_inclusive('\n').map(String::from).collect();
        assert_eq!(pieces(Split::ByLine, text), expected, "{text:?}");
        let expected: Vec<String> = text.split_inclusive(|_| true).map(String::from).collect();
        assert_eq!(pieces(Split::ByChar, text), expected, "{text:?}");
    }
}

#[test]
fn split_by_every_white_space() {
    // Every character std calls white space splits words, and no other.
    for code in 0u32..0x3100 {
        let Some(c) = char::from_u32(code) else { continue };
        let text: String = ['a', c, 'b'].iter().collect();
        let expected: Vec<String> =
            text.split_inclusive(|c: char| c.is_whitespace()).map(String::from).collect();
        assert_eq!(pieces(Split::ByWord, &text), expected, "{code:x}");
    }
    assert_eq!(pieces(Split::ByWord, "a b"), vec!["a ".to_string(), "b".to_string()]);
    assert_eq!(pieces(Split::ByWord, "a\u{3000}b"), vec!["a\u{3000}".to_string(), "b".to_string()]);
}

#[test]
fn split_first() {
    let text = chars("one two three");
    let (head, tail) = Split::ByWord.first(&text);
    assert_eq!(head.iter().collect::<String>(), "one ");
    let tail: Vec<String> = tail.iter().map(|p| p.iter().collect()).collect();
    assert_eq!(tail, vec!["two ".to_string(), "three".to_string()]);

    let text = chars("single");
    let (head, tail) = Split::ByLine.first(&text);
    assert_eq!(head.iter().collect::<String>(), "single");
    assert!(tail.is_empty());
}

#[test]
fn unescaping() {
    assert_eq!(unescape("no escape"), "no escape");
    assert_eq!(unescape(r"a\{b\}"), "a{b}");
    assert_eq!(unescape(r"back\\slash"), r"back\slash");
    assert_eq!(unescape(r"\\\\"), r"\\");
    assert_eq!(unescape(r"end\"), "end");
    assert_eq!(unescape(r"\\\n"), r"\n");
    assert_eq!(unescape(""), "");
}
