use nlp::graphemes_struct::Graphemes;

#[test]
fn graphemes_split_test() {
    assert_eq!(
        Graphemes::from("hello world").split(" "),
        vec![Graphemes::from("hello"), Graphemes::from("world")]
    )
}

#[test]
fn split_keeps_empty_pieces() {
    let pieces = Graphemes::from(" a  b ").split(" ");
    assert_eq!(
        pieces,
        vec![
            Graphemes::new(),
            Graphemes::from("a"),
            Graphemes::new(),
            Graphemes::from("b"),
            Graphemes::new(),
        ]
    );
    assert_eq!(Graphemes::new().split(" "), vec![Graphemes::new()]);
}

#[test]
fn from_groups_combining_marks() {
    let g = Graphemes::from("a\u{310}e\u{301}o\u{308}\u{332}");
    assert_eq!(g.len(), 3);
    assert_eq!(g.get(0), Some(&"a\u{310}"));
    assert_eq!(g.get(1), Some(&"e\u{301}"));
    assert_eq!(g.get(2), Some(&"o\u{308}\u{332}"));
    assert_eq!(g.get(3), None);
    let flags = Graphemes::from("a\r\nb\u{1F1F7}\u{1F1FA}");
    assert_eq!(flags.len(), 4);
    assert_eq!(flags.get(1), Some(&"\r\n"));
}

#[test]
fn from_cjk_is_one_grapheme_per_character() {
    let g = Graphemes::from("他特别喜欢");
    assert_eq!(g.len(), 5);
    assert_eq!(g.get(4), Some(&"欢"));
    assert!(Graphemes::from("").is_empty());
}

#[test]
fn reverse_slice_append_push() {
    let mut g = Graphemes::from("abc");
    g.reverse();
    assert_eq!(g, Graphemes::from("cba"));
    assert_eq!(g.slice(1, 3), Graphemes::from("ba"));
    assert_eq!(g.slice(2, 2), Graphemes::new());
    g.append(Graphemes::from("de"));
    assert_eq!(g, Graphemes::from("cbade"));
    g.push("f");
    assert_eq!(g, Graphemes::from("cbadef"));
    assert_eq!(g.len(), 6);
    g.clear();
    assert!(g.is_empty());
    assert_eq!(g, Graphemes::default());
}

#[test]
fn to_string_joins_graphemes() {
    let g = Graphemes::from("e\u{301}t\u{e9} 北京");
    assert_eq!(g.to_string(), "e\u{301}t\u{e9} 北京");
    assert_eq!(Graphemes::new().to_string(), "");
}

#[test]
fn set_replaces_one_grapheme() {
    let mut g = Graphemes::from("cat");
    g.set(0, "b");
    assert_eq!(g, Graphemes::from("bat"));
    assert_eq!(g.len(), 3);
}
