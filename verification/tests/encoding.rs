use read_ctags::{CtagItem, CtagsParseError, FailureReason, Language, TokenKind};

fn pair(key: &str, value: &str) -> (String, String) {
    (key.to_string(), value.to_string())
}

fn entry(
    name: &str,
    file_path: &str,
    address: &str,
    kind: TokenKind,
    tags: Vec<(String, String)>,
) -> CtagItem {
    CtagItem {
        name: name.to_string(),
        file_path: file_path.to_string(),
        address: address.to_string(),
        language: Language::resolve(file_path),
        tags,
        kind,
    }
}

#[test]
fn bidirectional_encoding() {
    let lines = vec![
        "ClassMethod\tpath/to/file.rb\t2;\"\tS\tclass:File",
        "ClassMethod\tpath/to/file.rb\t2;\"\tS\tclass:File\tmodule:Foobar",
        "ClassMethod\tpath/to/file.rb\t2",
        "ClassMethod\tpath/to/file.rb\t2;\"\tS",
    ];

    for line in lines {
        assert_eq!(
            line,
            CtagItem::parse(line)
                .unwrap()
                .iter()
                .collect::<Vec<&CtagItem>>()[0]
                .encode()
        );
    }
}

#[test]
fn literal_scenario() {
    let line = "ClassMethod\tpath/to/file.rb\t2;\"\tS\tclass:File\tmodule:Foobar";
    let items = CtagItem::parse(line).unwrap();
    assert_eq!(items.len(), 1);
    let item = &items[0];
    assert_eq!(item.name, "ClassMethod");
    assert_eq!(item.file_path, "path/to/file.rb");
    assert_eq!(item.address, "2");
    assert_eq!(item.language, Some(Language::Ruby));
    assert_eq!(item.kind, TokenKind::SingletonMethod);
    assert_eq!(item.kind, TokenKind::from_char('S', Some(Language::Ruby)));
    assert_eq!(item.tags, vec![pair("class", "File"), pair("module", "Foobar")]);
    assert_eq!(item.encode(), line);
}

#[test]
fn kind_omission_is_told_apart() {
    let minimal = "n\tf\t1";
    let kinded = "n\tf\t1;\"\tS";
    let fielded = "n\tf\t1;\"\tclass:Foo";

    let a = CtagItem::parse(minimal).unwrap();
    assert_eq!(a.len(), 1);
    assert_eq!(a[0].kind, TokenKind::Undefined);
    assert!(a[0].tags.is_empty());

    let b = CtagItem::parse(kinded).unwrap();
    assert_eq!(b.len(), 1);
    assert_eq!(b[0].kind, TokenKind::from_char('S', None));
    assert_eq!(b[0].kind.to_token_char(None), 'S');
    assert!(b[0].tags.is_empty());

    let c = CtagItem::parse(fielded).unwrap();
    assert_eq!(c.len(), 1);
    assert_eq!(c[0].kind, TokenKind::Undefined);
    assert_eq!(c[0].tags, vec![pair("class", "Foo")]);

    assert_ne!(a[0], b[0]);
    assert_ne!(a[0], c[0]);
    assert_ne!(b[0], c[0]);
    assert_ne!(a[0].kind, b[0].kind);
    assert_ne!(a[0].tags, c[0].tags);
    assert_ne!(b[0].kind, c[0].kind);

    assert_eq!(a[0].encode(), minimal);
    assert_eq!(b[0].encode(), kinded);
    assert_eq!(c[0].encode(), fielded);
}

#[test]
fn a_kind_of_a_known_language_is_named() {
    let line = "n\tf.rb\t1;\"\tS";
    let items = CtagItem::parse(line).unwrap();
    assert_eq!(items[0].kind, TokenKind::SingletonMethod);
    assert!(items[0].tags.is_empty());
    assert_eq!(items[0].encode(), line);
}

#[test]
fn kind_without_a_language_is_kept() {
    let line = "n\tf\t1;\"\tS";
    let items = CtagItem::parse(line).unwrap();
    assert_eq!(items[0].language, None);
    assert_eq!(items[0].kind, TokenKind::Unknown('S'));
    assert_eq!(items[0].encode(), line);
}

#[test]
fn unrecognized_kind_round_trips() {
    for line in [
        "n\tlib/f.rb\t1;\"\tZ",
        "n\tlib/f.rb\t1;\"\t?",
        "n\tlib/f.rb\t1;\"\t:",
        "n\tlib/f.rb\t1;\"\t \tclass:Foo",
        "n\tsrc/f.rs\t1;\"\tS",
        "n\tsrc/f.rs\t1;\"\t\u{e9}",
    ] {
        let items = CtagItem::parse(line).unwrap();
        assert_eq!(items.len(), 1);
        assert!(matches!(items[0].kind, TokenKind::Unknown(_)));
        assert_eq!(items[0].encode(), line);
    }
    let items = CtagItem::parse("n\tlib/f.rb\t1;\"\tZ").unwrap();
    assert_eq!(items[0].kind, TokenKind::Unknown('Z'));
}

#[test]
fn second_line_of_garbage_fails() {
    match CtagItem::parse("n\tf\t1\nEXTRA GARBAGE") {
        Err(CtagsParseError::FailedParse(failure)) => {
            assert_eq!(failure.remainder, "EXTRA GARBAGE");
            assert_eq!(failure.reason, FailureReason::MissingPath);
        }
        other => panic!("unexpected: {:?}", other),
    }
}

#[test]
fn trailing_bytes_are_an_incomplete_parse() {
    for text in [
        "n\tf\t1;\"\tSX",
        "n\tf\t1;\"garbage",
        "n\tf\t1\tclass:Foo",
        "n\tf\t1;\"\tS\tjunk",
        "n\tf\t1;\"\tS\tclass:Foo\tjunk",
        "n\tf\t1;\"\tS\t:empty",
        "n\tf\t1;\"\t",
        "n\tf\t1;\"\t\nm\tg\t2",
        "n\tf\t1;\"\tS junk\nm\tg\t2",
    ] {
        assert!(
            matches!(CtagItem::parse(text), Err(CtagsParseError::IncompleteParse)),
            "{:?}",
            text
        );
    }
}

#[test]
fn a_line_without_a_name_fails() {
    match CtagItem::parse("\tf\t1") {
        Err(CtagsParseError::FailedParse(failure)) => {
            assert_eq!(failure.remainder, "\tf\t1");
            assert_eq!(failure.reason, FailureReason::MissingName);
        }
        other => panic!("unexpected: {:?}", other),
    }
}

#[test]
fn a_line_without_a_path_fails() {
    match CtagItem::parse("name") {
        Err(CtagsParseError::FailedParse(failure)) => {
            assert_eq!(failure.remainder, "name");
            assert_eq!(failure.reason, FailureReason::MissingPath);
        }
        other => panic!("unexpected: {:?}", other),
    }
    match CtagItem::parse("a\tf\t1\nname\nb\tf\t2") {
        Err(CtagsParseError::FailedParse(failure)) => {
            assert_eq!(failure.remainder, "name\nb\tf\t2");
            assert_eq!(failure.reason, FailureReason::MissingPath);
        }
        other => panic!("unexpected: {:?}", other),
    }
}

#[test]
fn a_line_without_an_address_fails() {
    match CtagItem::parse("name\tpath\nnext\tf\t1") {
        Err(CtagsParseError::FailedParse(failure)) => {
            assert_eq!(failure.remainder, "name\tpath\nnext\tf\t1");
            assert_eq!(failure.reason, FailureReason::MissingAddress);
        }
        other => panic!("unexpected: {:?}", other),
    }
}

#[test]
fn a_blank_line_between_lines_fails() {
    match CtagItem::parse("n\tf\t1\n\nm\tg\t2") {
        Err(CtagsParseError::FailedParse(failure)) => {
            assert_eq!(failure.remainder, "\nm\tg\t2");
            assert_eq!(failure.reason, FailureReason::MissingName);
        }
        other => panic!("unexpected: {:?}", other),
    }
    assert!(matches!(
        CtagItem::parse("\n"),
        Err(CtagsParseError::FailedParse(_))
    ));
}

#[test]
fn nothing_is_returned_of_a_text_with_a_bad_line() {
    assert!(CtagItem::parse("a\tf\t1\nb\tf\t2\nbroken").is_err());
    assert!(CtagItem::parse("a\tf\t1\nb\tf\t2;\"x\nc\tf\t3").is_err());
}

#[test]
fn empty_text_has_no_entry() {
    assert_eq!(CtagItem::parse("").unwrap(), vec![]);
}

#[test]
fn a_final_newline_is_in_order() {
    let with = CtagItem::parse("a\tf\t1\nb\tg\t2\n").unwrap();
    let without = CtagItem::parse("a\tf\t1\nb\tg\t2").unwrap();
    assert_eq!(with.len(), 2);
    assert_eq!(with, without);
}

#[test]
fn identical_lines_give_one_entry() {
    let line = "ClassMethod\tpath/to/file.rb\t2;\"\tS\tclass:File";
    let text = format!("{}\n{}", line, line);
    let items = CtagItem::parse(&text).unwrap();
    assert_eq!(items.len(), 1);
    assert_eq!(items, CtagItem::parse(line).unwrap());
}

#[test]
fn field_order_does_not_make_two_entries() {
    let text = "n\tf.rb\t1;\"\tc\tmodule:M\tclass:C\nn\tf.rb\t1;\"\tc\tclass:C\tmodule:M";
    let items = CtagItem::parse(text).unwrap();
    assert_eq!(items.len(), 1);
    assert_eq!(items[0].tags, vec![pair("class", "C"), pair("module", "M")]);
    assert_eq!(items[0].encode(), "n\tf.rb\t1;\"\tc\tclass:C\tmodule:M");
}

#[test]
fn entries_keep_the_order_of_their_first_lines() {
    let items = CtagItem::parse("b\tf\t1\na\tf\t2\nb\tf\t1\nc\tf\t3\na\tf\t2").unwrap();
    let names: Vec<&str> = items.iter().map(|item| item.name.as_str()).collect();
    assert_eq!(names, vec!["b", "a", "c"]);
}

#[test]
fn a_key_written_twice_keeps_its_last_value() {
    let items = CtagItem::parse("n\tf\t1;\"\tk:first\tj:x\tk:last").unwrap();
    assert_eq!(items[0].tags, vec![pair("j", "x"), pair("k", "last")]);
    assert_eq!(items[0].encode(), "n\tf\t1;\"\tj:x\tk:last");
}

#[test]
fn a_terminator_with_nothing_behind_it_is_dropped() {
    let items = CtagItem::parse("n\tf\t1;\"").unwrap();
    assert_eq!(items.len(), 1);
    assert_eq!(items[0].address, "1");
    assert_eq!(items[0].kind, TokenKind::Undefined);
    assert!(items[0].tags.is_empty());
    assert_eq!(items[0].encode(), "n\tf\t1");
    assert_eq!(items, CtagItem::parse("n\tf\t1").unwrap());
}

#[test]
fn an_address_may_hold_semicolons_and_quotes() {
    for line in [
        "n\tf\t/^a; b$/;\"\tf",
        "n\tf\t/^say \"hi\";$/",
        "n\tf\t1;;\"\tf",
        "n\tf\t;",
        "n\tf\t\"",
    ] {
        let items = CtagItem::parse(line).unwrap();
        assert_eq!(items.len(), 1, "{:?}", line);
        assert_eq!(items[0].encode(), line);
    }
    let items = CtagItem::parse("n\tf\t1;;\"\tf").unwrap();
    assert_eq!(items[0].address, "1;");
}

#[test]
fn path_address_and_value_may_be_empty() {
    let items = CtagItem::parse("n\t\t").unwrap();
    assert_eq!(items[0].file_path, "");
    assert_eq!(items[0].address, "");
    assert_eq!(items[0].encode(), "n\t\t");

    let items = CtagItem::parse("n\t\t;\"\tk:").unwrap();
    assert_eq!(items[0].address, "");
    assert_eq!(items[0].tags, vec![pair("k", "")]);
    assert_eq!(items[0].encode(), "n\t\t;\"\tk:");
}

#[test]
fn a_value_may_hold_colons() {
    let line = "n\tf\t1;\"\tf\tsignature:(a: int, b: int)\ttyperef:typename:std::string";
    let items = CtagItem::parse(line).unwrap();
    assert_eq!(
        items[0].tags,
        vec![
            pair("signature", "(a: int, b: int)"),
            pair("typeref", "typename:std::string"),
        ]
    );
    assert_eq!(items[0].encode(), line);
}

#[test]
fn text_beyond_ascii_is_kept() {
    let line = "caf\u{e9}\tsrc/na\u{ef}ve.rs\t/^fn caf\u{e9}() {$/;\"\tf\tdoc:\u{1f600}";
    let items = CtagItem::parse(line).unwrap();
    assert_eq!(items[0].name, "caf\u{e9}");
    assert_eq!(items[0].language, Some(Language::Rust));
    assert_eq!(items[0].kind, TokenKind::Function);
    assert_eq!(items[0].tags, vec![pair("doc", "\u{1f600}")]);
    assert_eq!(items[0].encode(), line);
}

#[test]
fn encode_writes_the_minimal_form() {
    let item = entry("n", "f.rb", "1", TokenKind::Undefined, vec![]);
    assert_eq!(item.encode(), "n\tf.rb\t1");
}

#[test]
fn encode_leaves_out_an_undefined_kind() {
    let item = entry(
        "n",
        "f.rb",
        "1",
        TokenKind::Undefined,
        vec![pair("class", "A"), pair("module", "B")],
    );
    assert_eq!(item.encode(), "n\tf.rb\t1;\"\tclass:A\tmodule:B");
}

#[test]
fn encode_writes_a_kind_alone() {
    let item = entry("n", "f.rb", "1", TokenKind::Class, vec![]);
    assert_eq!(item.encode(), "n\tf.rb\t1;\"\tc");
    let item = entry("n", "f.rb", "1", TokenKind::Unknown('x'), vec![]);
    assert_eq!(item.encode(), "n\tf.rb\t1;\"\tx");
}

#[test]
fn encode_writes_kind_and_fields() {
    let item = entry(
        "n",
        "f.rs",
        "/^fn n()$/",
        TokenKind::Function,
        vec![pair("a", "1"), pair("b", "2"), pair("c", "3")],
    );
    assert_eq!(item.encode(), "n\tf.rs\t/^fn n()$/;\"\tf\ta:1\tb:2\tc:3");
}

#[test]
fn encoded_entries_parse_back() {
    let entries = vec![
        entry("a", "lib/a.rb", "1", TokenKind::Undefined, vec![]),
        entry("b", "lib/b.rb", "2", TokenKind::Module, vec![]),
        entry("c", "src/c.rs", "3", TokenKind::Struct, vec![pair("x", "1"), pair("y", "2")]),
        entry("d", "notes.txt", "4", TokenKind::Unknown('q'), vec![pair("k", "v")]),
        entry("e", "Rakefile", "5", TokenKind::Undefined, vec![pair("k", "v")]),
    ];
    for item in entries.iter() {
        assert_eq!(CtagItem::parse(&item.encode()).unwrap(), vec![item.clone()]);
    }
    let text = entries
        .iter()
        .map(|item| item.encode())
        .collect::<Vec<String>>()
        .join("\n");
    assert_eq!(CtagItem::parse(&text).unwrap(), entries);
}

#[test]
fn items_are_equal_when_all_parts_are() {
    let a = entry("n", "f.rb", "1", TokenKind::Class, vec![pair("k", "v")]);
    assert_eq!(a, a.clone());
    let mut b = a.clone();
    b.name = "m".to_string();
    assert_ne!(a, b);
    let mut b = a.clone();
    b.file_path = "g.rb".to_string();
    assert_ne!(a, b);
    let mut b = a.clone();
    b.address = "2".to_string();
    assert_ne!(a, b);
    let mut b = a.clone();
    b.language = None;
    assert_ne!(a, b);
    let mut b = a.clone();
    b.kind = TokenKind::Module;
    assert_ne!(a, b);
    let mut b = a.clone();
    b.tags = vec![pair("k", "w")];
    assert_ne!(a, b);
    let mut b = a.clone();
    b.tags = vec![];
    assert_ne!(a, b);
}

#[test]
fn the_language_follows_from_the_path() {
    let items = CtagItem::parse("a\tx.py\t1\nb\tx.go\t1\nc\tx\t1").unwrap();
    assert_eq!(items[0].language, Some(Language::Python));
    assert_eq!(items[1].language, Some(Language::Go));
    assert_eq!(items[2].language, None);
}

#[test]
fn the_same_code_names_different_kinds() {
    let items = CtagItem::parse("a\tx.rs\t1;\"\tf\nb\tX.java\t1;\"\tf\nc\tx.rb\t1;\"\tf").unwrap();
    assert_eq!(items[0].kind, TokenKind::Function);
    assert_eq!(items[1].kind, TokenKind::Field);
    assert_eq!(items[2].kind, TokenKind::Method);
}
