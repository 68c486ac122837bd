use read_ctags::fields::{normalize, set_field};
use read_ctags::grammar::{read_field, read_fields, read_line, read_metadata, run_end, Zone};
use read_ctags::text::{chars_of, span_is, str_precedes, string_of};
use read_ctags::FailureReason;

fn pair(key: &str, value: &str) -> (String, String) {
    (key.to_string(), value.to_string())
}

fn chars(text: &str) -> Vec<char> {
    text.chars().collect()
}

#[test]
fn chars_of_gives_the_characters() {
    assert_eq!(chars_of(""), Vec::<char>::new());
    assert_eq!(chars_of("a\tb"), vec!['a', '\t', 'b']);
    assert_eq!(chars_of("\u{e9}\u{1f600}z"), vec!['\u{e9}', '\u{1f600}', 'z']);
}

#[test]
fn string_of_gives_the_span() {
    let text = chars("h\u{e9}llo world");
    assert_eq!(string_of(&text, 0, 5), "h\u{e9}llo");
    assert_eq!(string_of(&text, 6, 11), "world");
    assert_eq!(string_of(&text, 3, 3), "");
    assert_eq!(string_of(&text, 0, 11), "h\u{e9}llo world");
}

#[test]
fn span_is_compares_a_span_with_a_word() {
    let text = chars("file.rb");
    assert!(span_is(&text, 5, 7, "rb"));
    assert!(!span_is(&text, 5, 7, "rs"));
    assert!(!span_is(&text, 5, 7, "r"));
    assert!(!span_is(&text, 5, 7, "rbx"));
    assert!(!span_is(&text, 5, 6, "rb"));
    assert!(span_is(&text, 3, 3, ""));
    assert!(!span_is(&text, 3, 4, ""));
    assert!(span_is(&text, 0, 7, "file.rb"));
}

#[test]
fn strings_sort_as_the_standard_library_sorts_them() {
    let samples = [
        "", "a", "A", "aa", "ab", "b", "class", "classes", "module", "Module", "z", "\u{e9}",
        "e\u{301}", "\u{1f600}", "\u{ffff}", "\u{10000}", "~", " ", "a b", "a\u{0}",
    ];
    for a in samples {
        for b in samples {
            assert_eq!(str_precedes(a, b), a < b, "{:?} {:?}", a, b);
        }
    }
}

#[test]
fn set_field_keeps_the_list_in_order() {
    let mut fields: Vec<(String, String)> = Vec::new();
    set_field(&mut fields, "m".to_string(), "1".to_string());
    assert_eq!(fields, vec![pair("m", "1")]);
    set_field(&mut fields, "a".to_string(), "2".to_string());
    assert_eq!(fields, vec![pair("a", "2"), pair("m", "1")]);
    set_field(&mut fields, "z".to_string(), "3".to_string());
    assert_eq!(fields, vec![pair("a", "2"), pair("m", "1"), pair("z", "3")]);
    set_field(&mut fields, "k".to_string(), "4".to_string());
    assert_eq!(fields, vec![pair("a", "2"), pair("k", "4"), pair("m", "1"), pair("z", "3")]);
    set_field(&mut fields, "m".to_string(), "5".to_string());
    assert_eq!(fields, vec![pair("a", "2"), pair("k", "4"), pair("m", "5"), pair("z", "3")]);
    set_field(&mut fields, "a".to_string(), "6".to_string());
    set_field(&mut fields, "z".to_string(), "7".to_string());
    assert_eq!(fields, vec![pair("a", "6"), pair("k", "4"), pair("m", "5"), pair("z", "7")]);
}

#[test]
fn normalize_sorts_and_keeps_last_values() {
    assert_eq!(normalize(vec![]), vec![]);
    assert_eq!(
        normalize(vec![pair("b", "1"), pair("a", "2"), pair("c", "3"), pair("a", "4")]),
        vec![pair("a", "4"), pair("b", "1"), pair("c", "3")]
    );
    assert_eq!(
        normalize(vec![pair("class", "File"), pair("module", "Foobar")]),
        vec![pair("class", "File"), pair("module", "Foobar")]
    );
    assert_eq!(
        normalize(vec![pair("module", "Foobar"), pair("class", "File")]),
        normalize(vec![pair("class", "File"), pair("module", "Foobar")])
    );
}

#[test]
fn normalize_agrees_with_an_ordered_map() {
    let raw = vec![
        pair("signature", "()"),
        pair("class", "A"),
        pair("access", "public"),
        pair("class", "B"),
        pair("Zeta", "z"),
        pair("access", "private"),
    ];
    let mut map = std::collections::BTreeMap::new();
    for (key, value) in raw.iter() {
        map.insert(key.clone(), value.clone());
    }
    let expected: Vec<(String, String)> = map.into_iter().collect();
    assert_eq!(normalize(raw), expected);
}

#[test]
fn runs_end_where_their_zone_says() {
    let text = chars("ab:c;d;\"e\tf\ng");
    assert_eq!(run_end(Zone::Plain, &text, 0), 9);
    assert_eq!(run_end(Zone::Key, &text, 0), 2);
    assert_eq!(run_end(Zone::Key, &text, 2), 2);
    assert_eq!(run_end(Zone::Address, &text, 0), 6);
    assert_eq!(run_end(Zone::Address, &text, 6), 6);
    assert_eq!(run_end(Zone::Address, &text, 7), 9);
    assert_eq!(run_end(Zone::Plain, &text, 10), 11);
    assert_eq!(run_end(Zone::Plain, &text, 12), 13);
    assert_eq!(run_end(Zone::Plain, &text, 13), 13);
    let text = chars("1;");
    assert_eq!(run_end(Zone::Address, &text, 0), 2);
}

#[test]
fn a_field_is_a_tab_a_key_a_colon_and_a_value() {
    let text = chars("\tclass:File\tmodule:Foobar");
    assert_eq!(read_field(&text, 0), Some((pair("class", "File"), 11)));
    assert_eq!(read_field(&text, 11), Some((pair("module", "Foobar"), 25)));
    assert_eq!(read_field(&text, 25), None);
    assert_eq!(read_field(&text, 1), None);
    assert_eq!(read_field(&chars("\t:v"), 0), None);
    assert_eq!(read_field(&chars("\tkey"), 0), None);
    assert_eq!(read_field(&chars("\tk\t:v"), 0), None);
    assert_eq!(read_field(&chars("\tk:"), 0), Some((pair("k", ""), 3)));
    assert_eq!(read_field(&chars("\tk:a:b"), 0), Some((pair("k", "a:b"), 6)));
}

#[test]
fn fields_are_read_as_far_as_they_go() {
    let text = chars("\ta:1\tb:2\tjunk\tc:3");
    assert_eq!(read_fields(&text, 0), (vec![pair("a", "1"), pair("b", "2")], 8));
    assert_eq!(read_fields(&text, 4), (vec![pair("b", "2")], 8));
    assert_eq!(read_fields(&text, 8), (vec![], 8));
    assert_eq!(read_fields(&text, 13), (vec![pair("c", "3")], 17));
}

#[test]
fn the_longest_reading_behind_the_terminator_wins() {
    assert_eq!(
        read_metadata(&chars("\tS\tclass:File"), 0),
        (Some('S'), vec![pair("class", "File")], 13)
    );
    assert_eq!(read_metadata(&chars("\tclass:File"), 0), (None, vec![pair("class", "File")], 11));
    assert_eq!(read_metadata(&chars("\tS"), 0), (Some('S'), vec![], 2));
    assert_eq!(read_metadata(&chars("\tSX"), 0), (Some('S'), vec![], 2));
    assert_eq!(read_metadata(&chars(""), 0), (None, vec![], 0));
    assert_eq!(read_metadata(&chars("\t"), 0), (None, vec![], 0));
    assert_eq!(read_metadata(&chars("\t\t"), 0), (None, vec![], 0));
    assert_eq!(read_metadata(&chars("\t\n"), 0), (None, vec![], 0));
    assert_eq!(read_metadata(&chars("\t:\tk:v"), 0), (Some(':'), vec![pair("k", "v")], 6));
    assert_eq!(read_metadata(&chars("\tc:v"), 0), (None, vec![pair("c", "v")], 4));
}

#[test]
fn a_line_is_read_with_the_place_where_it_ends() {
    let text = chars("n\tf\t1;\"\tS\tk:v\nrest");
    let (line, end) = read_line(&text, 0).unwrap();
    assert_eq!(end, 13);
    assert_eq!(line.name, "n");
    assert_eq!(line.file_path, "f");
    assert_eq!(line.address, "1");
    assert!(line.terminated);
    assert_eq!(line.kind, Some('S'));
    assert_eq!(line.fields, vec![pair("k", "v")]);

    assert_eq!(read_line(&text, 14).unwrap_err(), FailureReason::MissingPath);
    assert_eq!(read_line(&text, 13).unwrap_err(), FailureReason::MissingName);
    assert_eq!(read_line(&chars("a\tb"), 0).unwrap_err(), FailureReason::MissingAddress);
    assert_eq!(read_line(&chars("a\tb\nc"), 0).unwrap_err(), FailureReason::MissingAddress);
    assert_eq!(read_line(&chars(""), 0).unwrap_err(), FailureReason::MissingName);

    let text = chars("name\tpath\taddress");
    let (line, end) = read_line(&text, 0).unwrap();
    assert_eq!(end, 17);
    assert!(!line.terminated);
    assert_eq!(line.kind, None);
    assert!(line.fields.is_empty());
    assert_eq!(line.address, "address");
}
