use read_ctags::{Language, TokenKind};

const LANGUAGES: [Language; 8] = [
    Language::C,
    Language::Go,
    Language::Java,
    Language::JavaScript,
    Language::Python,
    Language::Ruby,
    Language::Rust,
    Language::TypeScript,
];

#[test]
fn extensions_name_languages() {
    let cases = [
        ("main.c", Language::C),
        ("include/main.h", Language::C),
        ("cmd/main.go", Language::Go),
        ("src/Main.java", Language::Java),
        ("app.js", Language::JavaScript),
        ("app.jsx", Language::JavaScript),
        ("app.mjs", Language::JavaScript),
        ("app.cjs", Language::JavaScript),
        ("tool.py", Language::Python),
        ("path/to/file.rb", Language::Ruby),
        ("tasks/build.rake", Language::Ruby),
        ("read_ctags.gemspec", Language::Ruby),
        ("config.ru", Language::Ruby),
        ("src/lib.rs", Language::Rust),
        ("index.ts", Language::TypeScript),
        ("view.tsx", Language::TypeScript),
        ("archive.tar.rb", Language::Ruby),
        ("dir.d/file.rs", Language::Rust),
        ("/abs/olute.py", Language::Python),
    ];
    for (path, language) in cases {
        assert_eq!(Language::resolve(path), Some(language), "{}", path);
    }
}

#[test]
fn names_without_extension_are_looked_up_whole() {
    assert_eq!(Language::resolve("Rakefile"), Some(Language::Ruby));
    assert_eq!(Language::resolve("Gemfile"), Some(Language::Ruby));
    assert_eq!(Language::resolve("vendor/app/Gemfile"), Some(Language::Ruby));
    assert_eq!(Language::resolve("Makefile"), None);
    assert_eq!(Language::resolve("rakefile"), None);
}

#[test]
fn paths_that_match_no_rule_have_no_language() {
    for path in [
        "",
        "README",
        "notes.txt",
        "file.RB",
        "file.rbx",
        "file.r",
        "file.",
        ".rb",
        "dir/.rs",
        "rb",
        "src.rs/file",
        "file.rb/",
        "Rakefile.lock",
        "Gemfile.",
        "a.rb ",
    ] {
        assert_eq!(Language::resolve(path), None, "{:?}", path);
    }
}

#[test]
fn a_hidden_file_with_an_extension_is_resolved() {
    assert_eq!(Language::resolve(".hidden.rb"), Some(Language::Ruby));
    assert_eq!(Language::resolve("dir/.config.js"), Some(Language::JavaScript));
}

#[test]
fn resolving_is_stable() {
    for path in ["a.rb", "b.rs", "c", "d.unknown"] {
        assert_eq!(Language::resolve(path), Language::resolve(path));
    }
}

#[test]
fn ruby_codes() {
    let ruby = Some(Language::Ruby);
    assert_eq!(TokenKind::from_char('c', ruby), TokenKind::Class);
    assert_eq!(TokenKind::from_char('f', ruby), TokenKind::Method);
    assert_eq!(TokenKind::from_char('m', ruby), TokenKind::Module);
    assert_eq!(TokenKind::from_char('S', ruby), TokenKind::SingletonMethod);
    assert_eq!(TokenKind::from_char('C', ruby), TokenKind::Constant);
    assert_eq!(TokenKind::from_char('A', ruby), TokenKind::Accessor);
    assert_eq!(TokenKind::from_char('a', ruby), TokenKind::Alias);
    assert_eq!(TokenKind::from_char('L', ruby), TokenKind::Library);
    assert_eq!(TokenKind::from_char('s', ruby), TokenKind::Unknown('s'));
}

#[test]
fn one_code_in_several_languages() {
    assert_eq!(TokenKind::from_char('f', Some(Language::Rust)), TokenKind::Function);
    assert_eq!(TokenKind::from_char('f', Some(Language::Java)), TokenKind::Field);
    assert_eq!(TokenKind::from_char('f', Some(Language::Ruby)), TokenKind::Method);
    assert_eq!(TokenKind::from_char('m', Some(Language::Rust)), TokenKind::Field);
    assert_eq!(TokenKind::from_char('m', Some(Language::Python)), TokenKind::Method);
    assert_eq!(TokenKind::from_char('c', Some(Language::Rust)), TokenKind::Implementation);
    assert_eq!(TokenKind::from_char('c', Some(Language::Go)), TokenKind::Constant);
    assert_eq!(TokenKind::from_char('i', Some(Language::Python)), TokenKind::Module);
    assert_eq!(TokenKind::from_char('i', Some(Language::TypeScript)), TokenKind::Interface);
    assert_eq!(TokenKind::from_char('S', Some(Language::JavaScript)), TokenKind::Setter);
    assert_eq!(TokenKind::from_char('d', Some(Language::C)), TokenKind::Macro);
}

#[test]
fn without_a_language_every_code_is_unknown() {
    for c in ['c', 'f', 'S', ' ', '?', '\u{e9}'] {
        assert_eq!(TokenKind::from_char(c, None), TokenKind::Unknown(c));
        assert_eq!(TokenKind::Unknown(c).to_token_char(None), c);
    }
}

#[test]
fn every_code_is_written_back_as_it_was_read() {
    let mut languages: Vec<Option<Language>> = LANGUAGES.iter().map(|l| Some(*l)).collect();
    languages.push(None);
    for language in languages {
        for code in 0u32..0x250 {
            let c = char::from_u32(code).unwrap();
            let kind = TokenKind::from_char(c, language);
            assert_ne!(kind, TokenKind::Undefined);
            assert_eq!(kind.to_token_char(language), c);
        }
    }
}

#[test]
fn every_kind_of_a_language_is_read_back_as_it_was_written() {
    for language in LANGUAGES {
        let mut known = 0;
        for code in 0u32..0x80 {
            let c = char::from_u32(code).unwrap();
            let kind = TokenKind::from_char(c, Some(language));
            if kind != TokenKind::Unknown(c) {
                known += 1;
                assert_eq!(TokenKind::from_char(kind.to_token_char(Some(language)), Some(language)), kind);
            }
        }
        assert!(known >= 6, "{:?}", language);
    }
}

#[test]
fn an_unknown_kind_keeps_its_character() {
    assert_eq!(TokenKind::Unknown('Z').to_token_char(Some(Language::Ruby)), 'Z');
    assert_eq!(TokenKind::Unknown('c').to_token_char(Some(Language::Ruby)), 'c');
    assert_eq!(TokenKind::Unknown('Z').to_token_char(None), 'Z');
}

#[test]
fn a_kind_without_a_code_gets_the_placeholder() {
    assert_eq!(TokenKind::Undefined.to_token_char(Some(Language::Ruby)), '?');
    assert_eq!(TokenKind::Undefined.to_token_char(None), '?');
    assert_eq!(TokenKind::Struct.to_token_char(Some(Language::Ruby)), '?');
    assert_eq!(TokenKind::Class.to_token_char(None), '?');
    assert_eq!(read_ctags::token_kind::PLACEHOLDER_CODE, '?');
}
