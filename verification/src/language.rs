//! The source languages that a tagged file may be written in, and the rule
//! that tells a file's language from its name.
//!
//! The rule looks at the file's name alone: the text after the last `/` of the
//! path, and within it the extension after the last `.`. A name without an
//! extension is looked up whole. Nothing else is consulted, so one path always
//! resolves to the same language.

use crate::text::{chars_of, span_is};
use vstd::prelude::*;

verus! {

/// A source language recognised from a file's name.
#[derive(Clone, Copy, Debug, PartialEq, Eq, Hash, Structural)]
pub enum Language {
    C,
    Go,
    Java,
    JavaScript,
    Python,
    Ruby,
    Rust,
    TypeScript,
}

/// The index of the last `c` in `s`, or `-1` where `s` holds none.
pub open spec fn last_index_of(s: Seq<char>, c: char) -> int
    decreases s.len(),
{
    if s.len() == 0 {
        -1
    } else if s.last() == c {
        s.len() - 1
    } else {
        last_index_of(s.drop_last(), c)
    }
}

/// The file's name: what follows the last `/` of `path`, or all of `path`.
pub open spec fn basename(path: Seq<char>) -> Seq<char> {
    path.skip(last_index_of(path, '/') + 1)
}

/// The extension of a file's name: what follows its last `.`, where that `.`
/// is not the name's first character.
pub open spec fn extension(name: Seq<char>) -> Option<Seq<char>> {
    let dot = last_index_of(name, '.');
    if dot > 0 {
        Some(name.skip(dot + 1))
    } else {
        None
    }
}

/// The language that an extension stands for.
pub open spec fn language_of_extension(ext: Seq<char>) -> Option<Language> {
    if ext == "c"@ || ext == "h"@ {
        Some(Language::C)
    } else if ext == "go"@ {
        Some(Language::Go)
    } else if ext == "java"@ {
        Some(Language::Java)
    } else if ext == "js"@ || ext == "jsx"@ || ext == "mjs"@ || ext == "cjs"@ {
        Some(Language::JavaScript)
    } else if ext == "py"@ {
        Some(Language::Python)
    } else if ext == "rb"@ || ext == "rake"@ || ext == "gemspec"@ || ext == "ru"@ {
        Some(Language::Ruby)
    } else if ext == "rs"@ {
        Some(Language::Rust)
    } else if ext == "ts"@ || ext == "tsx"@ {
        Some(Language::TypeScript)
    } else {
        None
    }
}

/// The language of a file whose name has no extension.
pub open spec fn language_of_basename(name: Seq<char>) -> Option<Language> {
    if name == "Rakefile"@ || name == "Gemfile"@ {
        Some(Language::Ruby)
    } else {
        None
    }
}

/// The language of the file at `path`, where its name tells one.
pub open spec fn language_of_path(path: Seq<char>) -> Option<Language> {
    let name = basename(path);
    match extension(name) {
        Some(ext) => language_of_extension(ext),
        None => language_of_basename(name),
    }
}

/// The place of the last `c` in `chars[from..to]`.
fn last_in_span(chars: &[char], from: usize, to: usize, c: char) -> (found: Option<usize>)
    requires
        from <= to <= chars.len(),
    ensures
        match found {
            Some(i) => from <= i < to && i - from == last_index_of(
                chars@.subrange(from as int, to as int),
                c,
            ),
            None => last_index_of(chars@.subrange(from as int, to as int), c) == -1,
        },
{
    let ghost span = chars@.subrange(from as int, to as int);
    let mut i: usize = to;
    assert(span.take(to - from) == span);
    while i > from
        invariant
            from <= i <= to <= chars.len(),
            span == chars@.subrange(from as int, to as int),
            last_index_of(span, c) == last_index_of(span.take(i - from), c),
        decreases i,
    {
        if chars[i - 1] == c {
            return Some(i - 1);
        }
        assert(span.take(i - from).drop_last() == span.take(i - from - 1));
        i -= 1;
    }
    None
}

impl Language {
    /// The language of the file whose path is `chars[from..to]`.
    pub fn resolve_span(chars: &[char], from: usize, to: usize) -> (language: Option<Language>)
        requires
            from <= to <= chars.len(),
        ensures
            language == language_of_path(chars@.subrange(from as int, to as int)),
    {
        let ghost path = chars@.subrange(from as int, to as int);
        let start: usize = match last_in_span(chars, from, to, '/') {
            Some(slash) => slash + 1,
            None => from,
        };
        let ghost name = chars@.subrange(start as int, to as int);
        assert(name == basename(path));
        match last_in_span(chars, start, to, '.') {
            Some(dot) if dot > start => {
                let e: usize = dot + 1;
                assert(chars@.subrange(e as int, to as int) == name.skip(dot - start + 1));
                if span_is(chars, e, to, "c") || span_is(chars, e, to, "h") {
                    Some(Language::C)
                } else if span_is(chars, e, to, "go") {
                    Some(Language::Go)
                } else if span_is(chars, e, to, "java") {
                    Some(Language::Java)
                } else if span_is(chars, e, to, "js") || span_is(chars, e, to, "jsx") || span_is(
                    chars,
                    e,
                    to,
                    "mjs",
                ) || span_is(chars, e, to, "cjs") {
                    Some(Language::JavaScript)
                } else if span_is(chars, e, to, "py") {
                    Some(Language::Python)
                } else if span_is(chars, e, to, "rb") || span_is(chars, e, to, "rake") || span_is(
                    chars,
                    e,
                    to,
                    "gemspec",
                ) || span_is(chars, e, to, "ru") {
                    Some(Language::Ruby)
                } else if span_is(chars, e, to, "rs") {
                    Some(Language::Rust)
                } else if span_is(chars, e, to, "ts") || span_is(chars, e, to, "tsx") {
                    Some(Language::TypeScript)
                } else {
                    None
                }
            },
            _ => {
                if span_is(chars, start, to, "Rakefile") || span_is(chars, start, to, "Gemfile") {
                    Some(Language::Ruby)
                } else {
                    None
                }
            },
        }
    }

    /// The language of the file at `file_path`, told from its name alone;
    /// `None` where the name matches no rule.
    pub fn resolve(file_path: &str) -> (language: Option<Language>)
        ensures
            language == language_of_path(file_path@),
    {
        let chars = chars_of(file_path);
        assert(chars@.subrange(0, chars@.len() as int) == chars@);
        Language::resolve_span(chars.as_slice(), 0, chars.len())
    }
}

} // verus!
