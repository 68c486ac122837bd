//! The grammar of one line of a tags file.
//!
//! A line names a symbol, the file that holds it and an address in that file,
//! separated by tabs. After the address may stand the terminator `;"` and,
//! behind it, a one-character kind and a list of `key:value` fields, each
//! introduced by a tab:
//!
//! ```text
//! NAME <tab> PATH <tab> ADDRESS [ ;" [ <tab> KIND ] { <tab> KEY : VALUE } ]
//! ```
//!
//! The name is not empty. Name and path run up to the next tab or newline, the
//! address up to the next tab, newline or terminator, a key up to the next
//! tab, newline or colon, and a value up to the next tab or newline; a key is
//! not empty. Behind the terminator the longest reading wins: a kind followed
//! by fields, else fields alone, else a kind alone, else nothing.
//!
//! The functions here read a line at the head of a text and say how much of
//! the text the line takes. What follows the line is the caller's business.

use crate::fields::{pairs_of, Pair};
use crate::text::string_of;
use vstd::prelude::*;

verus! {

/// What a run of characters is read for, which decides where it ends.
#[derive(Clone, Copy, Debug, PartialEq, Eq, Structural)]
pub enum Zone {
    /// A name, a path or a value: ends at a tab or newline.
    Plain,
    /// An address: ends at a tab or newline, or where `;"` begins.
    Address,
    /// A key: ends at a tab or newline, or at a colon.
    Key,
}

/// Why a text does not begin with a line of the grammar.
#[derive(Clone, Copy, Debug, PartialEq, Eq, Structural)]
pub enum FailureReason {
    /// The line has no name: it begins with a tab or a newline.
    MissingName,
    /// The line has no path: it ends behind its name, where a tab should
    /// follow.
    MissingPath,
    /// The line has no address: it ends behind its path, where a tab should
    /// follow.
    MissingAddress,
}

/// The parts of a line as they stand in the text, before any of them is
/// interpreted.
pub struct RawLine {
    pub name: Seq<char>,
    pub file_path: Seq<char>,
    pub address: Seq<char>,
    /// Whether `;"` stands behind the address.
    pub terminated: bool,
    pub kind: Option<char>,
    /// The fields in the order of the text; a key may stand more than once.
    pub fields: Seq<Pair>,
}

/// How reading a line at the head of a text ends.
pub enum LineParse {
    /// The first `len` characters of the text are a line with these parts.
    Matched { line: RawLine, len: int },
    /// The text begins with no line.
    Failed { reason: FailureReason },
}

/// A list of fields read from the head of a text, and the number of
/// characters they take.
pub struct FieldsParse {
    pub fields: Seq<Pair>,
    pub len: int,
}

/// What stands behind the terminator, and the number of characters it takes.
pub struct MetadataParse {
    pub kind: Option<char>,
    pub fields: Seq<Pair>,
    pub len: int,
}

/// Tab and newline separate the parts of a line and the lines of a text.
pub open spec fn is_break(c: char) -> bool {
    c == '\t' || c == '\n'
}

/// Whether a run read for `zone` ends before `s[i]`.
pub open spec fn stops(zone: Zone, s: Seq<char>, i: int) -> bool {
    i >= s.len() || is_break(s[i]) || match zone {
        Zone::Plain => false,
        Zone::Address => s[i] == ';' && i + 1 < s.len() && s[i + 1] == '"',
        Zone::Key => s[i] == ':',
    }
}

/// The length of the run at the head of `s`.
pub open spec fn run_len(zone: Zone, s: Seq<char>) -> nat
    decreases s.len(),
{
    if stops(zone, s, 0) {
        0
    } else {
        1 + run_len(zone, s.skip(1))
    }
}

/// The field at the head of `s`: a tab, a key that is not empty, a colon and a
/// value. The third part is the number of characters that the field takes.
pub open spec fn field_at(s: Seq<char>) -> Option<(Pair, int)> {
    if s.len() > 0 && s[0] == '\t' {
        let k = run_len(Zone::Key, s.skip(1)) as int;
        if k > 0 && 1 + k < s.len() && s[1 + k] == ':' {
            let v = run_len(Zone::Plain, s.skip(k + 2)) as int;
            Some(((s.subrange(1, 1 + k), s.subrange(k + 2, k + 2 + v)), k + 2 + v))
        } else {
            None
        }
    } else {
        None
    }
}

/// The fields at the head of `s`, as many as stand there one behind the other.
pub open spec fn parse_fields(s: Seq<char>) -> FieldsParse
    decreases s.len(),
{
    match field_at(s) {
        Some((pair, n)) => {
            proof {
                lemma_field_at(s);
            }
            let rest = parse_fields(s.skip(n));
            FieldsParse { fields: seq![pair] + rest.fields, len: n + rest.len }
        },
        None => FieldsParse { fields: Seq::empty(), len: 0 },
    }
}

/// What stands behind the terminator at the head of `s`: a kind followed by
/// fields, else fields alone, else a kind alone, else nothing.
pub open spec fn parse_metadata(s: Seq<char>) -> MetadataParse {
    let kinded = s.len() >= 2 && s[0] == '\t' && !is_break(s[1]);
    let behind_kind = parse_fields(s.skip(2));
    let direct = parse_fields(s);
    if kinded && behind_kind.fields.len() > 0 {
        MetadataParse { kind: Some(s[1]), fields: behind_kind.fields, len: 2 + behind_kind.len }
    } else if direct.fields.len() > 0 {
        MetadataParse { kind: None, fields: direct.fields, len: direct.len }
    } else if kinded {
        MetadataParse { kind: Some(s[1]), fields: Seq::empty(), len: 2 }
    } else {
        MetadataParse { kind: None, fields: Seq::empty(), len: 0 }
    }
}

/// The line at the head of `s`.
pub open spec fn parse_line(s: Seq<char>) -> LineParse {
    let name_end = run_len(Zone::Plain, s) as int;
    if name_end == 0 {
        LineParse::Failed { reason: FailureReason::MissingName }
    } else if !(name_end < s.len() && s[name_end] == '\t') {
        LineParse::Failed { reason: FailureReason::MissingPath }
    } else {
        let path_end = name_end + 1 + run_len(Zone::Plain, s.skip(name_end + 1));
        if !(path_end < s.len() && s[path_end] == '\t') {
            LineParse::Failed { reason: FailureReason::MissingAddress }
        } else {
            let address_end = path_end + 1 + run_len(Zone::Address, s.skip(path_end + 1));
            let name = s.subrange(0, name_end);
            let file_path = s.subrange(name_end + 1, path_end);
            let address = s.subrange(path_end + 1, address_end);
            if address_end + 1 < s.len() && s[address_end] == ';' && s[address_end + 1] == '"' {
                let meta = parse_metadata(s.skip(address_end + 2));
                LineParse::Matched {
                    line: RawLine {
                        name,
                        file_path,
                        address,
                        terminated: true,
                        kind: meta.kind,
                        fields: meta.fields,
                    },
                    len: address_end + 2 + meta.len,
                }
            } else {
                LineParse::Matched {
                    line: RawLine {
                        name,
                        file_path,
                        address,
                        terminated: false,
                        kind: None,
                        fields: Seq::empty(),
                    },
                    len: address_end,
                }
            }
        }
    }
}

/// The parts of a line as strings.
#[derive(Debug)]
pub struct Line {
    pub name: String,
    pub file_path: String,
    pub address: String,
    /// Whether `;"` stands behind the address.
    pub terminated: bool,
    pub kind: Option<char>,
    /// The fields in the order of the text.
    pub fields: Vec<(String, String)>,
}

impl View for Line {
    type V = RawLine;

    open spec fn view(&self) -> RawLine {
        RawLine {
            name: self.name@,
            file_path: self.file_path@,
            address: self.address@,
            terminated: self.terminated,
            kind: self.kind,
            fields: pairs_of(self.fields@),
        }
    }
}

/// A run ends within the text, at the first place where it stops.
pub proof fn lemma_run_len(zone: Zone, s: Seq<char>)
    ensures
        run_len(zone, s) <= s.len(),
        forall|i: int| 0 <= i < run_len(zone, s) ==> !stops(zone, s, i),
        stops(zone, s, run_len(zone, s) as int),
    decreases s.len(),
{
    if !stops(zone, s, 0) {
        let rest = s.skip(1);
        lemma_run_len(zone, rest);
        assert forall|i: int| 0 <= i < run_len(zone, s) implies !stops(zone, s, i) by {
            if i > 0 {
                assert(!stops(zone, rest, i - 1));
            }
        }
        assert(stops(zone, rest, run_len(zone, rest) as int));
    }
}

/// The first place where a run stops is its length.
pub proof fn lemma_run_len_is(zone: Zone, s: Seq<char>, n: int)
    requires
        0 <= n <= s.len(),
        forall|i: int| 0 <= i < n ==> !stops(zone, s, i),
        stops(zone, s, n),
    ensures
        run_len(zone, s) == n,
    decreases n,
{
    if n > 0 {
        let rest = s.skip(1);
        assert(!stops(zone, s, 0));
        assert forall|i: int| 0 <= i < n - 1 implies !stops(zone, rest, i) by {
            assert(!stops(zone, s, i + 1));
        }
        lemma_run_len_is(zone, rest, n - 1);
    }
}

/// A field takes at least two characters and no more than the text has.
pub proof fn lemma_field_at(s: Seq<char>)
    ensures
        field_at(s) matches Some((_, n)) ==> 2 <= n <= s.len(),
{
    if s.len() > 0 && s[0] == '\t' {
        let k = run_len(Zone::Key, s.skip(1)) as int;
        lemma_run_len(Zone::Key, s.skip(1));
        if k > 0 && 1 + k < s.len() && s[1 + k] == ':' {
            lemma_run_len(Zone::Plain, s.skip(k + 2));
        }
    }
}

/// A list of fields takes no more characters than the text has.
pub proof fn lemma_parse_fields_bounds(s: Seq<char>)
    ensures
        0 <= parse_fields(s).len <= s.len(),
        parse_fields(s).fields.len() > 0 ==> parse_fields(s).len >= 2,
    decreases s.len(),
{
    if let Some((_, n)) = field_at(s) {
        lemma_field_at(s);
        lemma_parse_fields_bounds(s.skip(n));
    }
}

/// A line takes at least one character and no more than the text has.
pub proof fn lemma_parse_line_bounds(s: Seq<char>)
    ensures
        parse_line(s) matches LineParse::Matched { len, .. } ==> 0 < len <= s.len(),
{
    let name_end = run_len(Zone::Plain, s) as int;
    lemma_run_len(Zone::Plain, s);
    if name_end < s.len() {
        let path_end = name_end + 1 + run_len(Zone::Plain, s.skip(name_end + 1));
        lemma_run_len(Zone::Plain, s.skip(name_end + 1));
        if path_end < s.len() {
            let address_end = path_end + 1 + run_len(Zone::Address, s.skip(path_end + 1));
            lemma_run_len(Zone::Address, s.skip(path_end + 1));
            if address_end + 1 < s.len() {
                let rest = s.skip(address_end + 2);
                lemma_parse_fields_bounds(rest);
                if rest.len() >= 2 {
                    lemma_parse_fields_bounds(rest.skip(2));
                }
            }
        }
    }
}

/// Whether `s` holds no newline, so that it is at most one line.
pub open spec fn one_line(s: Seq<char>) -> bool {
    forall|i: int| 0 <= i < s.len() ==> #[trigger] s[i] != '\n'
}

/// The text in which a newline and then `rest` follow the line `line`.
pub open spec fn followed(line: Seq<char>, rest: Seq<char>) -> Seq<char> {
    line + seq!['\n'] + rest
}

/// Skipping within the first line of a text leaves the rest of the line,
/// followed as before.
pub proof fn lemma_followed_skip(line: Seq<char>, rest: Seq<char>, n: int)
    requires
        one_line(line),
        0 <= n <= line.len(),
    ensures
        followed(line, rest).skip(n) == followed(line.skip(n), rest),
        one_line(line.skip(n)),
{
    assert(followed(line, rest).skip(n) == followed(line.skip(n), rest));
    assert forall|i: int| 0 <= i < line.skip(n).len() implies #[trigger] line.skip(n)[i]
        != '\n' by {
        assert(line.skip(n)[i] == line[n + i]);
    }
}

/// A run in a line is the same run whatever follows the line.
pub proof fn lemma_run_len_local(zone: Zone, line: Seq<char>, rest: Seq<char>)
    requires
        one_line(line),
    ensures
        run_len(zone, followed(line, rest)) == run_len(zone, line),
{
    let text = followed(line, rest);
    let n = run_len(zone, line) as int;
    lemma_run_len(zone, line);
    assert forall|i: int| 0 <= i < n implies !stops(zone, text, i) by {
        assert(!stops(zone, line, i));
        assert(text[i] == line[i]);
        if i + 1 < line.len() {
            assert(text[i + 1] == line[i + 1]);
        } else {
            assert(text[i + 1] == '\n');
        }
    }
    assert(stops(zone, text, n)) by {
        if n < line.len() {
            assert(text[n] == line[n]);
            if n + 1 < line.len() {
                assert(text[n + 1] == line[n + 1]);
            }
        } else {
            assert(text[n] == '\n');
        }
    }
    lemma_run_len_is(zone, text, n);
}

/// The field at the head of a line is the same field whatever follows the
/// line.
pub proof fn lemma_field_at_local(line: Seq<char>, rest: Seq<char>)
    requires
        one_line(line),
    ensures
        field_at(followed(line, rest)) == field_at(line),
{
    let text = followed(line, rest);
    if line.len() == 0 {
        assert(text[0] == '\n');
    } else {
        assert(text[0] == line[0]);
        if line[0] == '\t' {
            lemma_followed_skip(line, rest, 1);
            lemma_run_len_local(Zone::Key, line.skip(1), rest);
            lemma_run_len(Zone::Key, line.skip(1));
            let k = run_len(Zone::Key, line.skip(1)) as int;
            if 1 + k < line.len() {
                assert(text[1 + k] == line[1 + k]);
                lemma_followed_skip(line, rest, k + 2);
                lemma_run_len_local(Zone::Plain, line.skip(k + 2), rest);
                lemma_run_len(Zone::Plain, line.skip(k + 2));
                let v = run_len(Zone::Plain, line.skip(k + 2)) as int;
                assert(text.subrange(1, 1 + k) == line.subrange(1, 1 + k));
                assert(text.subrange(k + 2, k + 2 + v) == line.subrange(k + 2, k + 2 + v));
            } else {
                assert(text[1 + k] == '\n');
            }
        }
    }
}

/// The fields at the head of a line are the same fields whatever follows the
/// line.
pub proof fn lemma_parse_fields_local(line: Seq<char>, rest: Seq<char>)
    requires
        one_line(line),
    ensures
        parse_fields(followed(line, rest)) == parse_fields(line),
    decreases line.len(),
{
    lemma_field_at_local(line, rest);
    if let Some((_, n)) = field_at(line) {
        lemma_field_at(line);
        lemma_followed_skip(line, rest, n);
        lemma_parse_fields_local(line.skip(n), rest);
    }
}

/// What stands behind the terminator in a line is the same whatever follows
/// the line.
pub proof fn lemma_parse_metadata_local(line: Seq<char>, rest: Seq<char>)
    requires
        one_line(line),
    ensures
        parse_metadata(followed(line, rest)) == parse_metadata(line),
{
    let text = followed(line, rest);
    lemma_parse_fields_local(line, rest);
    if line.len() >= 2 {
        assert(text[0] == line[0] && text[1] == line[1]);
        lemma_followed_skip(line, rest, 2);
        lemma_parse_fields_local(line.skip(2), rest);
    } else if line.len() == 1 {
        assert(text[1] == '\n');
    } else {
        assert(text[0] == '\n');
    }
}

/// A line is read the same whatever follows it: the reading looks at nothing
/// behind the newline that ends the line.
pub proof fn lemma_parse_line_local(line: Seq<char>, rest: Seq<char>)
    requires
        one_line(line),
    ensures
        parse_line(followed(line, rest)) == parse_line(line),
{
    let text = followed(line, rest);
    let name_end = run_len(Zone::Plain, line) as int;
    lemma_run_len_local(Zone::Plain, line, rest);
    lemma_run_len(Zone::Plain, line);
    if name_end < line.len() {
        assert(text[name_end] == line[name_end]);
        lemma_followed_skip(line, rest, name_end + 1);
        let behind_name = line.skip(name_end + 1);
        lemma_run_len_local(Zone::Plain, behind_name, rest);
        lemma_run_len(Zone::Plain, behind_name);
        let path_end = name_end + 1 + run_len(Zone::Plain, behind_name);
        if path_end < line.len() {
            assert(text[path_end] == line[path_end]);
            lemma_followed_skip(line, rest, path_end + 1);
            let behind_path = line.skip(path_end + 1);
            lemma_run_len_local(Zone::Address, behind_path, rest);
            lemma_run_len(Zone::Address, behind_path);
            let address_end = path_end + 1 + run_len(Zone::Address, behind_path);
            assert(text.subrange(0, name_end) == line.subrange(0, name_end));
            assert(text.subrange(name_end + 1, path_end) == line.subrange(name_end + 1, path_end));
            assert(text.subrange(path_end + 1, address_end) == line.subrange(
                path_end + 1,
                address_end,
            ));
            if address_end + 1 < line.len() {
                assert(text[address_end] == line[address_end]);
                assert(text[address_end + 1] == line[address_end + 1]);
                lemma_followed_skip(line, rest, address_end + 2);
                lemma_parse_metadata_local(line.skip(address_end + 2), rest);
            } else if address_end < line.len() {
                assert(text[address_end + 1] == '\n');
            } else {
                assert(text[address_end] == '\n');
            }
        } else {
            assert(text[path_end] == '\n');
        }
    } else {
        assert(text[name_end] == '\n');
    }
}

/// The end of the run that begins at `chars[from]`.
pub fn run_end(zone: Zone, chars: &[char], from: usize) -> (end: usize)
    requires
        from <= chars.len(),
    ensures
        from <= end <= chars.len(),
        end - from == run_len(zone, chars@.skip(from as int)),
{
    let mut i: usize = from;
    loop
        invariant
            from <= i <= chars.len(),
            run_len(zone, chars@.skip(from as int)) == (i - from) + run_len(
                zone,
                chars@.skip(i as int),
            ),
        decreases chars.len() - i,
    {
        let stop = i >= chars.len() || chars[i] == '\t' || chars[i] == '\n' || match zone {
            Zone::Plain => false,
            Zone::Address => chars[i] == ';' && i + 1 < chars.len() && chars[i + 1] == '"',
            Zone::Key => chars[i] == ':',
        };
        assert(stop == stops(zone, chars@.skip(i as int), 0));
        if stop {
            return i;
        }
        assert(chars@.skip(i as int).skip(1) == chars@.skip(i + 1));
        i += 1;
    }
}

/// The field that begins at `chars[from]`, and the place where it ends.
pub fn read_field(chars: &[char], from: usize) -> (found: Option<((String, String), usize)>)
    requires
        from <= chars.len(),
    ensures
        match found {
            Some((field, end)) => from + 2 <= end <= chars.len() && field_at(
                chars@.skip(from as int),
            ) == Some(((field.0@, field.1@), end - from)),
            None => field_at(chars@.skip(from as int)) is None,
        },
{
    let ghost s = chars@.skip(from as int);
    if from < chars.len() && chars[from] == '\t' {
        let key_end = run_end(Zone::Key, chars, from + 1);
        assert(s.skip(1) == chars@.skip(from + 1));
        if key_end > from + 1 && key_end < chars.len() && chars[key_end] == ':' {
            let value_end = run_end(Zone::Plain, chars, key_end + 1);
            assert(s.skip(key_end - from + 1) == chars@.skip(key_end + 1));
            let key = string_of(chars, from + 1, key_end);
            let value = string_of(chars, key_end + 1, value_end);
            assert(s.subrange(1, key_end - from) == chars@.subrange(from + 1, key_end as int));
            assert(s.subrange(key_end - from + 1, value_end - from) == chars@.subrange(
                key_end + 1,
                value_end as int,
            ));
            Some(((key, value), value_end))
        } else {
            None
        }
    } else {
        None
    }
}

/// The fields that begin at `chars[from]`, in the order of the text, and the
/// place where the last of them ends.
pub fn read_fields(chars: &[char], from: usize) -> (found: (Vec<(String, String)>, usize))
    requires
        from <= chars.len(),
    ensures
        from <= found.1 <= chars.len(),
        parse_fields(chars@.skip(from as int)) == (FieldsParse {
            fields: pairs_of(found.0@),
            len: found.1 - from,
        }),
{
    let ghost whole = parse_fields(chars@.skip(from as int));
    let mut fields: Vec<(String, String)> = Vec::new();
    let mut pos: usize = from;
    assert(pairs_of(fields@) + whole.fields == whole.fields);
    loop
        invariant
            from <= pos <= chars.len(),
            whole == parse_fields(chars@.skip(from as int)),
            whole.fields == pairs_of(fields@) + parse_fields(chars@.skip(pos as int)).fields,
            whole.len == (pos - from) + parse_fields(chars@.skip(pos as int)).len,
        decreases chars.len() - pos,
    {
        match read_field(chars, pos) {
            Some((field, end)) => {
                proof {
                    let rest = parse_fields(chars@.skip(end as int));
                    assert(chars@.skip(pos as int).skip(end - pos) == chars@.skip(end as int));
                    assert(pairs_of(fields@.push(field)) == pairs_of(fields@).push(
                        (field.0@, field.1@),
                    ));
                    assert(pairs_of(fields@).push((field.0@, field.1@)) + rest.fields
                        == pairs_of(fields@) + (seq![(field.0@, field.1@)] + rest.fields));
                }
                fields.push(field);
                pos = end;
            },
            None => {
                assert(pairs_of(fields@) + Seq::<Pair>::empty() == pairs_of(fields@));
                return (fields, pos);
            },
        }
    }
}

/// What stands behind the terminator from `chars[from]` on, and the place
/// where it ends.
pub fn read_metadata(chars: &[char], from: usize) -> (found: (
    Option<char>,
    Vec<(String, String)>,
    usize,
))
    requires
        from <= chars.len(),
    ensures
        from <= found.2 <= chars.len(),
        parse_metadata(chars@.skip(from as int)) == (MetadataParse {
            kind: found.0,
            fields: pairs_of(found.1@),
            len: found.2 - from,
        }),
{
    let ghost s = chars@.skip(from as int);
    let kinded = from < chars.len() && from + 1 < chars.len() && chars[from] == '\t' && chars[from
        + 1] != '\t' && chars[from + 1] != '\n';
    if kinded {
        assert(s.skip(2) == chars@.skip(from + 2));
        let (fields, end) = read_fields(chars, from + 2);
        if fields.len() > 0 {
            return (Some(chars[from + 1]), fields, end);
        }
    }
    let (fields, end) = read_fields(chars, from);
    if fields.len() > 0 {
        (None, fields, end)
    } else if kinded {
        (Some(chars[from + 1]), fields, from + 2)
    } else {
        (None, fields, from)
    }
}

/// The line that begins at `chars[from]` with the place where it ends, or
/// the reason why no line begins there.
pub fn read_line(chars: &[char], from: usize) -> (found: Result<(Line, usize), FailureReason>)
    requires
        from <= chars.len(),
    ensures
        match found {
            Ok((line, end)) => from < end <= chars.len() && parse_line(chars@.skip(from as int))
                == (LineParse::Matched { line: line@, len: end - from }),
            Err(reason) => parse_line(chars@.skip(from as int)) == (LineParse::Failed { reason }),
        },
{
    let ghost s = chars@.skip(from as int);
    let name_end = run_end(Zone::Plain, chars, from);
    if name_end == from {
        return Err(FailureReason::MissingName);
    }
    if !(name_end < chars.len() && chars[name_end] == '\t') {
        return Err(FailureReason::MissingPath);
    }
    let path_end = run_end(Zone::Plain, chars, name_end + 1);
    assert(s.skip(name_end - from + 1) == chars@.skip(name_end + 1));
    if !(path_end < chars.len() && chars[path_end] == '\t') {
        return Err(FailureReason::MissingAddress);
    }
    let address_end = run_end(Zone::Address, chars, path_end + 1);
    assert(s.skip(path_end - from + 1) == chars@.skip(path_end + 1));
    let name = string_of(chars, from, name_end);
    let file_path = string_of(chars, name_end + 1, path_end);
    let address = string_of(chars, path_end + 1, address_end);
    proof {
        assert(s.subrange(0, name_end - from) == chars@.subrange(from as int, name_end as int));
        assert(s.subrange(name_end - from + 1, path_end - from) == chars@.subrange(
            name_end + 1,
            path_end as int,
        ));
        assert(s.subrange(path_end - from + 1, address_end - from) == chars@.subrange(
            path_end + 1,
            address_end as int,
        ));
    }
    if address_end < chars.len() && address_end + 1 < chars.len() && chars[address_end] == ';'
        && chars[address_end + 1] == '"' {
        assert(s.skip(address_end - from + 2) == chars@.skip(address_end + 2));
        let (kind, fields, end) = read_metadata(chars, address_end + 2);
        Ok((Line { name, file_path, address, terminated: true, kind, fields }, end))
    } else {
        let fields: Vec<(String, String)> = Vec::new();
        assert(pairs_of(fields@) == Seq::<Pair>::empty());
        Ok((Line { name, file_path, address, terminated: false, kind: None, fields }, address_end))
    }
}

} // verus!
