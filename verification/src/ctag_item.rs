//! Tag entries: reading them from the text of a tags file, and writing one
//! back as its line.

use crate::document::{
    behind, distinct, lemma_distinct_no_duplicates, parse_lines, parse_text, ParseFault,
};
use crate::fields::{ascending, normalize, normalized, pairs_of, Pair};
use crate::grammar::{is_break, read_line, FailureReason, Line, RawLine};
use crate::language::{language_of_path, Language};
use crate::round_trip::{lemma_encode_then_parse, lemma_parsed_entries_are_well_formed};
use crate::text::{chars_of, string_of};
use crate::token_kind::{char_of_kind, kind_fits, kind_of_char, TokenKind};
use vstd::prelude::*;
use vstd::std_specs::cmp::PartialEqSpecImpl;
use vstd::string::*;

verus! {

/// A tag entry as a mathematical value: what a [`CtagItem`] holds.
pub struct TagEntry {
    pub name: Seq<char>,
    pub file_path: Seq<char>,
    pub address: Seq<char>,
    pub language: Option<Language>,
    pub tags: Seq<Pair>,
    pub kind: TokenKind,
}

/// A single entry of a tags file.
#[derive(Clone, Debug, Eq, Hash)]
pub struct CtagItem {
    /// Name of the tagged symbol.
    pub name: String,
    /// Path of the file that holds the symbol, as the tags file writes it.
    pub file_path: String,
    /// Where the symbol stands in the file: a line number or a search
    /// pattern, kept as it was written.
    pub address: String,
    /// Language of the file, told from its path.
    pub language: Option<Language>,
    /// Extension fields, ascending by key, each key once.
    pub tags: Vec<(String, String)>,
    /// Kind of the symbol.
    pub kind: TokenKind,
}

impl View for CtagItem {
    type V = TagEntry;

    open spec fn view(&self) -> TagEntry {
        TagEntry {
            name: self.name@,
            file_path: self.file_path@,
            address: self.address@,
            language: self.language,
            tags: pairs_of(self.tags@),
            kind: self.kind,
        }
    }
}

/// The place and the reason of a line that is none of the grammar.
#[derive(Debug)]
pub struct ParseFailure {
    /// The text from the beginning of that line to its end.
    pub remainder: String,
    /// What the line lacks.
    pub reason: FailureReason,
}

/// The ways in which reading the text of a tags file can fail.
#[derive(Debug)]
pub enum CtagsParseError {
    /// A line was read, but the text goes on behind it with something other
    /// than a newline.
    IncompleteParse,
    /// At the place where a line should begin stands none of the grammar.
    FailedParse(ParseFailure),
}

impl View for CtagsParseError {
    type V = ParseFault;

    open spec fn view(&self) -> ParseFault {
        match self {
            CtagsParseError::IncompleteParse => ParseFault::IncompleteParse,
            CtagsParseError::FailedParse(failure) => ParseFault::FailedParse {
                remainder: failure.remainder@,
                reason: failure.reason,
            },
        }
    }
}

/// The entries that a list of items holds.
pub open spec fn entries_of(items: Seq<CtagItem>) -> Seq<TagEntry> {
    items.map_values(|item: CtagItem| item@)
}

/// Whether no character of `s` is a tab or a newline.
pub open spec fn unbroken(s: Seq<char>) -> bool {
    forall|i: int| 0 <= i < s.len() ==> !is_break(#[trigger] s[i])
}

/// Whether `s` can stand as the key of a field: not empty, and without tab,
/// newline or colon.
pub open spec fn is_key(s: Seq<char>) -> bool {
    s.len() > 0 && forall|i: int| 0 <= i < s.len() ==> !is_break(#[trigger] s[i]) && s[i] != ':'
}

/// Whether `s` can stand as an address: without tab or newline, and without
/// the terminator `;"` anywhere in it.
pub open spec fn is_address(s: Seq<char>) -> bool {
    forall|i: int|
        0 <= i < s.len() ==> !is_break(#[trigger] s[i]) && !(s[i] == ';' && i + 1 < s.len() && s[i
            + 1] == '"')
}

/// The text of one field: a tab, the key, a colon and the value.
pub open spec fn field_text(field: Pair) -> Seq<char> {
    seq!['\t'] + field.0 + seq![':'] + field.1
}

/// The text of a list of fields, one behind the other.
pub open spec fn fields_text(fields: Seq<Pair>) -> Seq<char>
    decreases fields.len(),
{
    if fields.len() == 0 {
        Seq::empty()
    } else {
        field_text(fields[0]) + fields_text(fields.drop_first())
    }
}

impl TagEntry {
    /// Name, path and address, separated by tabs: what every line begins
    /// with.
    pub open spec fn head(self) -> Seq<char> {
        self.name + seq!['\t'] + self.file_path + seq!['\t'] + self.address
    }

    /// The line that stands for the entry, in the shortest of the grammar's
    /// forms that holds all of it: the terminator only where a kind or a
    /// field follows, the kind only where the entry has one, the fields in
    /// the order in which the entry holds them.
    pub open spec fn encoded(self) -> Seq<char> {
        match self.kind {
            TokenKind::Undefined => if self.tags.len() == 0 {
                self.head()
            } else {
                self.head() + seq![';', '"'] + fields_text(self.tags)
            },
            kind => self.head() + seq![';', '"', '\t', char_of_kind(kind, self.language)]
                + fields_text(self.tags),
        }
    }

    /// Whether the entry is one that reading a line can give: its parts hold
    /// none of the characters that would end them in a line, its language is
    /// the one its path tells, its kind is one that a character names in that
    /// language, and its fields ascend by key.
    pub open spec fn well_formed(self) -> bool {
        &&& self.name.len() > 0
        &&& unbroken(self.name)
        &&& unbroken(self.file_path)
        &&& is_address(self.address)
        &&& self.language == language_of_path(self.file_path)
        &&& self.kind != TokenKind::Undefined ==> kind_fits(self.kind, self.language) && !is_break(
            char_of_kind(self.kind, self.language),
        )
        &&& ascending(self.tags)
        &&& forall|i: int|
            0 <= i < self.tags.len() ==> is_key((#[trigger] self.tags[i]).0) && unbroken(
                self.tags[i].1,
            )
    }
}

/// The entry that the parts of a line stand for: the language told from the
/// path, the kind read in that language, the fields in canonical form.
pub open spec fn entry_of(line: RawLine) -> TagEntry {
    let language = language_of_path(line.file_path);
    TagEntry {
        name: line.name,
        file_path: line.file_path,
        address: line.address,
        language,
        tags: normalized(line.fields),
        kind: match line.kind {
            Some(c) => kind_of_char(c, language),
            None => TokenKind::Undefined,
        },
    }
}

/// Writing fields one behind the other is writing the first ones and then
/// the rest.
pub proof fn lemma_fields_text_concat(a: Seq<Pair>, b: Seq<Pair>)
    ensures
        fields_text(a + b) == fields_text(a) + fields_text(b),
    decreases a.len(),
{
    if a.len() == 0 {
        assert(a + b == b);
    } else {
        assert((a + b).drop_first() == a.drop_first() + b);
        lemma_fields_text_concat(a.drop_first(), b);
    }
}

/// Whether two lists hold the same keys with the same values in the same
/// order.
pub fn same_fields(a: &Vec<(String, String)>, b: &Vec<(String, String)>) -> (same: bool)
    ensures
        same == (pairs_of(a@) == pairs_of(b@)),
{
    if a.len() != b.len() {
        assert(pairs_of(a@).len() != pairs_of(b@).len());
        return false;
    }
    let mut i: usize = 0;
    while i < a.len()
        invariant
            i <= a.len() == b.len(),
            pairs_of(a@).take(i as int) == pairs_of(b@).take(i as int),
        decreases a.len() - i,
    {
        if a[i].0 != b[i].0 || a[i].1 != b[i].1 {
            assert(pairs_of(a@)[i as int] != pairs_of(b@)[i as int]);
            return false;
        }
        assert(pairs_of(a@).take(i + 1) == pairs_of(a@).take(i as int).push(
            pairs_of(a@)[i as int],
        ));
        assert(pairs_of(b@).take(i + 1) == pairs_of(b@).take(i as int).push(
            pairs_of(b@)[i as int],
        ));
        i += 1;
    }
    assert(pairs_of(a@).take(a@.len() as int) == pairs_of(a@));
    assert(pairs_of(b@).take(b@.len() as int) == pairs_of(b@));
    true
}

/// Writing a list with one more field is writing the list and then the
/// field.
pub proof fn lemma_fields_text_push(fields: Seq<Pair>, field: Pair)
    ensures
        fields_text(fields.push(field)) == fields_text(fields) + field_text(field),
{
    let one = seq![field];
    assert(fields.push(field) == fields + one);
    lemma_fields_text_concat(fields, one);
    assert(one.drop_first() == Seq::<Pair>::empty());
    assert(fields_text(one) == field_text(field) + fields_text(one.drop_first()));
    assert(field_text(field) + Seq::<char>::empty() == field_text(field));
}

impl PartialEq for CtagItem {
    /// Two items are equal where they hold the same entry.
    fn eq(&self, other: &CtagItem) -> (same: bool) {
        let same_language = match (self.language, other.language) {
            (Some(a), Some(b)) => a == b,
            (None, None) => true,
            _ => false,
        };
        self.name == other.name && self.file_path == other.file_path && self.address
            == other.address && same_language && self.kind == other.kind && same_fields(
            &self.tags,
            &other.tags,
        )
    }
}

impl PartialEqSpecImpl for CtagItem {
    open spec fn obeys_eq_spec() -> bool {
        true
    }

    open spec fn eq_spec(&self, other: &CtagItem) -> bool {
        self@ == other@
    }
}

/// Whether `items` holds an item with the entry of `item`.
pub fn holds(items: &Vec<CtagItem>, item: &CtagItem) -> (found: bool)
    ensures
        found == entries_of(items@).contains(item@),
{
    let mut i: usize = 0;
    while i < items.len()
        invariant
            i <= items.len(),
            forall|j: int| 0 <= j < i ==> entries_of(items@)[j] != item@,
        decreases items.len() - i,
    {
        if items[i] == *item {
            assert(entries_of(items@)[i as int] == item@);
            return true;
        }
        i += 1;
    }
    false
}

impl CtagItem {
    /// Parses the text of a tags file into its entries.
    ///
    /// The text is read line by line. It is accepted where every line is one
    /// of the grammar and ends at a newline or at the end of the text; a
    /// newline at the very end is in order, and an empty text has no entry.
    /// The result holds each entry once, in the order in which the entries
    /// first stand in the text. Nothing is returned of a text that is not
    /// accepted but the first thing wrong with it.
    pub fn parse(input: &str) -> (result: Result<Vec<CtagItem>, CtagsParseError>)
        ensures
            match result {
                Ok(items) => parse_text(input@) == Ok::<Seq<TagEntry>, ParseFault>(
                    entries_of(items@),
                ),
                Err(error) => parse_text(input@) == Err::<Seq<TagEntry>, ParseFault>(error@),
            },
            result matches Ok(items) ==> entries_of(items@).no_duplicates(),
            result matches Ok(items) ==> forall|i: int|
                0 <= i < items.len() ==> (#[trigger] items[i])@.well_formed(),
    {
        let chars = chars_of(input);
        let mut items: Vec<CtagItem> = Vec::new();
        let mut pos: usize = 0;
        let ghost mut seen: Seq<TagEntry> = Seq::empty();
        proof {
            assert(chars@.skip(0) == chars@);
            match parse_lines(chars@) {
                Ok(rest) => {
                    assert(seen + rest == rest);
                },
                Err(_) => {},
            }
        }
        while pos < chars.len()
            invariant
                pos <= chars.len(),
                chars@ == input@,
                parse_lines(chars@) == behind(seen, parse_lines(chars@.skip(pos as int))),
                entries_of(items@) == distinct(seen),
            decreases chars.len() - pos,
        {
            let ghost s = chars@.skip(pos as int);
            match read_line(chars.as_slice(), pos) {
                Err(reason) => {
                    let remainder = string_of(chars.as_slice(), pos, chars.len());
                    assert(s == chars@.subrange(pos as int, chars@.len() as int));
                    return Err(CtagsParseError::FailedParse(ParseFailure { remainder, reason }));
                },
                Ok((line, end)) => {
                    let item = CtagItem::from_line(line);
                    let ghost entry = item@;
                    proof {
                        assert(seen.push(entry).drop_last() == seen);
                    }
                    if !holds(&items, &item) {
                        proof {
                            assert(entries_of(items@.push(item)) == entries_of(items@).push(entry));
                        }
                        items.push(item);
                    }
                    if end >= chars.len() {
                        proof {
                            assert(seen + seq![entry] == seen.push(entry));
                            assert(seen.push(entry) + Seq::<TagEntry>::empty() == seen.push(entry));
                            seen = seen.push(entry);
                        }
                        pos = chars.len();
                    } else if chars[end] != '\n' {
                        return Err(CtagsParseError::IncompleteParse);
                    } else {
                        proof {
                            assert(s.skip(end - pos + 1) == chars@.skip(end + 1));
                            match parse_lines(chars@.skip(end + 1)) {
                                Ok(rest) => {
                                    assert(seen + (seq![entry] + rest) == seen.push(entry) + rest);
                                },
                                Err(_) => {},
                            }
                            seen = seen.push(entry);
                        }
                        pos = end + 1;
                    }
                },
            }
        }
        proof {
            assert(seen + Seq::<TagEntry>::empty() == seen);
            lemma_distinct_no_duplicates(seen);
            lemma_parsed_entries_are_well_formed(input@);
            let entries = entries_of(items@);
            assert(parse_text(input@) == Ok::<Seq<TagEntry>, ParseFault>(entries));
            assert forall|i: int| 0 <= i < items.len() implies (#[trigger] items[i])@.well_formed() by {
                assert(parse_text(input@)->Ok_0[i] == items[i]@);
            }
        }
        Ok(items)
    }

    /// The entry that the parts of a line stand for.
    pub fn from_line(line: Line) -> (item: CtagItem)
        ensures
            item@ == entry_of(line@),
    {
        let language = Language::resolve(line.file_path.as_str());
        let kind = match line.kind {
            Some(c) => TokenKind::from_char(c, language),
            None => TokenKind::Undefined,
        };
        let tags = normalize(line.fields);
        CtagItem {
            name: line.name,
            file_path: line.file_path,
            address: line.address,
            language,
            tags,
            kind,
        }
    }

    /// Encodes the entry into the line that stands for it in a tags file.
    ///
    /// The line is the shortest form of the grammar that holds all of the
    /// entry. Of a well-formed entry, and so of every entry that came of
    /// parsing, the line is read back as the entry.
    pub fn encode(&self) -> (line: String)
        ensures
            line@ == self@.encoded(),
            self@.well_formed() ==> parse_text(line@) == Ok::<Seq<TagEntry>, ParseFault>(
                seq![self@],
            ),
    {
        proof {
            if self@.well_formed() {
                lemma_encode_then_parse(self@);
            }
        }
        let mut line = String::new();
        line.append(self.name.as_str());
        line.push('\t');
        line.append(self.file_path.as_str());
        line.push('\t');
        line.append(self.address.as_str());
        assert(line@ == self@.head());
        match self.kind {
            TokenKind::Undefined => {
                if self.tags.len() > 0 {
                    line.push(';');
                    line.push('"');
                    assert(line@ == self@.head() + seq![';', '"']);
                }
            },
            _ => {
                line.push(';');
                line.push('"');
                line.push('\t');
                line.push(self.kind.to_token_char(self.language));
                assert(line@ == self@.head() + seq![
                    ';',
                    '"',
                    '\t',
                    char_of_kind(self.kind, self.language),
                ]);
            },
        }
        let ghost lead = line@;
        let ghost tags = self@.tags;
        assert(tags.take(0) == Seq::<Pair>::empty());
        let mut i: usize = 0;
        while i < self.tags.len()
            invariant
                i <= self.tags.len(),
                tags == pairs_of(self.tags@),
                line@ == lead + fields_text(tags.take(i as int)),
            decreases self.tags.len() - i,
        {
            let ghost before = line@;
            line.push('\t');
            line.append(self.tags[i].0.as_str());
            line.push(':');
            line.append(self.tags[i].1.as_str());
            proof {
                assert(line@ == before + field_text(tags[i as int]));
                assert(tags.take(i + 1) == tags.take(i as int).push(tags[i as int]));
                lemma_fields_text_push(tags.take(i as int), tags[i as int]);
            }
            i += 1;
        }
        assert(tags.take(tags.len() as int) == tags);
        assert(self@.tags.len() == 0 ==> lead + fields_text(tags) == lead);
        line
    }
}

} // verus!
