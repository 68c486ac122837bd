//! Reading and writing are inverse to each other.
//!
//! Every entry that a line is read as is well formed; the line written for a
//! well-formed entry is read back as that entry; and a line that is written
//! the way the encoder writes is written back the way it was read.

use crate::ctag_item::{
    entry_of, field_text, fields_text, is_address, is_key, unbroken, TagEntry,
};
use crate::document::{
    behind, distinct, is_line, lemma_accepted_line, lemma_distinct_contains,
    lemma_distinct_of_distinct, lemma_line_then_rest, lemma_one_line_text, line_entry,
    parse_lines, parse_text, ParseFault,
};
use crate::fields::{
    ascending, lemma_normalized, lemma_normalized_of_ascending, lemma_rank, normalized, rank,
    with_field, Pair,
};
use crate::grammar::{
    field_at, followed, is_break, lemma_field_at, lemma_parse_fields_bounds,
    lemma_parse_line_bounds, lemma_run_len, lemma_run_len_is, one_line, parse_fields, parse_line,
    parse_metadata, run_len, stops, FieldsParse, LineParse, MetadataParse, RawLine, Zone,
};
use crate::token_kind::{char_of_kind, lemma_char_round_trip, TokenKind};
use vstd::prelude::*;

verus! {

/// Whether every field of the list has a key that can stand as one and a
/// value without tab or newline.
pub open spec fn fields_fit(fields: Seq<Pair>) -> bool {
    forall|i: int|
        0 <= i < fields.len() ==> is_key((#[trigger] fields[i]).0) && unbroken(fields[i].1)
}

/// The field read at the head of a text has a key and a value that can stand
/// as such.
pub proof fn lemma_field_at_fits(s: Seq<char>)
    ensures
        field_at(s) matches Some((field, _)) ==> is_key(field.0) && unbroken(field.1),
{
    if let Some((field, n)) = field_at(s) {
        let k = run_len(Zone::Key, s.skip(1)) as int;
        lemma_run_len(Zone::Key, s.skip(1));
        lemma_run_len(Zone::Plain, s.skip(k + 2));
        assert forall|i: int| 0 <= i < field.0.len() implies !is_break(#[trigger] field.0[i])
            && field.0[i] != ':' by {
            assert(!stops(Zone::Key, s.skip(1), i));
        }
        assert forall|i: int| 0 <= i < field.1.len() implies !is_break(#[trigger] field.1[i]) by {
            assert(!stops(Zone::Plain, s.skip(k + 2), i));
        }
    }
}

/// The fields read at the head of a text all have keys and values that can
/// stand as such.
pub proof fn lemma_parse_fields_fit(s: Seq<char>)
    ensures
        fields_fit(parse_fields(s).fields),
    decreases s.len(),
{
    if let Some((field, n)) = field_at(s) {
        lemma_field_at(s);
        lemma_field_at_fits(s);
        lemma_parse_fields_fit(s.skip(n));
        let rest = parse_fields(s.skip(n)).fields;
        let all = parse_fields(s).fields;
        assert forall|i: int| 0 <= i < all.len() implies is_key((#[trigger] all[i]).0)
            && unbroken(all[i].1) by {
            if i > 0 {
                assert(all[i] == rest[i - 1]);
            }
        }
    }
}

/// Setting a field that fits in a list of fields that fit gives such a list.
pub proof fn lemma_with_field_fits(fields: Seq<Pair>, key: Seq<char>, value: Seq<char>)
    requires
        fields_fit(fields),
        is_key(key),
        unbroken(value),
    ensures
        fields_fit(with_field(fields, key, value)),
{
    let at = rank(fields, key);
    lemma_rank(fields, key);
    let set = with_field(fields, key, value);
    assert forall|i: int| 0 <= i < set.len() implies is_key((#[trigger] set[i]).0) && unbroken(
        set[i].1,
    ) by {
        if i != at {
            let j = if at < fields.len() && fields[at].0 == key || i < at {
                i
            } else {
                i - 1
            };
            assert(set[i] == fields[j]);
        }
    }
}

/// The canonical form of fields that fit holds fields that fit.
pub proof fn lemma_normalized_fits(raw: Seq<Pair>)
    requires
        fields_fit(raw),
    ensures
        fields_fit(normalized(raw)),
    decreases raw.len(),
{
    if raw.len() > 0 {
        let front = raw.drop_last();
        assert forall|i: int| 0 <= i < front.len() implies is_key((#[trigger] front[i]).0)
            && unbroken(front[i].1) by {
            assert(front[i] == raw[i]);
        }
        lemma_normalized_fits(front);
        assert(is_key(raw[raw.len() - 1].0));
        lemma_with_field_fits(normalized(front), raw.last().0, raw.last().1);
    }
}

/// What is read behind the terminator: a kind that is no tab or newline, and
/// fields that fit.
pub proof fn lemma_parse_metadata_fits(s: Seq<char>)
    ensures
        fields_fit(parse_metadata(s).fields),
        parse_metadata(s).kind matches Some(c) ==> !is_break(c),
{
    lemma_parse_fields_fit(s);
    if s.len() >= 2 {
        lemma_parse_fields_fit(s.skip(2));
    }
}

/// Every entry that a line is read as is well formed.
pub proof fn lemma_parsed_entry_is_well_formed(s: Seq<char>)
    ensures
        parse_line(s) matches LineParse::Matched { line, .. } ==> entry_of(line).well_formed(),
{
    if let LineParse::Matched { line, len } = parse_line(s) {
        let entry = entry_of(line);
        let name_end = run_len(Zone::Plain, s) as int;
        lemma_run_len(Zone::Plain, s);
        let behind_name = s.skip(name_end + 1);
        let path_end = name_end + 1 + run_len(Zone::Plain, behind_name);
        lemma_run_len(Zone::Plain, behind_name);
        let behind_path = s.skip(path_end + 1);
        let address_end = path_end + 1 + run_len(Zone::Address, behind_path);
        lemma_run_len(Zone::Address, behind_path);
        assert forall|i: int| 0 <= i < line.name.len() implies !is_break(
            #[trigger] line.name[i],
        ) by {
            assert(!stops(Zone::Plain, s, i));
        }
        assert forall|i: int| 0 <= i < line.file_path.len() implies !is_break(
            #[trigger] line.file_path[i],
        ) by {
            assert(!stops(Zone::Plain, behind_name, i));
        }
        assert forall|i: int| 0 <= i < line.address.len() implies !is_break(
            #[trigger] line.address[i],
        ) && !(line.address[i] == ';' && i + 1 < line.address.len() && line.address[i + 1]
            == '"') by {
            assert(!stops(Zone::Address, behind_path, i));
        }
        if line.terminated {
            lemma_parse_metadata_fits(s.skip(address_end + 2));
        }
        lemma_normalized_fits(line.fields);
        lemma_normalized(line.fields);
        if let Some(c) = line.kind {
            lemma_char_round_trip(c, entry.language);
        }
    }
}

/// The text of fields begins with a tab.
pub proof fn lemma_fields_text_head(fields: Seq<Pair>)
    requires
        fields.len() > 0,
    ensures
        fields_text(fields).len() >= 2 + fields[0].0.len(),
        fields_text(fields)[0] == '\t',
        forall|i: int| 0 <= i < fields[0].0.len() ==> fields_text(fields)[1 + i] == fields[0].0[i],
        fields_text(fields)[1 + fields[0].0.len() as int] == ':',
{
}

/// The text written for fields that fit is read back as those fields, to its
/// end.
pub proof fn lemma_fields_text_is_read_back(fields: Seq<Pair>)
    requires
        fields_fit(fields),
    ensures
        parse_fields(fields_text(fields)) == (FieldsParse {
            fields,
            len: fields_text(fields).len() as int,
        }),
    decreases fields.len(),
{
    let s = fields_text(fields);
    if fields.len() == 0 {
        assert(fields == Seq::<Pair>::empty());
    } else {
        let key = fields[0].0;
        let value = fields[0].1;
        let rest = fields.drop_first();
        let k = key.len() as int;
        let v = value.len() as int;
        assert(is_key(key) && unbroken(value));
        assert(s == seq!['\t'] + key + seq![':'] + value + fields_text(rest));
        let behind_tab = s.skip(1);
        assert forall|i: int| 0 <= i < k implies !stops(Zone::Key, behind_tab, i) by {
            assert(behind_tab[i] == key[i]);
        }
        assert(behind_tab[k] == ':');
        lemma_run_len_is(Zone::Key, behind_tab, k);
        let behind_colon = s.skip(k + 2);
        assert forall|i: int| 0 <= i < v implies !stops(Zone::Plain, behind_colon, i) by {
            assert(behind_colon[i] == value[i]);
        }
        if rest.len() > 0 {
            lemma_fields_text_head(rest);
            assert(behind_colon[v] == fields_text(rest)[0]);
        }
        lemma_run_len_is(Zone::Plain, behind_colon, v);
        assert(s.subrange(1, 1 + k) == key);
        assert(s.subrange(k + 2, k + 2 + v) == value);
        assert(field_at(s) == Some(((key, value), k + 2 + v)));
        assert(s.skip(k + 2 + v) == fields_text(rest));
        assert forall|i: int| 0 <= i < rest.len() implies is_key((#[trigger] rest[i]).0)
            && unbroken(rest[i].1) by {
            assert(rest[i] == fields[i + 1]);
        }
        lemma_fields_text_is_read_back(rest);
        assert(seq![(key, value)] + rest == fields);
    }
}

/// What the encoder writes behind the terminator is read back as it was
/// written: the kind, where one was written, and the fields.
pub proof fn lemma_metadata_is_read_back(kind: Option<char>, fields: Seq<Pair>)
    requires
        fields_fit(fields),
        kind matches Some(c) ==> !is_break(c),
        kind is Some || fields.len() > 0,
    ensures
        ({
            let text = match kind {
                Some(c) => seq!['\t', c] + fields_text(fields),
                None => fields_text(fields),
            };
            parse_metadata(text) == (MetadataParse { kind, fields, len: text.len() as int })
        }),
{
    lemma_fields_text_is_read_back(fields);
    match kind {
        Some(c) => {
            let text = seq!['\t', c] + fields_text(fields);
            assert(text.skip(2) == fields_text(fields));
            if fields.len() == 0 {
                assert(text == seq!['\t', c]);
                let k = run_len(Zone::Key, text.skip(1)) as int;
                lemma_run_len(Zone::Key, text.skip(1));
                assert(field_at(text) is None);
            }
        },
        None => {
            let text = fields_text(fields);
            lemma_fields_text_head(fields);
            assert(is_key(fields[0].0));
            assert(text[1] == fields[0].0[0]);
            assert(text.skip(2)[0] == text[2]);
            assert(text[2] != '\t') by {
                if fields[0].0.len() > 1 {
                    assert(text[2] == fields[0].0[1]);
                }
            }
            assert(field_at(text.skip(2)) is None);
        },
    }
}

/// Name, path and address are read back from the head of a line, whatever
/// the line goes on with behind the address: nothing, or the terminator.
pub proof fn lemma_head_is_read_back(entry: TagEntry, tail: Seq<char>)
    requires
        entry.name.len() > 0,
        unbroken(entry.name),
        unbroken(entry.file_path),
        is_address(entry.address),
        tail.len() == 0 || (tail.len() >= 2 && tail[0] == ';' && tail[1] == '"'),
    ensures
        ({
            let s = entry.head() + tail;
            let name_end = entry.name.len() as int;
            let path_end = name_end + 1 + entry.file_path.len();
            let address_end = path_end + 1 + entry.address.len();
            &&& run_len(Zone::Plain, s) == name_end
            &&& s[name_end] == '\t'
            &&& run_len(Zone::Plain, s.skip(name_end + 1)) == entry.file_path.len()
            &&& s[path_end] == '\t'
            &&& run_len(Zone::Address, s.skip(path_end + 1)) == entry.address.len()
            &&& s.len() == address_end + tail.len()
            &&& s.subrange(0, name_end) == entry.name
            &&& s.subrange(name_end + 1, path_end) == entry.file_path
            &&& s.subrange(path_end + 1, address_end) == entry.address
            &&& s.skip(address_end) == tail
        }),
{
    let s = entry.head() + tail;
    let name_end = entry.name.len() as int;
    let path_end = name_end + 1 + entry.file_path.len();
    let address_end = path_end + 1 + entry.address.len();
    assert(s.subrange(0, name_end) == entry.name);
    assert(s.subrange(name_end + 1, path_end) == entry.file_path);
    assert(s.subrange(path_end + 1, address_end) == entry.address);
    assert(s.skip(address_end) == tail);
    assert forall|i: int| 0 <= i < name_end implies !stops(Zone::Plain, s, i) by {
        assert(s[i] == entry.name[i]);
    }
    lemma_run_len_is(Zone::Plain, s, name_end);
    let behind_name = s.skip(name_end + 1);
    assert forall|i: int| 0 <= i < entry.file_path.len() implies !stops(
        Zone::Plain,
        behind_name,
        i,
    ) by {
        assert(behind_name[i] == entry.file_path[i]);
    }
    assert(behind_name[entry.file_path.len() as int] == '\t');
    lemma_run_len_is(Zone::Plain, behind_name, entry.file_path.len() as int);
    let behind_path = s.skip(path_end + 1);
    assert forall|i: int| 0 <= i < entry.address.len() implies !stops(
        Zone::Address,
        behind_path,
        i,
    ) by {
        assert(behind_path[i] == entry.address[i]);
        if i + 1 < entry.address.len() {
            assert(behind_path[i + 1] == entry.address[i + 1]);
        } else if tail.len() > 0 {
            assert(behind_path[i + 1] == tail[0]);
        }
    }
    if tail.len() > 0 {
        assert(behind_path[entry.address.len() as int] == tail[0]);
        assert(behind_path[entry.address.len() as int + 1] == tail[1]);
    }
    lemma_run_len_is(Zone::Address, behind_path, entry.address.len() as int);
}

/// The line that the encoder writes for a well-formed entry is read back, to
/// its end, as that entry.
pub proof fn lemma_encoded_line_is_read_back(entry: TagEntry)
    requires
        entry.well_formed(),
    ensures
        parse_line(entry.encoded()) matches LineParse::Matched { line, len } && len
            == entry.encoded().len() && entry_of(line) == entry,
{
    let text = entry.encoded();
    let address_end = (entry.name.len() + entry.file_path.len() + entry.address.len() + 2) as int;
    lemma_normalized_of_ascending(entry.tags);
    if entry.kind == TokenKind::Undefined && entry.tags.len() == 0 {
        lemma_head_is_read_back(entry, Seq::empty());
        assert(text == entry.head() + Seq::<char>::empty());
        assert(entry.tags == Seq::<Pair>::empty());
    } else {
        let kind = if entry.kind == TokenKind::Undefined {
            None
        } else {
            Some(char_of_kind(entry.kind, entry.language))
        };
        let meta = match kind {
            Some(c) => seq!['\t', c] + fields_text(entry.tags),
            None => fields_text(entry.tags),
        };
        let tail = seq![';', '"'] + meta;
        lemma_head_is_read_back(entry, tail);
        assert(text == entry.head() + tail) by {
            assert(seq![';', '"'] + seq!['\t', char_of_kind(entry.kind, entry.language)]
                == seq![';', '"', '\t', char_of_kind(entry.kind, entry.language)]);
        }
        assert(text[address_end] == ';' && text[address_end + 1] == '"') by {
            assert(text.skip(address_end)[0] == ';');
            assert(text.skip(address_end)[1] == '"');
        }
        assert(text.skip(address_end + 2) == meta) by {
            assert(text.skip(address_end).skip(2) == text.skip(address_end + 2));
            assert(tail.skip(2) == meta);
        }
        lemma_metadata_is_read_back(kind, entry.tags);
    }
}

/// The line that the encoder writes for a well-formed entry is a text of one
/// entry: that entry.
pub proof fn lemma_encode_then_parse(entry: TagEntry)
    requires
        entry.well_formed(),
    ensures
        parse_text(entry.encoded()) == Ok::<Seq<TagEntry>, ParseFault>(seq![entry]),
{
    lemma_encoded_line_is_read_back(entry);
    lemma_distinct_of_distinct(seq![entry]);
}

/// Whether a line is written the way the encoder writes: with its fields in
/// ascending order of their keys, and with the terminator only where a kind
/// or a field stands behind it.
pub open spec fn canonical(line: RawLine) -> bool {
    &&& ascending(line.fields)
    &&& line.terminated ==> line.kind is Some || line.fields.len() > 0
}

/// The characters that a list of fields was read from are the text that is
/// written for the list.
pub proof fn lemma_parsed_fields_text(s: Seq<char>)
    ensures
        s.subrange(0, parse_fields(s).len) == fields_text(parse_fields(s).fields),
    decreases s.len(),
{
    lemma_parse_fields_bounds(s);
    match field_at(s) {
        Some((field, n)) => {
            lemma_field_at(s);
            let k = run_len(Zone::Key, s.skip(1)) as int;
            lemma_run_len(Zone::Plain, s.skip(k + 2));
            let rest = parse_fields(s.skip(n));
            lemma_parsed_fields_text(s.skip(n));
            lemma_parse_fields_bounds(s.skip(n));
            let all = parse_fields(s).fields;
            assert(all[0] == field);
            assert(all.drop_first() == rest.fields);
            assert(s.subrange(0, n) == field_text(field));
            assert(s.subrange(0, n + rest.len) == s.subrange(0, n) + s.skip(n).subrange(
                0,
                rest.len,
            ));
        },
        None => {
            assert(s.subrange(0, 0) == Seq::<char>::empty());
        },
    }
}

/// The characters that a kind and fields were read from behind the
/// terminator are the text that is written for them.
pub proof fn lemma_parsed_metadata_text(s: Seq<char>)
    ensures
        ({
            let meta = parse_metadata(s);
            s.subrange(0, meta.len) == match meta.kind {
                Some(c) => seq!['\t', c] + fields_text(meta.fields),
                None => fields_text(meta.fields),
            }
        }),
{
    let meta = parse_metadata(s);
    lemma_parsed_fields_text(s);
    lemma_parse_fields_bounds(s);
    if s.len() >= 2 {
        let behind_kind = parse_fields(s.skip(2));
        lemma_parsed_fields_text(s.skip(2));
        lemma_parse_fields_bounds(s.skip(2));
        assert(s.subrange(0, 2 + behind_kind.len) == seq![s[0], s[1]] + s.skip(2).subrange(
            0,
            behind_kind.len,
        ));
        assert(s.subrange(0, 2) == seq![s[0], s[1]]);
    }
    if meta.kind is Some && meta.fields.len() == 0 {
        assert(seq!['\t', s[1]] + Seq::<char>::empty() == seq!['\t', s[1]]);
    }
    if meta.kind is None && meta.fields.len() == 0 {
        assert(s.subrange(0, 0) == Seq::<char>::empty());
    }
}

/// A line that is read to its end, and that is written the way the encoder
/// writes, is the line that the encoder writes for the entry it was read as.
///
/// Two kinds of lines are read and then written otherwise than they were: a
/// line whose terminator has nothing behind it is written without the
/// terminator, and a line whose fields do not ascend by key, or name a key
/// twice, is written with its fields in order, each key once.
pub proof fn lemma_parse_then_encode(text: Seq<char>)
    requires
        parse_line(text) matches LineParse::Matched { line, len } && len == text.len()
            && canonical(line),
    ensures
        parse_line(text) matches LineParse::Matched { line, .. } && entry_of(line).encoded()
            == text,
{
    if let LineParse::Matched { line, len } = parse_line(text) {
        let entry = entry_of(line);
        let name_end = run_len(Zone::Plain, text) as int;
        let path_end = name_end + 1 + run_len(Zone::Plain, text.skip(name_end + 1));
        let address_end = path_end + 1 + run_len(Zone::Address, text.skip(path_end + 1));
        lemma_run_len(Zone::Plain, text);
        lemma_run_len(Zone::Plain, text.skip(name_end + 1));
        lemma_run_len(Zone::Address, text.skip(path_end + 1));
        lemma_normalized_of_ascending(line.fields);
        assert(text.subrange(0, address_end) == entry.head());
        if line.terminated {
            let behind = text.skip(address_end + 2);
            let meta = parse_metadata(behind);
            lemma_parsed_metadata_text(behind);
            assert(behind.subrange(0, meta.len) == behind);
            assert(text == entry.head() + seq![';', '"'] + behind);
            if let Some(c) = line.kind {
                lemma_char_round_trip(c, entry.language);
                assert(seq![';', '"'] + (seq!['\t', c] + fields_text(line.fields)) == seq![
                    ';',
                    '"',
                    '\t',
                    c,
                ] + fields_text(line.fields));
            }
        } else {
            assert(text.subrange(0, address_end) == text);
        }
    }
}

/// Every line that the parser accepts and that is written the way the
/// encoder writes is written back as it was read: the text is read as one
/// entry, and the line of that entry is the text.
pub proof fn lemma_round_trip(text: Seq<char>)
    requires
        text.len() > 0,
        one_line(text),
        parse_text(text) is Ok,
        canonical(parse_line(text)->line),
    ensures
        parse_text(text) == Ok::<Seq<TagEntry>, ParseFault>(seq![line_entry(text)]),
        line_entry(text).encoded() == text,
{
    lemma_accepted_line(text);
    lemma_one_line_text(text);
    lemma_parse_then_encode(text);
}

/// The text of fields that fit holds no newline.
pub proof fn lemma_fields_text_one_line(fields: Seq<Pair>)
    requires
        fields_fit(fields),
    ensures
        one_line(fields_text(fields)),
    decreases fields.len(),
{
    if fields.len() > 0 {
        let rest = fields.drop_first();
        assert forall|i: int| 0 <= i < rest.len() implies is_key((#[trigger] rest[i]).0)
            && unbroken(rest[i].1) by {
            assert(rest[i] == fields[i + 1]);
        }
        lemma_fields_text_one_line(rest);
        assert(is_key(fields[0].0) && unbroken(fields[0].1));
    }
}

/// The line of a well-formed entry holds no newline.
pub proof fn lemma_encoded_is_one_line(entry: TagEntry)
    requires
        entry.well_formed(),
    ensures
        one_line(entry.encoded()),
        is_line(entry.encoded()),
        line_entry(entry.encoded()) == entry,
{
    lemma_fields_text_one_line(entry.tags);
    lemma_encoded_line_is_read_back(entry);
}

/// The text of a tags file that holds the lines of `entries`, one line for
/// each in their order, separated by newlines.
pub open spec fn written(entries: Seq<TagEntry>) -> Seq<char>
    decreases entries.len(),
{
    if entries.len() == 0 {
        Seq::empty()
    } else if entries.len() == 1 {
        entries[0].encoded()
    } else {
        followed(entries[0].encoded(), written(entries.drop_first()))
    }
}

/// The lines written for well-formed entries are read back as those entries,
/// each once.
pub proof fn lemma_written_text_is_read_back(entries: Seq<TagEntry>)
    requires
        forall|i: int| 0 <= i < entries.len() ==> (#[trigger] entries[i]).well_formed(),
    ensures
        parse_lines(written(entries)) == Ok::<Seq<TagEntry>, ParseFault>(entries),
        parse_text(written(entries)) == Ok::<Seq<TagEntry>, ParseFault>(distinct(entries)),
    decreases entries.len(),
{
    if entries.len() == 0 {
        assert(entries == Seq::<TagEntry>::empty());
    } else {
        let first = entries[0];
        assert(first.well_formed());
        lemma_encoded_is_one_line(first);
        if entries.len() == 1 {
            lemma_one_line_text(first.encoded());
            assert(entries == seq![first]);
        } else {
            let rest = entries.drop_first();
            assert forall|i: int| 0 <= i < rest.len() implies (#[trigger] rest[i]).well_formed() by {
                assert(rest[i] == entries[i + 1]);
            }
            lemma_written_text_is_read_back(rest);
            lemma_line_then_rest(first.encoded(), written(rest));
            assert(seq![first] + rest == entries);
        }
    }
}

/// Every entry of an accepted text is well formed.
pub proof fn lemma_parsed_entries_are_well_formed(text: Seq<char>)
    ensures
        parse_lines(text) matches Ok(entries) ==> forall|i: int|
            0 <= i < entries.len() ==> (#[trigger] entries[i]).well_formed(),
        parse_text(text) matches Ok(entries) ==> forall|i: int|
            0 <= i < entries.len() ==> (#[trigger] entries[i]).well_formed(),
    decreases text.len(),
{
    if let Ok(entries) = parse_lines(text) {
        if text.len() > 0 {
            lemma_parsed_entry_is_well_formed(text);
            lemma_parse_line_bounds(text);
            if let LineParse::Matched { line, len } = parse_line(text) {
                if len < text.len() {
                    let rest = parse_lines(text.skip(len + 1))->Ok_0;
                    lemma_parsed_entries_are_well_formed(text.skip(len + 1));
                    assert forall|i: int| 0 <= i < entries.len() implies (
                    #[trigger] entries[i]).well_formed() by {
                        if i > 0 {
                            assert(entries[i] == rest[i - 1]);
                        }
                    }
                }
            }
        }
        let kept = distinct(entries);
        assert forall|i: int| 0 <= i < kept.len() implies (#[trigger] kept[i]).well_formed() by {
            lemma_distinct_contains(entries, kept[i]);
            assert(kept.contains(kept[i]));
            let j = choose|j: int| 0 <= j < entries.len() && entries[j] == kept[i];
            assert(entries[j].well_formed());
        }
    }
}

} // verus!
