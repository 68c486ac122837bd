//! The text of a whole tags file: lines separated by newlines.
//!
//! Every line must be a line of the grammar, and behind each must stand a
//! newline or the end of the text. A newline at the very end is in order; an
//! empty text holds no entry. The entries of the text are a set: an entry that
//! several lines stand for is kept once, at the place of the first of them.

use crate::ctag_item::{entry_of, TagEntry};
use crate::fields::{lemma_normalized_ignores_order, mapping};
use crate::grammar::{
    followed, lemma_parse_line_bounds, lemma_parse_line_local, one_line, parse_line,
    FailureReason, LineParse,
};
use vstd::prelude::*;

verus! {

/// What is wrong with a text that is not a tags file.
pub enum ParseFault {
    /// A line was read, and what stands behind it is neither a newline nor
    /// the end of the text.
    IncompleteParse,
    /// At the place where a line should begin stands none of the grammar.
    FailedParse {
        /// The text from that place to its end.
        remainder: Seq<char>,
        reason: FailureReason,
    },
}

/// The entries of the lines of `s`, one for each line in the order of the
/// text, or what is wrong with the first line that is not in order.
pub open spec fn parse_lines(s: Seq<char>) -> Result<Seq<TagEntry>, ParseFault>
    decreases s.len(),
{
    if s.len() == 0 {
        Ok(Seq::empty())
    } else {
        match parse_line(s) {
            LineParse::Failed { reason } => Err(ParseFault::FailedParse { remainder: s, reason }),
            LineParse::Matched { line, len } => {
                proof {
                    lemma_parse_line_bounds(s);
                }
                if len >= s.len() {
                    Ok(seq![entry_of(line)])
                } else if s[len] != '\n' {
                    Err(ParseFault::IncompleteParse)
                } else {
                    match parse_lines(s.skip(len + 1)) {
                        Ok(rest) => Ok(seq![entry_of(line)] + rest),
                        Err(fault) => Err(fault),
                    }
                }
            },
        }
    }
}

/// The outcome of reading a text, with the entries of the lines before it put
/// in front.
pub open spec fn behind(
    seen: Seq<TagEntry>,
    outcome: Result<Seq<TagEntry>, ParseFault>,
) -> Result<Seq<TagEntry>, ParseFault> {
    match outcome {
        Ok(rest) => Ok(seen + rest),
        Err(fault) => Err(fault),
    }
}

/// Whether `text` is one whole line of the grammar: without a newline, and
/// read as a line to its end.
pub open spec fn is_line(text: Seq<char>) -> bool {
    &&& one_line(text)
    &&& parse_line(text) matches LineParse::Matched { len, .. } && len == text.len()
}

/// The entry of a whole line.
pub open spec fn line_entry(text: Seq<char>) -> TagEntry {
    entry_of(parse_line(text)->line)
}

/// The members of `s`, each once, in the order in which they first stand in
/// `s`.
pub open spec fn distinct<T>(s: Seq<T>) -> Seq<T>
    decreases s.len(),
{
    if s.len() == 0 {
        Seq::empty()
    } else {
        let front = distinct(s.drop_last());
        if front.contains(s.last()) {
            front
        } else {
            front.push(s.last())
        }
    }
}

/// The entries of the text `s`, each once, or what is wrong with the text.
pub open spec fn parse_text(s: Seq<char>) -> Result<Seq<TagEntry>, ParseFault> {
    match parse_lines(s) {
        Ok(entries) => Ok(distinct(entries)),
        Err(fault) => Err(fault),
    }
}

/// `distinct` keeps every member.
pub proof fn lemma_distinct_contains<T>(s: Seq<T>, x: T)
    ensures
        distinct(s).contains(x) <==> s.contains(x),
    decreases s.len(),
{
    if s.len() > 0 {
        let front = s.drop_last();
        let kept = distinct(front);
        lemma_distinct_contains(front, x);
        if s.contains(x) {
            let i = choose|i: int| 0 <= i < s.len() && s[i] == x;
            if i < front.len() {
                assert(front[i] == x);
                let j = choose|j: int| 0 <= j < kept.len() && kept[j] == x;
                assert(distinct(s)[j] == x);
            } else if !kept.contains(x) {
                assert(distinct(s)[kept.len() as int] == x);
            }
        }
        if distinct(s).contains(x) {
            let j = choose|j: int| 0 <= j < distinct(s).len() && distinct(s)[j] == x;
            if j < kept.len() {
                assert(kept[j] == x);
                let i = choose|i: int| 0 <= i < front.len() && front[i] == x;
                assert(s[i] == x);
            } else {
                assert(s[s.len() - 1] == x);
            }
        }
    }
}

/// `distinct` repeats no member.
pub proof fn lemma_distinct_no_duplicates<T>(s: Seq<T>)
    ensures
        distinct(s).no_duplicates(),
        distinct(s).len() <= s.len(),
    decreases s.len(),
{
    if s.len() > 0 {
        lemma_distinct_no_duplicates(s.drop_last());
    }
}

/// A list without repetition is its own `distinct`.
pub proof fn lemma_distinct_of_distinct<T>(s: Seq<T>)
    requires
        s.no_duplicates(),
    ensures
        distinct(s) == s,
    decreases s.len(),
{
    if s.len() > 0 {
        let front = s.drop_last();
        lemma_distinct_of_distinct(front);
        if front.contains(s.last()) {
            let i = choose|i: int| 0 <= i < front.len() && front[i] == s.last();
            assert(s[i] == s[s.len() - 1]);
        }
        assert(s == front.push(s.last()));
    }
}

/// A text that begins with a whole line and a newline is read as that line
/// and then the rest: the entry of the line comes first, and what is wrong
/// with the rest is wrong with the text.
pub proof fn lemma_line_then_rest(line: Seq<char>, rest: Seq<char>)
    requires
        is_line(line),
    ensures
        parse_lines(followed(line, rest)) == behind(seq![line_entry(line)], parse_lines(rest)),
{
    let text = followed(line, rest);
    lemma_parse_line_local(line, rest);
    lemma_parse_line_bounds(line);
    assert(text[line.len() as int] == '\n');
    assert(text.skip(line.len() as int + 1) == rest);
}

/// A text of one whole line has one entry.
pub proof fn lemma_one_line_text(line: Seq<char>)
    requires
        is_line(line),
    ensures
        parse_lines(line) == Ok::<Seq<TagEntry>, ParseFault>(seq![line_entry(line)]),
        parse_text(line) == Ok::<Seq<TagEntry>, ParseFault>(seq![line_entry(line)]),
{
    lemma_parse_line_bounds(line);
    lemma_distinct_of_distinct(seq![line_entry(line)]);
}

/// A text without a newline that is accepted is one whole line.
pub proof fn lemma_accepted_line(text: Seq<char>)
    requires
        one_line(text),
        text.len() > 0,
        parse_text(text) is Ok,
    ensures
        is_line(text),
{
    lemma_parse_line_bounds(text);
}

/// A line that stands twice in a text counts once.
pub proof fn lemma_repeated_line_counts_once(line: Seq<char>)
    requires
        is_line(line),
    ensures
        parse_text(followed(line, line)) == Ok::<Seq<TagEntry>, ParseFault>(
            seq![line_entry(line)],
        ),
{
    let entry = line_entry(line);
    lemma_line_then_rest(line, line);
    lemma_one_line_text(line);
    lemma_distinct_pair(entry, entry);
    assert(seq![entry] + seq![entry] == seq![entry, entry]);
}

/// Two lines that differ in nothing but the order in which they write their
/// fields are lines of one entry.
pub proof fn lemma_field_order_does_not_matter(a: Seq<char>, b: Seq<char>)
    requires
        is_line(a),
        is_line(b),
        ({
            let x = parse_line(a)->line;
            let y = parse_line(b)->line;
            &&& x.name == y.name
            &&& x.file_path == y.file_path
            &&& x.address == y.address
            &&& x.kind == y.kind
            &&& mapping(x.fields) == mapping(y.fields)
        }),
    ensures
        line_entry(a) == line_entry(b),
        parse_text(followed(a, b)) == Ok::<Seq<TagEntry>, ParseFault>(seq![line_entry(a)]),
{
    let entry = line_entry(a);
    lemma_normalized_ignores_order(parse_line(a)->line.fields, parse_line(b)->line.fields);
    lemma_line_then_rest(a, b);
    lemma_one_line_text(b);
    lemma_distinct_pair(entry, entry);
    assert(seq![entry] + seq![entry] == seq![entry, entry]);
}

/// What is wrong behind a whole line is wrong with the text.
pub proof fn lemma_fault_behind_a_line(line: Seq<char>, rest: Seq<char>)
    requires
        is_line(line),
        parse_text(rest) is Err,
    ensures
        parse_text(followed(line, rest)) == parse_text(rest),
{
    lemma_line_then_rest(line, rest);
}

/// A text whose first line is followed by something other than a newline is
/// not read to its end.
pub proof fn lemma_residue_is_incomplete(text: Seq<char>)
    requires
        parse_line(text) matches LineParse::Matched { len, .. } && len < text.len() && text[len]
            != '\n',
    ensures
        parse_text(text) == Err::<Seq<TagEntry>, ParseFault>(ParseFault::IncompleteParse),
{
    lemma_parse_line_bounds(text);
}

/// A text that begins with no line of the grammar fails as a whole, for the
/// reason that its beginning is no line.
pub proof fn lemma_unmatched_line_fails(text: Seq<char>)
    requires
        text.len() > 0,
        parse_line(text) is Failed,
    ensures
        parse_text(text) == Err::<Seq<TagEntry>, ParseFault>(
            ParseFault::FailedParse { remainder: text, reason: parse_line(text)->reason },
        ),
{
}

/// `distinct` of two members: one where they are the same, both where not.
pub proof fn lemma_distinct_pair<T>(x: T, y: T)
    ensures
        distinct(seq![x, y]) == if x == y {
            seq![x]
        } else {
            seq![x, y]
        },
{
    let pair = seq![x, y];
    let one = seq![x];
    assert(pair.drop_last() == one);
    lemma_distinct_of_distinct(one);
    if x == y {
        assert(one[0] == y);
    } else {
        assert(one.push(y) == pair);
    }
}

} // verus!
