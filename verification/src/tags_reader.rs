//! Finding the tags file: the first of a list of candidate paths that can be
//! read.
//!
//! Reading a file is left to the caller, who hands in the function that does
//! it. What is decided here is the order of the tries, where they stop, and
//! what is reported when none succeeds.

use crate::ctag_item::{entries_of, CtagItem, CtagsParseError, ParseFailure, TagEntry};
use crate::document::{parse_text, ParseFault};
use crate::grammar::FailureReason;
use vstd::prelude::*;
use vstd::string::*;

verus! {

/// `std::io::Error`, the error type of the standard library's input and
/// output. It is carried through as it is; nothing is known of what it holds.
#[verifier::external_type_specification]
#[verifier::external_body]
pub struct ExIoError(std::io::Error);

/// `std::io::Error::new` with the kind `ErrorKind::Other`: an error that
/// carries `message`. Nothing is claimed of the value.
#[verifier::external_body]
fn other_error(message: &str) -> std::io::Error {
    std::io::Error::new(std::io::ErrorKind::Other, message)
}

/// A reader that tries several candidate paths for the tags file, in order,
/// until the first is found.
pub struct TagsReader<'a> {
    filenames: Vec<&'a str>,
}

/// The ways in which finding and reading the tags file can fail.
#[derive(Debug)]
pub enum ReadCtagsError {
    /// No candidate could be read. The error holds the candidates that were
    /// tried, and the failure of the last of them.
    NoCtagsFile((Vec<String>, std::io::Error)),
    /// A line was read, but the text goes on behind it with something other
    /// than a newline.
    IncompleteParse,
    /// At the place where a line should begin stands none of the grammar.
    FailedParse(ParseFailure),
}

/// What a [`ReadCtagsError`] holds.
pub enum ReadFault {
    NoCtagsFile { candidates: Seq<Seq<char>>, error: std::io::Error },
    IncompleteParse,
    FailedParse { remainder: Seq<char>, reason: FailureReason },
}

/// The texts of a list of strings.
pub open spec fn texts_of(names: Seq<String>) -> Seq<Seq<char>> {
    names.map_values(|name: String| name@)
}

impl View for ReadCtagsError {
    type V = ReadFault;

    open spec fn view(&self) -> ReadFault {
        match self {
            ReadCtagsError::NoCtagsFile((names, error)) => ReadFault::NoCtagsFile {
                candidates: texts_of(names@),
                error: *error,
            },
            ReadCtagsError::IncompleteParse => ReadFault::IncompleteParse,
            ReadCtagsError::FailedParse(failure) => ReadFault::FailedParse {
                remainder: failure.remainder@,
                reason: failure.reason,
            },
        }
    }
}

impl<'a> TagsReader<'a> {
    /// The candidate paths, in the order in which they are tried.
    pub closed spec fn paths(&self) -> Seq<&'a str> {
        self.filenames@
    }
}

impl<'a> View for TagsReader<'a> {
    type V = Seq<Seq<char>>;

    /// The texts of the candidate paths.
    open spec fn view(&self) -> Seq<Seq<char>> {
        self.paths().map_values(|name: &'a str| name@)
    }
}

/// What is wrong with a text, as a failure of reading the tags file.
pub open spec fn read_fault(fault: ParseFault) -> ReadFault {
    match fault {
        ParseFault::IncompleteParse => ReadFault::IncompleteParse,
        ParseFault::FailedParse { remainder, reason } => ReadFault::FailedParse {
            remainder,
            reason,
        },
    }
}

/// What comes of the search for the tags file among `candidates`, told from
/// how the search ended: the entries of the text that was found, what is
/// wrong with that text, or that no file was found.
pub open spec fn loaded(
    candidates: Seq<Seq<char>>,
    found: Result<String, std::io::Error>,
) -> Result<Seq<TagEntry>, ReadFault> {
    match found {
        Ok(contents) => match parse_text(contents@) {
            Ok(entries) => Ok(entries),
            Err(fault) => Err(read_fault(fault)),
        },
        Err(error) => Err(ReadFault::NoCtagsFile { candidates, error }),
    }
}

/// Whether `outcome` reports how the search among `candidates` ended: the
/// contents that were found, or the candidates with the failure.
pub open spec fn reports(
    candidates: Seq<Seq<char>>,
    found: Result<String, std::io::Error>,
    outcome: Result<String, (Vec<String>, std::io::Error)>,
) -> bool {
    match found {
        Ok(contents) => outcome == Ok::<String, (Vec<String>, std::io::Error)>(contents),
        Err(error) => outcome matches Err(report) && texts_of(report.0@) == candidates && report.1
            == error,
    }
}

/// What the result of loading holds.
pub open spec fn load_view(
    result: Result<Vec<CtagItem>, ReadCtagsError>,
) -> Result<Seq<TagEntry>, ReadFault> {
    match result {
        Ok(items) => Ok(entries_of(items@)),
        Err(error) => Err(error@),
    }
}

/// What trying one candidate after the other comes to, told from the outcomes
/// of the tries: the first success, and where there is none the last
/// failure, and where nothing was tried the failure `default`.
pub open spec fn first_success_of<B, C>(tries: Seq<Result<B, C>>, default: C) -> Result<B, C>
    decreases tries.len(),
{
    if tries.len() == 0 {
        Err(default)
    } else {
        let before = first_success_of(tries.drop_last(), default);
        if before is Ok {
            before
        } else {
            tries.last()
        }
    }
}

/// Whether `tries` can be the outcomes of calling `f` on `values` in order
/// and stopping at the first success: every outcome is one that `f` can give
/// for its value, none but the last is a success, and no value is left out
/// unless the last outcome is a success.
pub open spec fn tried<A, B, C, F: Fn(A) -> Result<B, C>>(
    values: Seq<A>,
    f: F,
    tries: Seq<Result<B, C>>,
) -> bool {
    &&& tries.len() <= values.len()
    &&& forall|i: int| 0 <= i < tries.len() ==> call_ensures(f, (values[i],), #[trigger] tries[i])
    &&& forall|i: int| 0 <= i < tries.len() - 1 ==> (#[trigger] tries[i]) is Err
    &&& tries.len() < values.len() ==> tries.len() > 0 && tries.last() is Ok
}

/// Outcomes that stand behind the first success change nothing.
pub proof fn lemma_first_success_stands<B, C>(
    tries: Seq<Result<B, C>>,
    more: Seq<Result<B, C>>,
    default: C,
)
    requires
        tries.len() > 0,
        tries.last() is Ok,
        forall|i: int| 0 <= i < tries.len() - 1 ==> (#[trigger] tries[i]) is Err,
    ensures
        first_success_of(tries + more, default) == tries.last(),
    decreases more.len(),
{
    if more.len() == 0 {
        assert(tries + more == tries);
        lemma_failures_give_the_last(tries.drop_last(), default);
    } else {
        assert((tries + more).drop_last() == tries + more.drop_last());
        lemma_first_success_stands(tries, more.drop_last(), default);
    }
}

/// Where every try fails, the last failure counts, and `default` where
/// nothing was tried.
pub proof fn lemma_failures_give_the_last<B, C>(tries: Seq<Result<B, C>>, default: C)
    requires
        forall|i: int| 0 <= i < tries.len() ==> (#[trigger] tries[i]) is Err,
    ensures
        first_success_of(tries, default) == if tries.len() == 0 {
            Err(default)
        } else {
            tries.last()
        },
    decreases tries.len(),
{
    if tries.len() > 0 {
        let before = tries.drop_last();
        assert forall|i: int| 0 <= i < before.len() implies (#[trigger] before[i]) is Err by {
            assert(before[i] == tries[i]);
        }
        lemma_failures_give_the_last(before, default);
        assert(tries[tries.len() - 1] is Err);
    }
}

impl<'a> Default for TagsReader<'a> {
    /// The reader of the usual places: `.git/tags`, `tags` and `tmp/tags`.
    fn default() -> (reader: Self)
        ensures
            reader@ == seq![".git/tags"@, "tags"@, "tmp/tags"@],
    {
        let filenames = vec![".git/tags", "tags", "tmp/tags"];
        let reader = TagsReader { filenames };
        assert(reader@ == seq![".git/tags"@, "tags"@, "tmp/tags"@]);
        reader
    }
}

impl<'a> TagsReader<'a> {
    /// A reader of the given candidate paths, tried in their order.
    pub fn new(filenames: Vec<&'a str>) -> (reader: Self)
        ensures
            reader.paths() == filenames@,
    {
        TagsReader { filenames }
    }

    /// The candidate paths, in the order in which they are tried.
    pub fn candidates(&self) -> (names: Vec<String>)
        ensures
            texts_of(names@) == self@,
    {
        let mut names: Vec<String> = Vec::new();
        let mut i: usize = 0;
        while i < self.filenames.len()
            invariant
                i <= self.filenames.len(),
                texts_of(names@) == self@.take(i as int),
            decreases self.filenames.len() - i,
        {
            let name = String::from_str(self.filenames[i]);
            assert(texts_of(names@.push(name)) == self@.take(i as int).push(name@));
            assert(self@.take(i + 1) == self@.take(i as int).push(self@[i as int]));
            names.push(name);
            i += 1;
        }
        assert(self@.take(self@.len() as int) == self@);
        names
    }

    /// Tries the candidates in order with `run`, which reads the file at a
    /// path, and returns the contents of the first that it can read. Where it
    /// can read none, the error holds the candidates and the last failure of
    /// `run`; where there is no candidate, a failure that says so.
    pub fn read<F>(&self, run: F) -> (outcome: Result<String, (Vec<String>, std::io::Error)>)
        where
            F: Fn(&'a str) -> Result<String, std::io::Error>,
        requires
            forall|i: int|
                0 <= i < self.paths().len() ==> call_requires(run, (#[trigger] self.paths()[i],)),
        ensures
            exists|tries: Seq<Result<String, std::io::Error>>, fallback: std::io::Error|
                tried(self.paths(), run, tries) && reports(
                    self@,
                    #[trigger] first_success_of(tries, fallback),
                    outcome,
                ),
    {
        let fallback = other_error("No file provided");
        match Self::first_success(self.filenames.as_slice(), fallback, run) {
            Ok(contents) => Ok(contents),
            Err(error) => Err((self.candidates(), error)),
        }
    }

    /// What comes of the search for the tags file, told from how the search
    /// ended: the entries of the text that was found, each once; what is
    /// wrong with that text; or that no file was found, with the candidates
    /// and the failure handed in.
    pub fn parse_outcome(found: Result<String, (Vec<String>, std::io::Error)>) -> (result: Result<
        Vec<CtagItem>,
        ReadCtagsError,
    >)
        ensures
            load_view(result) == match found {
                Ok(contents) => match parse_text(contents@) {
                    Ok(entries) => Ok(entries),
                    Err(fault) => Err(read_fault(fault)),
                },
                Err(report) => Err(
                    ReadFault::NoCtagsFile { candidates: texts_of(report.0@), error: report.1 },
                ),
            },
            result matches Ok(items) ==> entries_of(items@).no_duplicates(),
    {
        match found {
            Ok(contents) => match CtagItem::parse(contents.as_str()) {
                Ok(items) => Ok(items),
                Err(CtagsParseError::IncompleteParse) => Err(ReadCtagsError::IncompleteParse),
                Err(CtagsParseError::FailedParse(failure)) => Err(
                    ReadCtagsError::FailedParse(failure),
                ),
            },
            Err(report) => Err(ReadCtagsError::NoCtagsFile(report)),
        }
    }

    /// Loads and parses the first tags file that `run` can read among the
    /// candidates.
    pub fn load<F>(&self, run: F) -> (result: Result<Vec<CtagItem>, ReadCtagsError>)
        where
            F: Fn(&'a str) -> Result<String, std::io::Error>,
        requires
            forall|i: int|
                0 <= i < self.paths().len() ==> call_requires(run, (#[trigger] self.paths()[i],)),
        ensures
            exists|tries: Seq<Result<String, std::io::Error>>, fallback: std::io::Error|
                tried(self.paths(), run, tries) && load_view(result) == loaded(
                    self@,
                    #[trigger] first_success_of(tries, fallback),
                ),
    {
        Self::parse_outcome(self.read(run))
    }

    /// Calls `f` on the values in order until it succeeds, and returns the
    /// first success. Where `f` succeeds on no value, the result is its last
    /// failure, and `Err(default)` where there is no value at all.
    pub fn first_success<A, B, C, F>(values: &[A], default: C, f: F) -> (outcome: Result<B, C>)
        where
            A: Copy,
            F: Fn(A) -> Result<B, C>,
        requires
            forall|i: int| 0 <= i < values.len() ==> call_requires(f, (#[trigger] values[i],)),
        ensures
            exists|tries: Seq<Result<B, C>>|
                tried(values@, f, tries) && outcome == first_success_of(tries, default),
    {
        let mut outcome: Result<B, C> = Err(default);
        let ghost mut tries: Seq<Result<B, C>> = Seq::empty();
        let mut i: usize = 0;
        while i < values.len()
            invariant
                i <= values.len(),
                forall|j: int| 0 <= j < values.len() ==> call_requires(f, (#[trigger] values[j],)),
                tries.len() == i,
                forall|j: int| 0 <= j < i ==> call_ensures(f, (values[j],), #[trigger] tries[j]),
                forall|j: int| 0 <= j < i ==> (#[trigger] tries[j]) is Err,
                outcome == first_success_of(tries, default),
                outcome is Err,
            decreases values.len() - i,
        {
            outcome = f(values[i]);
            proof {
                lemma_failures_give_the_last(tries, default);
                assert(tries.push(outcome).drop_last() == tries);
                tries = tries.push(outcome);
            }
            if outcome.is_ok() {
                assert(tried(values@, f, tries));
                return outcome;
            }
            i += 1;
        }
        assert(tried(values@, f, tries));
        outcome
    }
}

} // verus!
