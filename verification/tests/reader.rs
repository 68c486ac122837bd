use read_ctags::{CtagItem, FailureReason, ReadCtagsError, TagsReader};
use std::io::{Error, ErrorKind};

fn only_b(path: &str) -> Result<String, Error> {
    if path == "B" {
        Ok("ClassMethod\tpath/to/file.rb\t2;\"\tS".to_string())
    } else {
        Err(Error::new(ErrorKind::NotFound, format!("{} is missing", path)))
    }
}

fn nothing(path: &str) -> Result<String, Error> {
    Err(Error::new(ErrorKind::NotFound, format!("{} is missing", path)))
}

#[test]
fn the_first_readable_candidate_is_loaded() {
    let reader = TagsReader::new(vec!["A", "B", "C"]);
    assert_eq!(reader.read(only_b).unwrap(), "ClassMethod\tpath/to/file.rb\t2;\"\tS");
    let items = reader.load(only_b).unwrap();
    assert_eq!(items, CtagItem::parse("ClassMethod\tpath/to/file.rb\t2;\"\tS").unwrap());
}

#[test]
fn no_readable_candidate_is_reported_with_all_candidates() {
    let reader = TagsReader::new(vec!["A", "B", "C"]);
    match reader.load(nothing) {
        Err(ReadCtagsError::NoCtagsFile((candidates, error))) => {
            assert_eq!(candidates, vec!["A", "B", "C"]);
            assert_eq!(error.kind(), ErrorKind::NotFound);
            assert_eq!(error.to_string(), "C is missing");
        }
        other => panic!("unexpected: {:?}", other),
    }
}

#[test]
fn candidates_behind_the_first_success_are_not_tried() {
    let tried = std::cell::RefCell::new(Vec::new());
    let reader = TagsReader::new(vec!["A", "B", "C"]);
    let contents = reader.read(|path: &str| {
        tried.borrow_mut().push(path.to_string());
        only_b(path)
    });
    assert!(contents.is_ok());
    assert_eq!(*tried.borrow(), vec!["A", "B"]);
}

#[test]
fn the_first_of_two_readable_candidates_wins() {
    let reader = TagsReader::new(vec!["x", "y"]);
    let contents = reader.read(|path: &str| Ok(format!("from {}", path)));
    assert_eq!(contents.unwrap(), "from x");
}

#[test]
fn without_candidates_nothing_is_provided() {
    let reader = TagsReader::new(vec![]);
    match reader.read(only_b) {
        Err((candidates, error)) => {
            assert!(candidates.is_empty());
            assert_eq!(error.kind(), ErrorKind::Other);
            assert_eq!(error.to_string(), "No file provided");
        }
        other => panic!("unexpected: {:?}", other),
    }
    assert!(matches!(reader.load(only_b), Err(ReadCtagsError::NoCtagsFile(_))));
}

#[test]
fn the_usual_places_are_the_default() {
    let reader = TagsReader::default();
    assert_eq!(reader.candidates(), vec![".git/tags", "tags", "tmp/tags"]);
    let contents = reader.read(|path: &str| {
        if path == "tmp/tags" {
            Ok("found".to_string())
        } else {
            nothing(path)
        }
    });
    assert_eq!(contents.unwrap(), "found");
}

#[test]
fn what_is_wrong_with_the_file_is_passed_on() {
    let reader = TagsReader::new(vec!["tags"]);
    let result = reader.load(|_path: &str| Ok("n\tf\t1;\"\tSX".to_string()));
    assert!(matches!(result, Err(ReadCtagsError::IncompleteParse)));
    let result = reader.load(|_path: &str| Ok("n\tf\t1\nEXTRA GARBAGE".to_string()));
    match result {
        Err(ReadCtagsError::FailedParse(failure)) => {
            assert_eq!(failure.remainder, "EXTRA GARBAGE");
            assert_eq!(failure.reason, FailureReason::MissingPath);
        }
        other => panic!("unexpected: {:?}", other),
    }
}

#[test]
fn parse_outcome_tells_the_three_failures_apart() {
    assert_eq!(TagsReader::parse_outcome(Ok("a\tf\t1\na\tf\t1".to_string())).unwrap().len(), 1);
    assert!(matches!(
        TagsReader::parse_outcome(Ok("a\tf\t1;\"x".to_string())),
        Err(ReadCtagsError::IncompleteParse)
    ));
    assert!(matches!(
        TagsReader::parse_outcome(Ok("a".to_string())),
        Err(ReadCtagsError::FailedParse(_))
    ));
    let report = (vec!["p".to_string()], Error::new(ErrorKind::PermissionDenied, "denied"));
    match TagsReader::parse_outcome(Err(report)) {
        Err(ReadCtagsError::NoCtagsFile((candidates, error))) => {
            assert_eq!(candidates, vec!["p"]);
            assert_eq!(error.kind(), ErrorKind::PermissionDenied);
        }
        other => panic!("unexpected: {:?}", other),
    }
}

#[test]
fn first_success_returns_the_first_success() {
    let halve = |n: u32| if n % 2 == 0 { Ok(n / 2) } else { Err(n) };
    assert_eq!(TagsReader::first_success(&[1, 3, 8, 10], 0, halve), Ok(4));
    assert_eq!(TagsReader::first_success(&[6], 0, halve), Ok(3));
}

#[test]
fn first_success_returns_the_last_failure() {
    let halve = |n: u32| if n % 2 == 0 { Ok(n / 2) } else { Err(n) };
    assert_eq!(TagsReader::first_success(&[1, 3, 5], 0, halve), Err(5));
}

#[test]
fn first_success_without_values_returns_the_default() {
    let halve = |n: u32| if n % 2 == 0 { Ok(n / 2) } else { Err(n) };
    assert_eq!(TagsReader::first_success(&[], 7, halve), Err(7));
}
