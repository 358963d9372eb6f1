use ceport::{FileId, Files, Location, ParsedFile, SourceCodes};

const FIZZ: &str = "module FizzBuzz where\n\nfizz₁ : Nat → String\nfizz₁ num = case (mod num 5) (mod num 3) of\n    0 0 => \"FizzBuzz\"\n    0 _ => \"Fizz\"\n    _ 0 => \"Buzz\"\n    _ _ => num\n\nfizz₂ : Nat → String\nfizz₂ num =\n    case (mod num 5) (mod num 3) of\n        0 0 => \"FizzBuzz\"\n        0 _ => \"Fizz\"\n        _ 0 => \"Buzz\"\n        _ _ => num\n";

#[test]
fn test_parse_file() {
    let file = ParsedFile::new("test", FIZZ);
    assert_eq!(file.break_count(), 16);
    assert_eq!(file.as_str(1), "module FizzBuzz where");
    assert_eq!(file.as_str(16), "        _ _ => num");
}

#[test]
fn ids_follow_insertion_order() {
    let mut files = SourceCodes::new();
    assert_eq!(files.add("a", "x"), FileId(0));
    assert_eq!(files.add("b", "y"), FileId(1));
    assert_eq!(files.to_file_name(FileId(1)), "b");
}

#[test]
fn locations_round_trip() {
    let mut files = SourceCodes::new();
    let text = "ab\ncdef\n\ngh";
    let id = files.add("t", text);
    let starts = [0usize, 3, 8, 9];
    for o in 0..=text.len() {
        let loc = files.to_location(id, &(o..o)).start;
        let back = starts[loc.lines - 1] + loc.cols - 1;
        assert_eq!(back, o);
    }
    let r = files.to_location(id, &(1..5));
    assert_eq!(r.start, Location { lines: 1, cols: 2 });
    assert_eq!(r.end, Location { lines: 2, cols: 3 });
}

#[test]
fn break_offset_is_end_of_its_line() {
    let mut files = SourceCodes::new();
    let id = files.add("t", "ab\ncd");
    let r = files.to_location(id, &(2..3));
    assert_eq!(r.start, Location { lines: 1, cols: 3 });
    assert_eq!(r.end, Location { lines: 2, cols: 1 });
}

#[test]
fn single_line_source_is_line_one() {
    let mut files = SourceCodes::new();
    let id = files.add("t", "no breaks here");
    for o in 0..=14 {
        let loc = files.to_location(id, &(o..o)).start;
        assert_eq!(loc, Location { lines: 1, cols: o + 1 });
    }
}

#[test]
fn lines_rebuild_content() {
    let mut files = SourceCodes::new();
    let id = files.add("fizz", FIZZ);
    let mut lines = Vec::new();
    for n in 1..=17 {
        lines.push(files.as_str(id, n).to_string());
    }
    assert_eq!(lines.join("\n"), FIZZ);
    assert_eq!(files.as_str(id, 17), "");
}

#[test]
fn empty_content_has_one_empty_line() {
    let mut files = SourceCodes::default();
    let id = files.add("empty", "");
    assert_eq!(files.as_str(id, 1), "");
    assert_eq!(files.to_location(id, &(0..0)).start, Location { lines: 1, cols: 1 });
}

#[test]
fn admits_checks_bounds_and_boundaries() {
    let mut files = SourceCodes::new();
    let id = files.add("t", "a→b");
    assert!(files.admits(id, 0, 5));
    assert!(files.admits(id, 1, 4));
    assert!(!files.admits(id, 1, 2));
    assert!(!files.admits(id, 0, 6));
    assert!(!files.admits(id, 3, 1));
    assert!(!files.admits(FileId(1), 0, 0));
    assert_eq!(files.slice(id, 1, 4), "→");
}
