use aocparser::errors::AocError;
use aocparser::split::{is_white_space, split_lines, split_pattern, split_words};
use aocparser::{collect_parsed, resolve_range, AocParser, Separator};

fn six_records() -> AocParser {
    AocParser {
        original: "test".to_string(),
        data: vec![
            "1 2".to_string(),
            "5 6".to_string(),
            "7 12".to_string(),
            "456 742".to_string(),
            "7442 78524".to_string(),
            "4210 7524".to_string(),
        ],
        size: 6,
    }
}

#[test]
fn test_slice_as_type() {
    let input = six_records();
    let out: Vec<String> = input.slice_as_type(Some(2), Some(5)).unwrap();
    assert_eq!(out.len(), 4);
    assert_eq!(out[0], "5 6".to_string());
    assert_eq!(out[out.len() - 1], "7442 78524".to_string());
}

#[test]
fn slice_yields_records_in_order() {
    let input = six_records();
    let out: Vec<String> = input.slice_as_type(Some(2), Some(5)).unwrap();
    assert_eq!(out, vec!["5 6", "7 12", "456 742", "7442 78524"]);
    let recs = input.slice_records(Some(2), Some(5)).unwrap();
    assert_eq!(recs, vec!["5 6", "7 12", "456 742", "7442 78524"]);
}

#[test]
fn slice_single_line_and_whole_range() {
    let input = six_records();
    let one: Vec<String> = input.slice_as_type(Some(3), Some(3)).unwrap();
    assert_eq!(one, vec!["7 12"]);
    let all: Vec<String> = input.slice_as_type(None, None).unwrap();
    assert_eq!(all.len(), 6);
    let first: Vec<String> = input.slice_as_type(Some(1), None).unwrap();
    assert_eq!(first.len(), 6);
    let last: Vec<String> = input.slice_as_type(None, Some(6)).unwrap();
    assert_eq!(last[5], "4210 7524");
    let tail: Vec<String> = input.slice_as_type(Some(6), Some(6)).unwrap();
    assert_eq!(tail, vec!["4210 7524"]);
}

#[test]
fn slice_out_of_bounds() {
    let input = six_records();
    let r: Result<Vec<String>, AocError> = input.slice_as_type(Some(0), Some(3));
    assert!(matches!(r, Err(AocError::OutOfBounds)));
    let r: Result<Vec<String>, AocError> = input.slice_as_type(Some(1), Some(7));
    assert!(matches!(r, Err(AocError::OutOfBounds)));
    let r: Result<Vec<String>, AocError> = input.slice_as_type(Some(7), None);
    assert!(matches!(r, Err(AocError::OutOfBounds)));
    let r: Result<Vec<String>, AocError> = input.slice_as_type(None, Some(0));
    assert!(matches!(r, Err(AocError::OutOfBounds)));
    let r: Result<Vec<String>, AocError> = input.slice_as_type(Some(4), Some(3));
    assert!(matches!(r, Err(AocError::OutOfBounds)));
    // bounds are checked before any parsing
    let r: Result<Vec<u32>, AocError> = input.slice_as_type(Some(4), Some(3));
    assert!(matches!(r, Err(AocError::OutOfBounds)));
    assert!(matches!(input.slice_records(Some(5), Some(2)), Err(AocError::OutOfBounds)));
}

#[test]
fn slice_parse_failure() {
    let input = six_records();
    let r: Result<Vec<u32>, AocError> = input.slice_as_type(Some(2), Some(5));
    assert!(matches!(r, Err(AocError::ParseToTypeFailed)));
}

#[test]
fn slice_parses_numbers() {
    let input = AocParser::from_text("10\n20\n-3\n40\n".to_string(), Separator::Newline);
    let r: Vec<i64> = input.slice_as_type(Some(2), Some(3)).unwrap();
    assert_eq!(r, vec![20, -3]);
    let r: Result<Vec<u8>, AocError> = input.slice_as_type(None, None);
    assert!(matches!(r, Err(AocError::ParseToTypeFailed)));
    let r: Vec<f64> = input.slice_as_type(None, Some(1)).unwrap();
    assert_eq!(r, vec![10.0]);
}

#[test]
fn empty_store_slices_to_nothing() {
    let input = AocParser::from_text(String::new(), Separator::Newline);
    assert_eq!(input.record_count(), 0);
    let r: Vec<u32> = input.slice_as_type(None, None).unwrap();
    assert!(r.is_empty());
    let r: Result<Vec<u32>, AocError> = input.slice_as_type(Some(1), None);
    assert!(matches!(r, Err(AocError::OutOfBounds)));
}

#[test]
fn sixteen_lines_give_sixteen_records() {
    let mut text = String::new();
    for i in 0..16 {
        text.push_str(&format!("line {}\n", i));
    }
    let input = AocParser::from_text(text, Separator::Newline);
    assert_eq!(input.record_count(), 16);
    assert_eq!(input.size, 16);
    assert_eq!(input.data[15], "line 15");
}

#[test]
fn lines_without_final_break() {
    assert_eq!(split_lines("a\nb"), vec!["a", "b"]);
    assert_eq!(split_lines("a\nb\n"), vec!["a", "b"]);
    assert_eq!(split_lines("a\n\nb\n"), vec!["a", "", "b"]);
    assert_eq!(split_lines("a\r\nb\r\n"), vec!["a", "b"]);
    assert_eq!(split_lines("\n"), vec![""]);
    assert!(split_lines("").is_empty());
}

#[test]
fn pattern_split_is_literal() {
    let input = AocParser::from_text("6,  6, 1, 2, 3, 4".to_string(), Separator::Str(", "));
    assert_eq!(input.record_count(), 6);
    assert_eq!(input.data[0], "6");
    assert_eq!(input.data[1], " 6");
    assert_eq!(input.data.join(", "), "6,  6, 1, 2, 3, 4");
}

#[test]
fn pattern_split_keeps_empty_pieces() {
    assert_eq!(split_pattern("a,,b,", ","), vec!["a", "", "b", ""]);
    assert_eq!(split_pattern("", ","), vec![""]);
    assert_eq!(split_pattern("aaa", "aa"), vec!["", "a"]);
    assert_eq!(split_pattern("ab", ""), vec!["", "a", "b", ""]);
    assert_eq!(split_pattern("héllo wörld", "ö"), vec!["héllo w", "rld"]);
}

#[test]
fn whitespace_split_drops_empty_pieces() {
    assert_eq!(split_words("  1 2\t\n 3  "), vec!["1", "2", "3"]);
    assert!(split_words(" \n\t").is_empty());
    assert_eq!(split_words("a\u{3000}b"), vec!["a", "b"]);
    let input = AocParser::from_text("1 2\n3".to_string(), Separator::Whitespace);
    assert_eq!(input.get(), vec!["1", "2", "3"]);
}

#[test]
fn store_keeps_original_text() {
    let input = AocParser::from_text("x y\nz\n".to_string(), Separator::Newline);
    assert_eq!(input.get_str(), "x y\nz\n");
}

#[test]
fn resolve_range_values() {
    assert!(matches!(resolve_range(Some(2), Some(5), 6), Ok((1, 5))));
    assert!(matches!(resolve_range(None, None, 6), Ok((0, 6))));
    assert!(matches!(resolve_range(Some(6), None, 6), Ok((5, 6))));
    assert!(matches!(resolve_range(Some(3), Some(2), 6), Err(AocError::OutOfBounds)));
    assert!(matches!(resolve_range(None, Some(7), 6), Err(AocError::OutOfBounds)));
}

#[test]
fn collect_parsed_all_or_nothing() {
    let r = collect_parsed(vec![Some(1u32), Some(2), Some(3)]);
    assert!(matches!(r, Ok(ref v) if *v == vec![1, 2, 3]));
    let r = collect_parsed(vec![Some(1u32), None, Some(3)]);
    assert!(matches!(r, Err(AocError::ParseToTypeFailed)));
    let r = collect_parsed::<u32>(vec![]);
    assert!(matches!(r, Ok(ref v) if v.is_empty()));
}

#[test]
fn white_space_agrees_with_std() {
    for code in 0u32..=0x10FFFF {
        if let Some(c) = char::from_u32(code) {
            assert_eq!(is_white_space(c), c.is_whitespace(), "U+{:04X}", code);
        }
    }
}

#[test]
fn final_line_break_gives_no_empty_record() {
    let input = AocParser::from_text("1 2\n5 6\n".to_string(), Separator::Newline);
    assert_eq!(input.data, vec!["1 2", "5 6"]);
    assert_eq!(input.size, 2);
}

#[test]
fn pattern_split_counts() {
    assert_eq!(split_pattern("", ", "), vec![""]);
    assert_eq!(split_pattern(", ", ", "), vec!["", ""]);
    let pieces = split_pattern("1, 2, , 3", ", ");
    assert_eq!(pieces.len(), 4);
    assert!(pieces.iter().all(|p| !p.contains(", ")));
}

#[test]
fn empty_range_on_empty_store_parses_nothing() {
    let input = AocParser::from_text(String::new(), Separator::Whitespace);
    let r: Vec<String> = input.slice_as_type(None, None).unwrap();
    assert!(r.is_empty());
}
