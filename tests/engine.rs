use qsv_core::count::{
    choose_strategy, count_rows, index_record_count, indexed_result, CountResult, Strategy,
};
use qsv_core::csvio::{count_input, render_records, search_input, width_fits};
use qsv_core::effective_unicode;
use qsv_core::error::EngineError;
use qsv_core::pattern::Pattern;
use qsv_core::report::count_line;
use qsv_core::search::{annotate, decimal_bytes, search_rows};
use qsv_core::select::{bytes_equal, parse_selection, resolve_selection, ColumnSpec};

fn rec(fields: &[&str]) -> Vec<Vec<u8>> {
    fields.iter().map(|f| f.as_bytes().to_vec()).collect()
}

fn pat(s: &str) -> Pattern {
    Pattern::new(s.to_string(), false, false).unwrap()
}

fn search_text(data: &str, select: &str, pattern: &str, invert: bool, flag: Option<&str>) -> (String, Result<(), EngineError>) {
    let specs = parse_selection(select.as_bytes());
    let p = pat(pattern);
    let flag = flag.map(|f| f.as_bytes().to_vec());
    let out = search_input(data.as_bytes(), b',', false, &specs, &p, invert, &flag);
    (String::from_utf8(out.text).unwrap(), out.result)
}

#[test]
fn count_excludes_header() {
    let r = count_input(b"a,b\n1,2\n3,4\n", b',', false, false, false).unwrap().unwrap();
    assert_eq!(r, CountResult { count: 2, width: 0 });
}

#[test]
fn count_without_header_counts_every_line() {
    let r = count_input(b"a,b\n1,2\n3,4\n", b',', true, false, false).unwrap().unwrap();
    assert_eq!(r.count, 3);
}

#[test]
fn count_empty_input() {
    let r = count_input(b"", b',', false, false, false).unwrap().unwrap();
    assert_eq!(r, CountResult { count: 0, width: 0 });
    let r = count_input(b"", b',', false, true, false).unwrap().unwrap();
    assert_eq!(r, CountResult { count: 0, width: 0 });
}

#[test]
fn width_is_content_plus_delimiters() {
    let r = count_input(b"a,bb\n1,22\n333,4\n", b',', false, true, false).unwrap().unwrap();
    assert_eq!(r, CountResult { count: 2, width: 5 });
}

#[test]
fn width_counts_quotes() {
    let r = count_input(b"h\n\"ab\"\n", b',', false, true, false).unwrap().unwrap();
    assert_eq!(r, CountResult { count: 1, width: 4 });
}

#[test]
fn width_without_header_includes_first_line() {
    let r = count_input(b"abcdef,g\n1,2\n", b',', true, true, false).unwrap().unwrap();
    assert_eq!(r, CountResult { count: 2, width: 8 });
}

#[test]
fn count_rows_on_records() {
    let rows = vec![rec(&["x", "y"]), rec(&["1", "22"]), rec(&["4444", "5"])];
    assert_eq!(count_rows(&rows, false, true, false), Ok(CountResult { count: 2, width: 6 }));
    assert_eq!(count_rows(&rows, true, false, false), Ok(CountResult { count: 3, width: 0 }));
    assert!(width_fits(&rows, false));
}

#[test]
fn ragged_count_is_parse_error_when_strict() {
    let r = count_input(b"a,b\n1\n2,3\n", b',', false, false, false);
    assert_eq!(r, Err(EngineError::Parse { record: 1, expected: 2, found: 1 }));
}

#[test]
fn ragged_count_passes_when_flexible() {
    let r = count_input(b"a,b\n1\n2,3\n", b',', false, false, true).unwrap().unwrap();
    assert_eq!(r.count, 2);
}

#[test]
fn ragged_count_passes_with_width() {
    let r = count_input(b"a,b\n1\n2,3\n", b',', false, true, false).unwrap().unwrap();
    assert_eq!(r, CountResult { count: 2, width: 2 });
}

#[test]
fn fresh_index_short_circuits() {
    assert_eq!(choose_strategy(false, &Ok(Some(42)), true, false, false), Strategy::Indexed(42));
    assert_eq!(indexed_result(42), CountResult { count: 42, width: 0 });
}

#[test]
fn stale_or_failed_index_falls_through() {
    assert_eq!(choose_strategy(false, &Ok(None), true, false, false), Strategy::Backend);
    let failed: Result<Option<u64>, EngineError> = Err(EngineError::SourceIo { message: "x".to_string() });
    assert_eq!(choose_strategy(false, &failed, false, false, false), Strategy::Streaming);
    assert_eq!(choose_strategy(false, &Ok(None), true, true, false), Strategy::Streaming);
    assert_eq!(choose_strategy(false, &Ok(None), true, false, true), Strategy::Streaming);
}

#[test]
fn width_request_always_streams() {
    assert_eq!(choose_strategy(true, &Ok(Some(7)), true, false, false), Strategy::Streaming);
}

#[test]
fn filter_mode_keeps_matching_rows() {
    let (text, res) = search_text("a,b\n1,foo\n2,bar\n", "b", "fo", false, None);
    assert_eq!(res, Ok(()));
    assert_eq!(text, "a,b\n1,foo\n");
}

#[test]
fn flag_mode_numbers_matches() {
    let (text, res) = search_text("a,b\n1,foo\n2,bar\n", "b", "fo", false, Some("hit"));
    assert_eq!(res, Ok(()));
    assert_eq!(text, "a,b,hit\n1,foo,1\n2,bar,0\n");
}

#[test]
fn flag_mode_inverted() {
    // the second data record is the one selected once inverted, so it carries row number 2
    let (text, res) = search_text("a,b\n1,foo\n2,bar\n", "b", "fo", true, Some("hit"));
    assert_eq!(res, Ok(()));
    assert_eq!(text, "a,b,hit\n1,foo,0\n2,bar,2\n");
}

#[test]
fn filter_mode_inverted() {
    let (text, _) = search_text("a,b\n1,foo\n2,bar\n", "b", "fo", true, None);
    assert_eq!(text, "a,b\n2,bar\n");
}

#[test]
fn filter_is_idempotent() {
    let (first, _) = search_text("a,b\n1,foo\n2,bar\n3,fox\n", "b", "fo", false, None);
    let (second, res) = search_text(&first, "b", "fo", false, None);
    assert_eq!(res, Ok(()));
    assert_eq!(second, first);
}

#[test]
fn empty_selection_searches_all_fields() {
    let (text, _) = search_text("a,b\nfoo,1\n2,bar\n", "", "fo", false, None);
    assert_eq!(text, "a,b\nfoo,1\n");
}

#[test]
fn selection_by_position() {
    let (text, _) = search_text("a,b\nfoo,1\n2,foo\n", "2", "fo", false, None);
    assert_eq!(text, "a,b\n2,foo\n");
}

#[test]
fn unknown_column_fails_before_output() {
    let (text, res) = search_text("a,b\n1,foo\n", "zz", "fo", false, None);
    assert_eq!(text, "");
    assert_eq!(res, Err(EngineError::ColumnNotFound { entry: 0 }));
}

#[test]
fn ragged_search_stops_after_written_prefix() {
    let (text, res) = search_text("a,b\n1,foo\n2\n3,foo\n", "b", "fo", false, None);
    assert_eq!(text, "a,b\n1,foo\n");
    assert_eq!(res, Err(EngineError::Parse { record: 2, expected: 2, found: 1 }));
}

#[test]
fn search_without_headers() {
    let p = pat("o");
    let rows = vec![rec(&["x", "foo"]), rec(&["y", "bar"])];
    let out = search_rows(&rows, true, &vec![], &p, false, &Some(b"f".to_vec()));
    assert_eq!(out.result, Ok(()));
    assert_eq!(out.rows, vec![rec(&["x", "foo", "1"]), rec(&["y", "bar", "0"])]);
}

#[test]
fn bad_pattern_is_compile_error() {
    let r = Pattern::new("(".to_string(), false, false);
    assert!(matches!(r, Err(EngineError::PatternCompile { .. })));
}

#[test]
fn case_insensitive_pattern() {
    let p = Pattern::new("FO".to_string(), true, false).unwrap();
    assert!(p.is_match(b"foo"));
    assert!(!pat("FO").is_match(b"foo"));
}

#[test]
fn unicode_override() {
    assert!(effective_unicode(true, false));
    assert!(effective_unicode(false, true));
    assert!(!effective_unicode(false, false));
}

#[test]
fn count_line_plain_and_human() {
    let c = CountResult { count: 1234567, width: 5 };
    assert_eq!(count_line(c, false, false), b"1234567".to_vec());
    assert_eq!(count_line(c, true, false), b"1234567;5".to_vec());
    assert_eq!(count_line(c, true, true), b"1,234,567;5".to_vec());
}

#[test]
fn decimal_digits() {
    assert_eq!(decimal_bytes(0), b"0".to_vec());
    assert_eq!(decimal_bytes(1204), b"1204".to_vec());
    assert_eq!(decimal_bytes(u64::MAX), u64::MAX.to_string().into_bytes());
}

#[test]
fn selection_text() {
    let s = parse_selection(b"a,2,,99999999999999999999999");
    assert_eq!(
        s,
        vec![
            ColumnSpec::Name(b"a".to_vec()),
            ColumnSpec::Position(2),
            ColumnSpec::Name(vec![]),
            ColumnSpec::Name(b"99999999999999999999999".to_vec()),
        ]
    );
    assert!(parse_selection(b"").is_empty());
}

#[test]
fn resolve_names_and_positions() {
    let header = rec(&["a", "b", "a"]);
    let specs = vec![ColumnSpec::Name(b"a".to_vec()), ColumnSpec::Position(2), ColumnSpec::Position(1)];
    assert_eq!(resolve_selection(&header, &specs), Ok(vec![0, 1, 0]));
    assert_eq!(resolve_selection(&header, &vec![]), Ok(vec![0, 1, 2]));
    assert_eq!(
        resolve_selection(&header, &vec![ColumnSpec::Position(1), ColumnSpec::Position(4)]),
        Err(EngineError::ColumnNotFound { entry: 1 })
    );
    assert!(bytes_equal(&b"ab".to_vec(), &b"ab".to_vec()));
    assert!(!bytes_equal(&b"ab".to_vec(), &b"ac".to_vec()));
}

#[test]
fn render_quotes_when_needed() {
    let rows = vec![rec(&["a,b", "c"]), rec(&["d"])];
    assert_eq!(render_records(&rows), b"\"a,b\",c\nd\n".to_vec());
}

#[test]
fn annotate_appends_row_number_or_zero() {
    assert_eq!(annotate(&rec(&["x"]), 17, true), rec(&["x", "17"]));
    assert_eq!(annotate(&rec(&["x"]), 17, false), rec(&["x", "0"]));
}

#[test]
fn index_count_from_trailing_bytes() {
    let mut idx = vec![0u8; 16];
    idx.extend_from_slice(&[0, 0, 0, 0, 0, 0, 1, 5]);
    assert_eq!(index_record_count(&idx, false), Some(260));
    assert_eq!(index_record_count(&idx, true), Some(261));
    assert_eq!(index_record_count(&[0u8; 8], false), Some(0));
    assert_eq!(index_record_count(&[1u8; 7], true), None);
}

#[test]
fn filter_is_idempotent_without_headers() {
    let p = pat("fo");
    let specs = parse_selection(b"2");
    let first = search_input(b"1,foo\n2,bar\n3,fox\n", b',', true, &specs, &p, false, &None);
    assert_eq!(first.result, Ok(()));
    assert_eq!(first.text, b"1,foo\n3,fox\n".to_vec());
    let second = search_input(&first.text, b',', true, &specs, &p, false, &None);
    assert_eq!(second.result, Ok(()));
    assert_eq!(second.text, first.text);
}

#[test]
fn human_count_groups() {
    let line = |n: u64| String::from_utf8(count_line(CountResult { count: n, width: 0 }, false, true)).unwrap();
    assert_eq!(line(0), "0");
    assert_eq!(line(999), "999");
    assert_eq!(line(1000), "1,000");
    assert_eq!(line(1000001), "1,000,001");
}
