use pipeline_rs::parse::decimal::parse_i64;
use pipeline_rs::parse::file::FileInput;
use pipeline_rs::parse::util::check_pattern;
use pipeline_rs::parse::util::contains_char;
use pipeline_rs::parse::util::find_latest_timestamp;
use pipeline_rs::parse::util::find_timestamp_in_file;
use pipeline_rs::parse::util::interpret_capture;
use pipeline_rs::parse::util::interpret_search;
use pipeline_rs::parse::util::tail_of;
use pipeline_rs::parse::util::tail_start;
use pipeline_rs::parse::util::try_to_find_timestamp_at_end;
use pipeline_rs::parse::util::PatternError;
use pipeline_rs::parse::util::ProbeError;
use pipeline_rs::parse::util::TAIL_WINDOW;
use std::cell::Cell;

const UNIX: &str = r#""ts": (\d+)"#;
const ISO: &str = r#""timestamp": ?"([0-9-:.+T]+)""#;

#[test]
fn unix_timestamp_is_found() {
    let source = br#"{ "ts": 1111111111 }"#;
    assert_eq!(try_to_find_timestamp_at_end(source, UNIX), Some(1111111111));
}

#[test]
fn iso_timestamp_is_found() {
    let source = br#"{ "timestamp": "2020-07-17T17:03:14.366+00:00" }"#;
    assert_eq!(try_to_find_timestamp_at_end(source, ISO), Some(1595005394));
}

#[test]
fn iso_timestamp_is_brought_to_utc() {
    let source = br#"{ "timestamp": "2020-07-17T19:03:14.366+02:00" }"#;
    assert_eq!(try_to_find_timestamp_at_end(source, ISO), Some(1595005394));
    let source = br#"{ "timestamp": "2020-07-17T12:03:14.366-05:00" }"#;
    assert_eq!(try_to_find_timestamp_at_end(source, ISO), Some(1595005394));
    let source = br#"{ "timestamp": "1969-12-31T23:59:59.000+00:00" }"#;
    assert_eq!(try_to_find_timestamp_at_end(source, ISO), Some(-1));
}

#[test]
fn iso_timestamp_that_does_not_parse_is_nothing() {
    let source = br#"{ "timestamp": "2020-13-45T17:03:14.366+00:00" }"#;
    assert_eq!(try_to_find_timestamp_at_end(source, ISO), None);
    let source = br#"{ "timestamp": "2020-07-17T17:03:14.366" }"#;
    assert_eq!(try_to_find_timestamp_at_end(source, ISO), None);
    let source = br#"{ "timestamp": "T" }"#;
    assert_eq!(try_to_find_timestamp_at_end(source, ISO), None);
}

#[test]
fn number_that_does_not_parse_is_nothing() {
    let text = r#""ts": "([^"]*)""#;
    assert_eq!(try_to_find_timestamp_at_end(br#"{"ts": "12a"}"#, text), None);
    assert_eq!(try_to_find_timestamp_at_end(br#"{"ts": ""}"#, text), None);
    assert_eq!(try_to_find_timestamp_at_end(br#"{"ts": "99999999999999999999"}"#, text), None);
    assert_eq!(try_to_find_timestamp_at_end(br#"{"ts": "-12"}"#, text), Some(-12));
    assert_eq!(try_to_find_timestamp_at_end(br#"{"ts": "+12"}"#, text), Some(12));
    assert_eq!(try_to_find_timestamp_at_end(br#"{"ts": " 12"}"#, text), None);
}

#[test]
fn no_match_is_nothing() {
    assert_eq!(try_to_find_timestamp_at_end(br#"{ "time": 1111111111 }"#, UNIX), None);
    assert_eq!(try_to_find_timestamp_at_end(b"", UNIX), None);
}

#[test]
fn group_that_took_no_part_is_nothing() {
    assert_eq!(try_to_find_timestamp_at_end(br#"{ "ts": null }"#, r#""ts": (\d+)?"#), None);
}

#[test]
fn first_match_in_the_window_is_taken() {
    let source = br#"{ "ts": 1, "ts": 2 }"#;
    assert_eq!(try_to_find_timestamp_at_end(source, UNIX), Some(1));
}

#[test]
fn short_source_is_searched_whole() {
    let mut source = br#"{ "ts": 1111111111 }"#.to_vec();
    source.resize(TAIL_WINDOW - 1, b' ');
    assert_eq!(try_to_find_timestamp_at_end(&source, UNIX), Some(1111111111));
    source.resize(TAIL_WINDOW, b' ');
    assert_eq!(try_to_find_timestamp_at_end(&source, UNIX), Some(1111111111));
}

#[test]
fn match_before_the_window_is_not_seen() {
    let mut source = br#"{ "ts": 1111111111 }"#.to_vec();
    source.resize(5000, b' ');
    assert_eq!(try_to_find_timestamp_at_end(&source, UNIX), None);
    source.extend_from_slice(br#"{ "ts": 2222222222 }"#);
    assert_eq!(try_to_find_timestamp_at_end(&source, UNIX), Some(2222222222));
}

#[test]
fn match_cut_by_the_window_is_seen_in_part_only() {
    // the window starts behind the first digit of the number
    let mut source = br#""ts": 1"#.to_vec();
    source.extend_from_slice(&[b'7'; 3]);
    source.resize(7 + TAIL_WINDOW, b' ');
    assert_eq!(source.len() - TAIL_WINDOW, 7);
    assert_eq!(try_to_find_timestamp_at_end(&source, r"(\d+)"), Some(777));
}

#[test]
fn window_that_starts_inside_a_character_is_decoded() {
    let mut source = "\u{20AC}".as_bytes().to_vec();
    source.extend_from_slice(br#"{ "ts": 42 }"#);
    source.resize(TAIL_WINDOW + 1, b' ');
    assert_eq!(try_to_find_timestamp_at_end(&source, UNIX), Some(42));
    assert_eq!(try_to_find_timestamp_at_end(&[0xff, 0xfe, b'7', 0x80], r"(\d+)"), Some(7));
    assert_eq!(try_to_find_timestamp_at_end(&[0xff, b'7'], "\u{FFFD}(7)"), Some(7));
    assert_eq!(try_to_find_timestamp_at_end(&[0xff, b'7'], r"^(7)"), None);
    assert_eq!(try_to_find_timestamp_at_end(&[0xe2, 0x82, b'7'], r"^.(7)$"), Some(7));
    assert_eq!(try_to_find_timestamp_at_end("ä 5".as_bytes(), r"ä (\d)"), Some(5));
}

#[test]
fn tail_window_is_the_end_of_the_source() {
    let source: Vec<u8> = (0..10000u32).map(|i| (i % 251) as u8).collect();
    assert_eq!(tail_of(&source), &source[10000 - 4096..]);
    assert_eq!(tail_of(&source[..4096]), &source[..4096]);
    assert_eq!(tail_of(&source[..4097]), &source[1..4097]);
    assert_eq!(tail_of(&source[..10]), &source[..10]);
    assert_eq!(tail_of(&[]), &[] as &[u8]);
}

#[test]
fn tail_window_starts_where_it_should() {
    assert_eq!(TAIL_WINDOW, 4096);
    assert_eq!(tail_start(0), 0);
    assert_eq!(tail_start(1), 0);
    assert_eq!(tail_start(4096), 0);
    assert_eq!(tail_start(4097), 1);
    assert_eq!(tail_start(5000), 904);
    assert_eq!(tail_start(usize::MAX), usize::MAX - 4096);
}

#[test]
fn pattern_without_group_is_turned_down() {
    let source = br#"{ "ts": 1111111111 }"#;
    assert_eq!(find_latest_timestamp(source, r#""ts": \d+"#), Err(PatternError::Groups(0)));
    assert_eq!(check_pattern(r#""ts": \d+"#), Err(PatternError::Groups(0)));
    assert_eq!(check_pattern(r#""ts": (?:\d+)"#), Err(PatternError::Groups(0)));
}

#[test]
fn pattern_with_two_groups_is_turned_down() {
    let source = br#"{ "ts": 1111111111 }"#;
    assert_eq!(find_latest_timestamp(source, r#""(ts)": (\d+)"#), Err(PatternError::Groups(2)));
    assert_eq!(check_pattern(r"(a)(b)(c)"), Err(PatternError::Groups(3)));
}

#[test]
fn pattern_that_is_no_pattern_is_turned_down() {
    assert_eq!(find_latest_timestamp(b"1", r"(\d+"), Err(PatternError::Invalid));
    assert_eq!(check_pattern(r"(\d+"), Err(PatternError::Invalid));
}

#[test]
fn pattern_with_one_group_is_taken() {
    assert_eq!(check_pattern(UNIX), Ok(()));
    assert_eq!(check_pattern(r"(?P<seconds>\d+)"), Ok(()));
    assert_eq!(find_latest_timestamp(br#"{ "ts": 1111111111 }"#, UNIX), Ok(Some(1111111111)));
    assert_eq!(find_latest_timestamp(br#"{ "ts": null }"#, UNIX), Ok(None));
}

#[test]
fn capture_with_a_t_is_a_date() {
    assert_eq!(interpret_capture("2020-07-17T17:03:14.366+00:00"), Some(1595005394));
    assert_eq!(interpret_capture("1970-01-01T00:00:00.000+00:00"), Some(0));
    assert_eq!(interpret_capture("1595005394"), Some(1595005394));
    assert_eq!(interpret_capture("1595005394T"), None);
    assert_eq!(interpret_capture("2020-07-17t17:03:14.366+00:00"), None);
    assert_eq!(interpret_capture(""), None);
}

#[test]
fn search_without_capture_is_nothing() {
    assert_eq!(interpret_search(&None), None);
    assert_eq!(interpret_search(&Some(None)), None);
    assert_eq!(interpret_search(&Some(Some(String::from("17")))), Some(17));
    assert_eq!(interpret_search(&Some(Some(String::from("x")))), None);
}

#[test]
fn character_is_found_in_text() {
    assert!(contains_char("abcTdef", 'T'));
    assert!(contains_char("T", 'T'));
    assert!(!contains_char("", 'T'));
    assert!(!contains_char("abctdef", 'T'));
    assert!(contains_char("äöü€T", 'T'));
    assert!(contains_char("äöü€", '€'));
    assert!(!contains_char("äöü€", 'T'));
}

#[test]
fn decimal_numbers_are_read() {
    assert_eq!(parse_i64("0"), Some(0));
    assert_eq!(parse_i64("007"), Some(7));
    assert_eq!(parse_i64("-0"), Some(0));
    assert_eq!(parse_i64("+1"), Some(1));
    assert_eq!(parse_i64("1111111111"), Some(1111111111));
    assert_eq!(parse_i64("9223372036854775807"), Some(i64::MAX));
    assert_eq!(parse_i64("-9223372036854775808"), Some(i64::MIN));
    assert_eq!(parse_i64("9223372036854775808"), None);
    assert_eq!(parse_i64("-9223372036854775809"), None);
    assert_eq!(parse_i64("92233720368547758070"), None);
    assert_eq!(parse_i64("18446744073709551616"), None);
    assert_eq!(parse_i64("000000000000000000000000000000012"), Some(12));
    assert_eq!(parse_i64(""), None);
    assert_eq!(parse_i64("-"), None);
    assert_eq!(parse_i64("+"), None);
    assert_eq!(parse_i64("--1"), None);
    assert_eq!(parse_i64("+-1"), None);
    assert_eq!(parse_i64("1-"), None);
    assert_eq!(parse_i64("1 "), None);
    assert_eq!(parse_i64(" 1"), None);
    assert_eq!(parse_i64("1.0"), None);
    assert_eq!(parse_i64("1e3"), None);
    assert_eq!(parse_i64("0x10"), None);
    assert_eq!(parse_i64("١٢"), None);
    assert_eq!(parse_i64("12a"), None);
}

#[test]
fn decimal_numbers_are_read_as_std_reads_them() {
    let texts = [
        "", "0", "-", "+", "+0", "-0", "12", "-12", "+12", "1_000", "9223372036854775807",
        "9223372036854775808", "-9223372036854775808", "-9223372036854775809", "00000000000000000001",
        "99999999999999999999", " 1", "1 ", "a", "1a", "-a", "+-1", "٣", "1٣", "１",
    ];
    for text in texts {
        assert_eq!(parse_i64(text), text.parse::<i64>().ok(), "{text:?}");
    }
}

/// A file in memory that counts how often it is read.
struct Memory {
    bytes: Vec<u8>,
    reads: Cell<usize>,
    broken: bool,
}

impl Memory {
    fn holding(bytes: Vec<u8>) -> Self {
        Memory { bytes, reads: Cell::new(0), broken: false }
    }
}

impl FileInput for Memory {
    fn slice(&self, start: usize, end: usize) -> Result<Vec<u8>, std::io::Error> {
        self.reads.set(self.reads.get() + 1);
        if self.broken {
            return Err(std::io::Error::other("broken"));
        }
        assert!(end - start <= TAIL_WINDOW);
        Ok(self.bytes[start..end].to_vec())
    }
}

#[test]
fn file_is_read_at_its_tail_only() {
    let mut bytes = br#"{ "ts": 1111111111 }"#.to_vec();
    bytes.resize(6000, b' ');
    bytes.extend_from_slice(br#"{ "ts": 2222222222 }"#);
    let file = Memory::holding(bytes);
    let found = find_timestamp_in_file(&file, file.bytes.len(), UNIX);
    assert!(matches!(found, Ok(Some(2222222222))));
    assert_eq!(file.reads.get(), 1);

    let short = Memory::holding(br#"{ "ts": 1111111111 }"#.to_vec());
    assert!(matches!(find_timestamp_in_file(&short, short.bytes.len(), UNIX), Ok(Some(1111111111))));
    let empty = Memory::holding(Vec::new());
    assert!(matches!(find_timestamp_in_file(&empty, 0, UNIX), Ok(None)));
}

#[test]
fn bad_pattern_is_turned_down_before_the_file_is_read() {
    let file = Memory::holding(br#"{ "ts": 1111111111 }"#.to_vec());
    let len = file.bytes.len();
    assert!(matches!(
        find_timestamp_in_file(&file, len, r#""ts": \d+"#),
        Err(ProbeError::Pattern(PatternError::Groups(0)))
    ));
    assert!(matches!(
        find_timestamp_in_file(&file, len, r#""(ts)": (\d+)"#),
        Err(ProbeError::Pattern(PatternError::Groups(2)))
    ));
    assert!(matches!(
        find_timestamp_in_file(&file, len, r#"("#),
        Err(ProbeError::Pattern(PatternError::Invalid))
    ));
    assert_eq!(file.reads.get(), 0);
}

#[test]
fn failure_to_read_the_file_is_handed_on() {
    let mut file = Memory::holding(br#"{ "ts": 1111111111 }"#.to_vec());
    file.broken = true;
    match find_timestamp_in_file(&file, file.bytes.len(), UNIX) {
        Err(ProbeError::Read(error)) => assert_eq!(error.to_string(), "broken"),
        _ => panic!("the failure was lost"),
    }
}

#[test]
fn any_bytes_can_be_searched() {
    let mut state: u32 = 12345;
    for round in 0..200 {
        let len = (round * 37) % 9000;
        let mut source = Vec::with_capacity(len);
        for _ in 0..len {
            state = state.wrapping_mul(1664525).wrapping_add(1013904223);
            source.push((state >> 24) as u8);
        }
        let found = try_to_find_timestamp_at_end(&source, r"(\d+T?)");
        assert_eq!(found, find_latest_timestamp(tail_of(&source), r"(\d+T?)").unwrap());
    }
}
