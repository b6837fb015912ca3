use vstd::prelude::*;
use vstd::slice::slice_subrange;
use vstd::std_specs::iter::IteratorSpec;
use crate::parse::decimal::decimal_i64;
use crate::parse::file::FileInput;
use crate::parse::decimal::parse_i64;
use crate::parse::text::capture;
use crate::parse::text::capture_text;
use crate::parse::text::captured;
use crate::parse::text::count_groups;
use crate::parse::text::decode_lossy;
use crate::parse::text::formatted_seconds;
use crate::parse::text::group_count;
use crate::parse::text::lossy_text;
use crate::parse::text::parse_seconds;

verus! {

broadcast use vstd::string::group_string_axioms;

/// Seconds since the Unix epoch.
pub type UnixTimestamp = i64;

/// Number of bytes at the end of a source that the timestamp probe looks at.
pub const TAIL_WINDOW: usize = 4096;

/// The tail window of a source: its last `TAIL_WINDOW` bytes, or all of it
/// when it is shorter than that.
pub open spec fn tail_window(source: Seq<u8>) -> Seq<u8> {
    if source.len() <= TAIL_WINDOW {
        source
    } else {
        source.skip(source.len() - TAIL_WINDOW)
    }
}

/// Offset at which the tail window of a source of `len` bytes starts.
pub open spec fn tail_window_start(len: int) -> int {
    if len <= TAIL_WINDOW {
        0
    } else {
        len - TAIL_WINDOW
    }
}

/// The format of a timestamp written as date and time: ISO 8601 with
/// milliseconds and an offset from UTC.
pub open spec fn iso_format() -> Seq<char> {
    "%Y-%m-%dT%H:%M:%S%.3f%z"@
}

/// The seconds that the text of a capture stands for. A capture that holds
/// a `T` is a date and time; any other is a count of seconds in base 10.
pub open spec fn capture_seconds(capture: Seq<char>) -> Option<UnixTimestamp> {
    if capture.contains('T') {
        formatted_seconds(capture, iso_format())
    } else {
        decimal_i64(capture)
    }
}

/// The seconds that a search stands for: those of the captured text, and
/// none where nothing matched or the group captured nothing.
pub open spec fn found_seconds(found: Option<Option<Seq<char>>>) -> Option<UnixTimestamp> {
    match found {
        Some(Some(capture)) => capture_seconds(capture),
        _ => None,
    }
}

/// The timestamp that a pattern finds at the end of a source: the pattern's
/// one capture group, in its leftmost match within the leniently decoded
/// tail window.
pub open spec fn timestamp_at_end(source: Seq<u8>, pattern: Seq<char>) -> Option<UnixTimestamp> {
    found_seconds(captured(pattern, lossy_text(tail_window(source)), 1))
}

/// Whether a pattern has exactly one capture group of its own.
pub open spec fn single_capture(pattern: Seq<char>) -> bool {
    group_count(pattern) == Some(2nat)
}

/// What is wrong with a pattern, if anything is.
pub open spec fn pattern_fault(pattern: Seq<char>) -> Option<PatternError> {
    match group_count(pattern) {
        None => Some(PatternError::Invalid),
        Some(n) => if n == 2 {
            None
        } else {
            Some(PatternError::Groups((n - 1) as usize))
        },
    }
}

/// Why a pattern cannot be used for the probe.
#[derive(Debug, PartialEq, Eq)]
pub enum PatternError {
    /// It is no regular expression.
    Invalid,
    /// It has this many capture groups of its own, and not one.
    Groups(usize),
}

/// Computes where to seek to before reading the tail window of a source that
/// is `len` bytes long.
pub fn tail_start(len: usize) -> (start: usize)
    ensures
        start == tail_window_start(len as int),
{
    if len <= TAIL_WINDOW {
        0
    } else {
        len - TAIL_WINDOW
    }
}

/// Borrows the tail window of an in-memory source.
pub fn tail_of(source: &[u8]) -> (window: &[u8])
    ensures
        window@ == tail_window(source@),
{
    let len: usize = source.len();
    if len <= TAIL_WINDOW {
        source
    } else {
        slice_subrange(source, len - TAIL_WINDOW, len)
    }
}

/// Tells whether a character occurs in a text.
pub fn contains_char(text: &str, wanted: char) -> (found: bool)
    ensures
        found == text@.contains(wanted),
{
    let mut it = text.chars();
    let ghost s = text@;
    let ghost mut seen: int = 0;
    loop
        invariant
            s == text@,
            0 <= seen <= s.len(),
            it.remaining() == s.skip(seen),
            forall|i: int| 0 <= i < seen ==> s[i] != wanted,
        decreases s.len() - seen,
    {
        match it.next() {
            None => {
                return false;
            },
            Some(c) => {
                assert(c == s[seen]);
                if c == wanted {
                    return true;
                }
                proof {
                    seen = seen + 1;
                }
                assert(it.remaining() == s.skip(seen));
            },
        }
    }
}

/// Reads the seconds that the text of a capture stands for.
pub fn interpret_capture(capture: &str) -> (seconds: Option<UnixTimestamp>)
    ensures
        seconds == capture_seconds(capture@),
{
    if contains_char(capture, 'T') {
        parse_seconds(capture, "%Y-%m-%dT%H:%M:%S%.3f%z")
    } else {
        parse_i64(capture)
    }
}

/// Reads the seconds that a search stands for.
pub fn interpret_search(found: &Option<Option<String>>) -> (seconds: Option<UnixTimestamp>)
    ensures
        seconds == found_seconds(capture_text(*found)),
{
    match found {
        Some(Some(capture)) => interpret_capture(capture.as_str()),
        _ => None,
    }
}

/// Counts the capture groups of a pattern and tells whether the probe can
/// use it.
pub fn check_pattern(pattern: &str) -> (r: Result<(), PatternError>)
    ensures
        r is Ok <==> single_capture(pattern@),
        r matches Err(e) ==> pattern_fault(pattern@) == Some(e),
{
    match count_groups(pattern) {
        None => Err(PatternError::Invalid),
        Some(n) => if n == 2 {
            Ok(())
        } else {
            Err(PatternError::Groups(n - 1))
        },
    }
}

/// Finds the timestamp at the end of a source. Only the tail window of the
/// source is looked at: it is decoded leniently, the pattern is matched
/// against it, and the text that the pattern's capture group holds in the
/// leftmost match is read as a timestamp. The pattern must have exactly one
/// capture group.
pub fn try_to_find_timestamp_at_end(source: &[u8], pattern: &str) -> (found: Option<UnixTimestamp>)
    requires
        single_capture(pattern@),
    ensures
        found == timestamp_at_end(source@, pattern@),
{
    let text = decode_lossy(tail_of(source));
    let search = capture(pattern, text.as_str(), 1);
    interpret_search(&search)
}

/// Finds the timestamp at the end of a source, after checking the pattern.
/// A pattern that does not have exactly one capture group is turned down
/// before the source is looked at.
pub fn find_latest_timestamp(source: &[u8], pattern: &str) -> (r: Result<
    Option<UnixTimestamp>,
    PatternError,
>)
    ensures
        r is Ok <==> single_capture(pattern@),
        r matches Ok(found) ==> found == timestamp_at_end(source@, pattern@),
        r matches Err(e) ==> pattern_fault(pattern@) == Some(e),
{
    match check_pattern(pattern) {
        Ok(()) => Ok(try_to_find_timestamp_at_end(source, pattern)),
        Err(e) => Err(e),
    }
}

/// The tail window is never longer than `TAIL_WINDOW` bytes, and it is the
/// end of the source.
pub proof fn tail_window_is_bounded(source: Seq<u8>)
    ensures
        tail_window(source).len() <= TAIL_WINDOW,
        tail_window(source).len() <= source.len(),
        tail_window(source) == source.skip(tail_window_start(source.len() as int)),
{
    assert(source.skip(0) == source);
}

/// A source that is no longer than the tail window is searched whole.
pub proof fn short_source_is_searched_whole(source: Seq<u8>, pattern: Seq<char>)
    requires
        source.len() <= TAIL_WINDOW,
    ensures
        tail_window(source) == source,
        timestamp_at_end(source, pattern) == found_seconds(
            captured(pattern, lossy_text(source), 1),
        ),
{
}

/// What stands before the tail window has no part in the result: whatever
/// is put before the last `TAIL_WINDOW` bytes, the probe finds the same.
pub proof fn only_the_tail_is_searched(head: Seq<u8>, tail: Seq<u8>, pattern: Seq<char>)
    requires
        tail.len() >= TAIL_WINDOW,
    ensures
        tail_window(head + tail) == tail_window(tail),
        timestamp_at_end(head + tail, pattern) == timestamp_at_end(tail, pattern),
{
    assert(tail_window(head + tail) =~= tail_window(tail));
}

/// Where the pattern matches nowhere in the tail window, the probe finds
/// nothing, whatever the source holds before the window.
pub proof fn no_match_in_the_tail_is_no_timestamp(source: Seq<u8>, pattern: Seq<char>)
    requires
        captured(pattern, lossy_text(tail_window(source)), 1) is None,
    ensures
        timestamp_at_end(source, pattern) is None,
{
}

/// Why the probe of a file gave no answer.
#[derive(Debug)]
pub enum ProbeError {
    /// The pattern cannot be used.
    Pattern(PatternError),
    /// The tail window could not be read.
    Read(std::io::Error),
}

/// Finds the timestamp at the end of a file that is `len` bytes long. The
/// pattern is checked first; then the tail window, and nothing before it, is
/// read from the file and searched.
pub fn find_timestamp_in_file<F: FileInput>(file: &F, len: usize, pattern: &str) -> (r: Result<
    Option<UnixTimestamp>,
    ProbeError,
>)
    ensures
        !single_capture(pattern@) ==> (r matches Err(ProbeError::Pattern(e)) && pattern_fault(
            pattern@,
        ) == Some(e)),
        single_capture(pattern@) ==> !(r matches Err(ProbeError::Pattern(_))),
        r matches Ok(found) ==> exists|window: Seq<u8>|
            found == #[trigger] timestamp_at_end(window, pattern@),
{
    if let Err(e) = check_pattern(pattern) {
        return Err(ProbeError::Pattern(e));
    }
    match file.slice(tail_start(len), len) {
        Ok(window) => Ok(try_to_find_timestamp_at_end(window.as_slice(), pattern)),
        Err(e) => Err(ProbeError::Read(e)),
    }
}

} // verus!
