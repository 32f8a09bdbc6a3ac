//! SRT timestamp lines: recognition, timing values and per-file aggregation.
//!
//! Text is read as its UTF-8 bytes. A timestamp line holds, anywhere in it,
//! `HH:MM:SS,mmm --> HH:MM:SS,mmm` with ASCII digits; only the leftmost such
//! occurrence of a line counts.
use vstd::prelude::*;
use vstd::string::StringSliceAdditionalSpecFns;

verus! {

pub open spec fn is_digit(b: u8) -> bool {
    48 <= b <= 57
}

pub open spec fn digit_value(b: u8) -> int {
    b as int - 48
}

/// `HH:MM:SS,mmm` starts at `i` in `s`.
pub open spec fn clock_at(s: Seq<u8>, i: int) -> bool {
    &&& 0 <= i
    &&& i + 12 <= s.len()
    &&& is_digit(s[i]) && is_digit(s[i + 1]) && s[i + 2] == 58u8
    &&& is_digit(s[i + 3]) && is_digit(s[i + 4]) && s[i + 5] == 58u8
    &&& is_digit(s[i + 6]) && is_digit(s[i + 7]) && s[i + 8] == 44u8
    &&& is_digit(s[i + 9]) && is_digit(s[i + 10]) && is_digit(s[i + 11])
}

/// The whole pattern `HH:MM:SS,mmm --> HH:MM:SS,mmm` starts at `i` in `s`.
pub open spec fn pattern_at(s: Seq<u8>, i: int) -> bool {
    &&& clock_at(s, i)
    &&& i + 29 <= s.len()
    &&& s[i + 12] == 32u8 && s[i + 13] == 45u8 && s[i + 14] == 45u8
    &&& s[i + 15] == 62u8 && s[i + 16] == 32u8
    &&& clock_at(s, i + 17)
}

/// Milliseconds denoted by the `HH:MM:SS,mmm` that starts at `i`.
pub open spec fn clock_millis(s: Seq<u8>, i: int) -> int {
    (digit_value(s[i]) * 10 + digit_value(s[i + 1])) * 3_600_000
        + (digit_value(s[i + 3]) * 10 + digit_value(s[i + 4])) * 60_000
        + (digit_value(s[i + 6]) * 10 + digit_value(s[i + 7])) * 1000
        + digit_value(s[i + 9]) * 100 + digit_value(s[i + 10]) * 10 + digit_value(s[i + 11])
}

/// The leftmost position at or after `i` where the pattern starts.
pub open spec fn first_pattern_from(s: Seq<u8>, i: int) -> Option<int>
    decreases s.len() - i,
{
    if i < 0 || i + 29 > s.len() {
        None
    } else if pattern_at(s, i) {
        Some(i)
    } else {
        first_pattern_from(s, i + 1)
    }
}

/// The timing that a line carries: start and end of its leftmost match.
pub open spec fn line_timing(line: Seq<u8>) -> Option<(int, int)> {
    match first_pattern_from(line, 0) {
        Some(i) => Some((clock_millis(line, i), clock_millis(line, i + 17))),
        None => None,
    }
}


/// The text split at each `\n`: `n` newlines give `n + 1` lines.
pub open spec fn split_lines(s: Seq<u8>) -> Seq<Seq<u8>>
    decreases s.len(),
{
    if s.len() == 0 {
        seq![Seq::empty()]
    } else {
        let init = split_lines(s.drop_last());
        if s.last() == 10u8 {
            init.push(Seq::empty())
        } else {
            init.update(init.len() - 1, init.last().push(s.last()))
        }
    }
}

/// Signed length of the interval that a line carries, 0 for a line without one.
pub open spec fn line_duration(line: Seq<u8>) -> int {
    match line_timing(line) {
        Some((start, end)) => end - start,
        None => 0,
    }
}

/// Number of lines that carry a timestamp pair.
pub open spec fn count_timed(lines: Seq<Seq<u8>>) -> nat
    decreases lines.len(),
{
    if lines.len() == 0 {
        0
    } else {
        count_timed(lines.drop_last()) + if line_timing(lines.last()) is Some {
            1nat
        } else {
            0nat
        }
    }
}

/// Sum of the lines' durations, added up in the order of the lines.
pub open spec fn total_duration(lines: Seq<Seq<u8>>) -> int
    decreases lines.len(),
{
    if lines.len() == 0 {
        0
    } else {
        total_duration(lines.drop_last()) + line_duration(lines.last())
    }
}

/// Counting and summing split over consecutive runs of lines: the totals of
/// `a` followed by `b` are those of `a` plus those of `b`.
pub proof fn lemma_timed_concat(a: Seq<Seq<u8>>, b: Seq<Seq<u8>>)
    ensures
        count_timed(a + b) == count_timed(a) + count_timed(b),
        total_duration(a + b) == total_duration(a) + total_duration(b),
    decreases b.len(),
{
    if b.len() == 0 {
        assert(a + b =~= a);
    } else {
        assert((a + b).drop_last() =~= a + b.drop_last());
        lemma_timed_concat(a, b.drop_last());
    }
}

/// A line without a timestamp pair, wherever it stands among the others,
/// changes neither the number of segments nor the speech total.
pub proof fn lemma_untimed_line_ignored(a: Seq<Seq<u8>>, line: Seq<u8>, b: Seq<Seq<u8>>)
    requires
        line_timing(line) is None,
    ensures
        count_timed(a + seq![line] + b) == count_timed(a + b),
        total_duration(a + seq![line] + b) == total_duration(a + b),
{
    lemma_timed_concat(a, seq![line]);
    lemma_timed_concat(a + seq![line], b);
    lemma_timed_concat(a, b);
    let one = seq![line];
    assert(one.drop_last() =~= Seq::<Seq<u8>>::empty());
    assert(one.last() == line);
    assert(count_timed(Seq::<Seq<u8>>::empty()) == 0);
    assert(total_duration(Seq::<Seq<u8>>::empty()) == 0);
    assert(count_timed(one) == 0);
    assert(total_duration(one) == 0);
}

/// One subtitle interval, in milliseconds from the start of the recording.
#[derive(Clone, Copy, Debug, PartialEq, Eq, Structural)]
pub struct SrtSegment {
    pub start_millis: u32,
    pub end_millis: u32,
}

/// What a whole subtitle file adds up to.
#[derive(Clone, Copy, Debug, PartialEq, Eq, Structural)]
pub struct SrtStats {
    /// Number of timestamp lines.
    pub segments: usize,
    /// Sum of `end - start` over those lines, in milliseconds; negative
    /// intervals are counted as they stand.
    pub speech_millis: i128,
}

/// Largest value of `HH:MM:SS,mmm`, in milliseconds.
pub const MAX_CLOCK_MILLIS: u32 = 362_439_999;

fn is_digit_byte(c: u8) -> (r: bool)
    ensures
        r == is_digit(c),
{
    48 <= c && c <= 57
}

fn clock_in(b: &[u8], i: usize) -> (r: bool)
    requires
        i + 12 <= b@.len(),
    ensures
        r == clock_at(b@, i as int),
{
    is_digit_byte(b[i]) && is_digit_byte(b[i + 1]) && b[i + 2] == 58u8
        && is_digit_byte(b[i + 3]) && is_digit_byte(b[i + 4]) && b[i + 5] == 58u8
        && is_digit_byte(b[i + 6]) && is_digit_byte(b[i + 7]) && b[i + 8] == 44u8
        && is_digit_byte(b[i + 9]) && is_digit_byte(b[i + 10]) && is_digit_byte(b[i + 11])
}

fn pattern_in(b: &[u8], i: usize) -> (r: bool)
    requires
        i + 29 <= b@.len() <= usize::MAX,
    ensures
        r == pattern_at(b@, i as int),
{
    clock_in(b, i) && b[i + 12] == 32u8 && b[i + 13] == 45u8 && b[i + 14] == 45u8
        && b[i + 15] == 62u8 && b[i + 16] == 32u8 && clock_in(b, i + 17)
}

fn clock_value(b: &[u8], i: usize) -> (r: u32)
    requires
        clock_at(b@, i as int),
    ensures
        r as int == clock_millis(b@, i as int),
        r <= MAX_CLOCK_MILLIS,
{
    let h = ((b[i] - 48u8) as u32) * 10 + (b[i + 1] - 48u8) as u32;
    let m = ((b[i + 3] - 48u8) as u32) * 10 + (b[i + 4] - 48u8) as u32;
    let s = ((b[i + 6] - 48u8) as u32) * 10 + (b[i + 7] - 48u8) as u32;
    let ms = ((b[i + 9] - 48u8) as u32) * 100 + ((b[i + 10] - 48u8) as u32) * 10 + (b[i
        + 11] - 48u8) as u32;
    h * 3_600_000 + m * 60_000 + s * 1000 + ms
}

proof fn lemma_pattern_in_line(b: Seq<u8>, start: int, end: int, k: int)
    requires
        0 <= start <= end <= b.len(),
        0 <= k,
        k + 29 <= end - start,
    ensures
        pattern_at(b.subrange(start, end), k) == pattern_at(b, start + k),
        clock_millis(b.subrange(start, end), k) == clock_millis(b, start + k),
        clock_millis(b.subrange(start, end), k + 17) == clock_millis(b, start + k + 17),
{
    let l = b.subrange(start, end);
    assert forall|t: int| 0 <= t < 29 implies #[trigger] l[k + t] == b[start + k + t] by {}
}

/// Leftmost match of the pattern in the line `b[start..end]`.
fn first_pattern_in(b: &[u8], start: usize, end: usize) -> (r: Option<usize>)
    requires
        start <= end <= b@.len() <= usize::MAX,
    ensures
        match first_pattern_from(b@.subrange(start as int, end as int), 0) {
            Some(k) => 0 <= k && start + k + 29 <= end && r == Some((start + k) as usize),
            None => r is None,
        },
        r matches Some(j) ==> start <= j && j + 29 <= end && pattern_at(b@, j as int),
{
    let ghost l = b@.subrange(start as int, end as int);
    let mut j: usize = start;
    while end - j >= 29
        invariant
            start <= j <= end <= b@.len() <= usize::MAX,
            l == b@.subrange(start as int, end as int),
            first_pattern_from(l, 0) == first_pattern_from(l, j - start),
        decreases end - j,
    {
        proof {
            lemma_pattern_in_line(b@, start as int, end as int, j - start);
        }
        if pattern_in(b, j) {
            return Some(j);
        }
        j += 1;
    }
    None
}

/// Timing of the line `b[start..end]`.
fn segment_in(b: &[u8], start: usize, end: usize) -> (r: Option<SrtSegment>)
    requires
        start <= end <= b@.len() <= usize::MAX,
    ensures
        match r {
            Some(seg) => line_timing(b@.subrange(start as int, end as int)) == Some(
                (seg.start_millis as int, seg.end_millis as int),
            ),
            None => line_timing(b@.subrange(start as int, end as int)) is None,
        },
        r matches Some(seg) ==> seg.start_millis <= MAX_CLOCK_MILLIS && seg.end_millis
            <= MAX_CLOCK_MILLIS,
{
    match first_pattern_in(b, start, end) {
        Some(j) => {
            proof {
                let l = b@.subrange(start as int, end as int);
                lemma_pattern_in_line(b@, start as int, end as int, j - start);
            }
            Some(SrtSegment { start_millis: clock_value(b, j), end_millis: clock_value(b, j + 17) })
        },
        None => None,
    }
}

/// Reads the interval of one subtitle line: the leftmost
/// `HH:MM:SS,mmm --> HH:MM:SS,mmm` in it, if there is one.
pub fn parse_timestamp_line(line: &str) -> (r: Option<SrtSegment>)
    ensures
        match r {
            Some(seg) => line_timing(line.spec_bytes()) == Some(
                (seg.start_millis as int, seg.end_millis as int),
            ),
            None => line_timing(line.spec_bytes()) is None,
        },
{
    let b = line.as_bytes();
    assert(b@.subrange(0, b@.len() as int) =~= b@);
    segment_in(b, 0, b.len())
}

/// Counts the timestamp lines of a subtitle text and adds up their
/// intervals. Lines are separated by `\n`; index numbers, caption text and
/// blank lines carry no timestamp pair and count for nothing.
pub fn srt_stats(content: &str) -> (r: SrtStats)
    ensures
        r.segments == count_timed(split_lines(content.spec_bytes())),
        r.speech_millis == total_duration(split_lines(content.spec_bytes())),
{
    let b = content.as_bytes();
    let n = b.len();
    let mut segments: usize = 0;
    let mut total: i128 = 0;
    let mut start: usize = 0;
    let mut i: usize = 0;
    let ghost mut done: Seq<Seq<u8>> = Seq::empty();
    assert(b@.take(0) =~= Seq::<u8>::empty());
    assert(b@.subrange(0, 0) =~= Seq::<u8>::empty());
    assert(done.push(Seq::<u8>::empty()) =~= seq![Seq::<u8>::empty()]);
    while i < n
        invariant
            n == b@.len(),
            b@ == content.spec_bytes(),
            segments <= start <= i <= n,
            split_lines(b@.take(i as int)) == done.push(b@.subrange(start as int, i as int)),
            segments == count_timed(done),
            total == total_duration(done),
            -(segments * MAX_CLOCK_MILLIS) <= total <= segments * MAX_CLOCK_MILLIS,
        decreases n - i,
    {
        let ghost line = b@.subrange(start as int, i as int);
        assert(b@.take(i + 1).drop_last() =~= b@.take(i as int));
        if b[i] == 10u8 {
            match segment_in(b, start, i) {
                Some(seg) => {
                    segments += 1;
                    total = total + (seg.end_millis as i128 - seg.start_millis as i128);
                },
                None => {},
            }
            proof {
                assert(done.push(line).drop_last() =~= done);
                done = done.push(line);
                assert(b@.subrange(i + 1, i + 1) =~= Seq::<u8>::empty());
            }
            start = i + 1;
        } else {
            assert(line.push(b@[i as int]) =~= b@.subrange(start as int, i + 1));
        }
        i += 1;
    }
    let ghost line = b@.subrange(start as int, n as int);
    assert(b@.take(n as int) =~= b@);
    assert(done.push(line).drop_last() =~= done);
    match segment_in(b, start, n) {
        Some(seg) => {
            segments += 1;
            total = total + (seg.end_millis as i128 - seg.start_millis as i128);
        },
        None => {},
    }
    SrtStats { segments, speech_millis: total }
}

} // verus!
