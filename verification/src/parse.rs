use vstd::prelude::*;

use crate::cue::{cues_model, opt_cue_model, parse_ts_fits, parse_ts_ranges, spec_parse_ts, CueModel, SrtCue};
use crate::parts::bom;
use crate::text::{chars_of, all_ascii_digits, digits_value, is_ascii_digit, is_decimal_digit, is_decimal_digit_exec, is_white_space, is_whitespace, parse_usize_chars, spec_parse_i64, spec_parse_usize, string_from_chars, trim};

verus! {

// ---------------------------------------------------------------------------
// Preparing the text

/// The text without the byte-order marks at its start.
pub open spec fn strip_boms(s: Seq<char>) -> Seq<char>
    decreases s.len(),
{
    if s.len() > 0 && s[0] == bom() {
        strip_boms(s.drop_first())
    } else {
        s
    }
}

/// The text with each `\r\n`, and then each remaining `\r`, turned into `\n`.
pub open spec fn unify_newlines(s: Seq<char>) -> Seq<char>
    decreases s.len(),
{
    if s.len() == 0 {
        seq![]
    } else if s[0] == '\r' {
        if s.len() > 1 && s[1] == '\n' {
            seq!['\n'] + unify_newlines(s.skip(2))
        } else {
            seq!['\n'] + unify_newlines(s.drop_first())
        }
    } else {
        seq![s[0]] + unify_newlines(s.drop_first())
    }
}

pub open spec fn srt_normalized(raw: Seq<char>) -> Seq<char> {
    unify_newlines(strip_boms(raw))
}

fn normalize(s: &[char]) -> (res: Vec<char>)
    ensures
        res@ == srt_normalized(s@),
{
    let n = s.len();
    let mut i: usize = 0;
    assert(s@.skip(0) =~= s@);
    while i < n && s[i] == '\u{feff}'
        invariant
            i <= n == s@.len(),
            strip_boms(s@) == strip_boms(s@.skip(i as int)),
        decreases n - i,
    {
        assert(s@.skip(i as int).drop_first() =~= s@.skip(i + 1));
        i = i + 1;
    }
    let ghost body = s@.skip(i as int);
    assert(strip_boms(body) == body);
    let mut out: Vec<char> = Vec::new();
    while i < n
        invariant
            i <= n == s@.len(),
            body == strip_boms(s@),
            body.len() <= n,
            body == s@.skip(n - body.len()),
            n - body.len() <= i,
            out@ + unify_newlines(s@.skip(i as int)) == unify_newlines(body),
        decreases n - i,
    {
        let ghost rest = s@.skip(i as int);
        if s[i] == '\r' {
            if i + 1 < n && s[i + 1] == '\n' {
                assert(rest.skip(2) =~= s@.skip(i + 2));
                out.push('\n');
                assert(out@ + unify_newlines(s@.skip(i + 2)) =~= unify_newlines(body));
                i = i + 2;
            } else {
                assert(rest.drop_first() =~= s@.skip(i + 1));
                out.push('\n');
                assert(out@ + unify_newlines(s@.skip(i + 1)) =~= unify_newlines(body));
                i = i + 1;
            }
        } else {
            assert(rest.drop_first() =~= s@.skip(i + 1));
            out.push(s[i]);
            assert(out@ + unify_newlines(s@.skip(i + 1)) =~= unify_newlines(body));
            i = i + 1;
        }
    }
    assert(s@.skip(i as int) =~= Seq::<char>::empty());
    assert(out@ =~= unify_newlines(body));
    out
}


// ---------------------------------------------------------------------------
// Blocks

/// The pieces of `s` between the occurrences of `"\n\n"`, found from left to
/// right (as `str::split("\n\n")` finds them), scanning from `i` with the
/// current piece starting at `start`.
pub open spec fn split_blank_from(s: Seq<char>, start: int, i: int) -> Seq<Seq<char>>
    decreases s.len() - i,
{
    if i + 1 >= s.len() {
        seq![s.subrange(start, s.len() as int)]
    } else if s[i] == '\n' && s[i + 1] == '\n' {
        seq![s.subrange(start, i)] + split_blank_from(s, i + 2, i + 2)
    } else {
        split_blank_from(s, start, i + 1)
    }
}

/// `str::split("\n\n")`.
pub open spec fn split_blank(s: Seq<char>) -> Seq<Seq<char>> {
    split_blank_from(s, 0, 0)
}

pub open spec fn range_texts(s: Seq<char>, ranges: Seq<(usize, usize)>) -> Seq<Seq<char>> {
    ranges.map_values(|r: (usize, usize)| s.subrange(r.0 as int, r.1 as int))
}

/// The bounds of the pieces of `s` between blank lines.
fn split_blank_ranges(s: &[char]) -> (res: Vec<(usize, usize)>)
    ensures
        range_texts(s@, res@) == split_blank(s@),
        forall|k: int| 0 <= k < res@.len() ==> (#[trigger] res@[k]).0 <= res@[k].1 <= s@.len(),
{
    let n = s.len();
    let mut out: Vec<(usize, usize)> = Vec::new();
    let mut start: usize = 0;
    let mut i: usize = 0;
    while n - i > 1
        invariant
            n == s@.len(),
            start <= i <= n,
            range_texts(s@, out@) + split_blank_from(s@, start as int, i as int) == split_blank(
                s@,
            ),
            forall|k: int| 0 <= k < out@.len() ==> (#[trigger] out@[k]).0 <= out@[k].1 <= n,
        decreases n - i,
    {
        if s[i] == '\n' && s[i + 1] == '\n' {
            let ghost before = out@;
            out.push((start, i));
            assert(range_texts(s@, out@) =~= range_texts(s@, before) + seq![
                s@.subrange(start as int, i as int),
            ]);
            assert(range_texts(s@, out@) + split_blank_from(s@, i + 2, i + 2) =~= split_blank(s@));
            i = i + 2;
            start = i;
        } else {
            i = i + 1;
        }
    }
    let ghost before = out@;
    out.push((start, n));
    assert(range_texts(s@, out@) =~= range_texts(s@, before) + seq![
        s@.subrange(start as int, n as int),
    ]);
    out
}


// ---------------------------------------------------------------------------
// The time line `HH:MM:SS,mmm --> HH:MM:SS,mmm`

/// `t[p..p + 12]` has the shape `DD:DD:DD,DDD` (or with `.` before the
/// milliseconds), each `D` a decimal digit of any script (the class `\d`).
pub open spec fn ts_shape_at(t: Seq<char>, p: int) -> bool {
    &&& 0 <= p
    &&& p + 12 <= t.len()
    &&& is_decimal_digit(t[p])
    &&& is_decimal_digit(t[p + 1])
    &&& t[p + 2] == ':'
    &&& is_decimal_digit(t[p + 3])
    &&& is_decimal_digit(t[p + 4])
    &&& t[p + 5] == ':'
    &&& is_decimal_digit(t[p + 6])
    &&& is_decimal_digit(t[p + 7])
    &&& (t[p + 8] == ',' || t[p + 8] == '.')
    &&& is_decimal_digit(t[p + 9])
    &&& is_decimal_digit(t[p + 10])
    &&& is_decimal_digit(t[p + 11])
}

/// The digits of the timestamp at `t[p..p + 12]` are all ASCII digits.
pub open spec fn ts_ascii_at(t: Seq<char>, p: int) -> bool {
    &&& is_ascii_digit(t[p])
    &&& is_ascii_digit(t[p + 1])
    &&& is_ascii_digit(t[p + 3])
    &&& is_ascii_digit(t[p + 4])
    &&& is_ascii_digit(t[p + 6])
    &&& is_ascii_digit(t[p + 7])
    &&& is_ascii_digit(t[p + 9])
    &&& is_ascii_digit(t[p + 10])
    &&& is_ascii_digit(t[p + 11])
}

/// The time in milliseconds of the timestamp fields at `t[p..p + 12]`.
pub open spec fn ts_value_at(t: Seq<char>, p: int) -> Option<int> {
    spec_parse_ts(
        t.subrange(p, p + 2),
        t.subrange(p + 3, p + 5),
        t.subrange(p + 6, p + 8),
        t.subrange(p + 9, p + 12),
    )
}

/// The number of `White_Space` characters from `t[i]` on.
pub open spec fn ws_run(t: Seq<char>, i: int) -> nat
    decreases t.len() - i,
{
    if 0 <= i < t.len() && is_white_space(t[i]) {
        1 + ws_run(t, i + 1)
    } else {
        0
    }
}

/// Where `t` starts with `HH:MM:SS,mmm`, white space, `-->`, white space and
/// `HH:MM:SS,mmm` (anything may follow), the positions of the two timestamps.
pub open spec fn time_line_positions(t: Seq<char>) -> Option<(int, int)> {
    if !ts_shape_at(t, 0) {
        None
    } else {
        let a: int = 12 + ws_run(t, 12) as int;
        if a + 3 <= t.len() && t[a] == '-' && t[a + 1] == '-' && t[a + 2] == '>' {
            let b: int = a + 3 + ws_run(t, a + 3) as int;
            if ts_shape_at(t, b) {
                Some((0, b))
            } else {
                None
            }
        } else {
            None
        }
    }
}

pub open spec fn pow10(n: nat) -> nat
    decreases n,
{
    if n == 0 {
        1
    } else {
        10 * pow10((n - 1) as nat)
    }
}

proof fn lemma_digits_value_bound(s: Seq<char>)
    requires
        all_ascii_digits(s),
    ensures
        digits_value(s) < pow10(s.len()),
    decreases s.len(),
{
    if s.len() > 0 {
        assert(all_ascii_digits(s.drop_last())) by {
            assert forall|i: int| 0 <= i < s.drop_last().len() implies is_ascii_digit(
                #[trigger] s.drop_last()[i],
            ) by {
                assert(s.drop_last()[i] == s[i]);
            }
        }
        lemma_digits_value_bound(s.drop_last());
        assert(is_ascii_digit(s[s.len() - 1]));
    }
}

proof fn lemma_digit_field(t: Seq<char>, lo: int, hi: int)
    requires
        0 <= lo < hi <= t.len(),
        hi - lo <= 3,
        forall|k: int| lo <= k < hi ==> is_decimal_digit(#[trigger] t[k]),
    ensures
        all_ascii_digits(t.subrange(lo, hi)) <==> forall|k: int| lo <= k < hi ==> is_ascii_digit(
            #[trigger] t[k],
        ),
        all_ascii_digits(t.subrange(lo, hi)) ==> spec_parse_i64(t.subrange(lo, hi)) == Some::<int>(
            digits_value(t.subrange(lo, hi)) as int,
        ),
        !all_ascii_digits(t.subrange(lo, hi)) ==> spec_parse_i64(t.subrange(lo, hi)) is None,
        all_ascii_digits(t.subrange(lo, hi)) && hi - lo == 2 ==> digits_value(t.subrange(lo, hi))
            < 100,
        all_ascii_digits(t.subrange(lo, hi)) && hi - lo == 3 ==> digits_value(t.subrange(lo, hi))
            < 1000,
{
    let f = t.subrange(lo, hi);
    assert forall|i: int| 0 <= i < f.len() implies #[trigger] f[i] == t[lo + i] by {}
    if all_ascii_digits(f) {
        assert forall|k: int| lo <= k < hi implies is_ascii_digit(#[trigger] t[k]) by {
            assert(f[k - lo] == t[k]);
        }
        lemma_digits_value_bound(f);
        assert(pow10(0) == 1);
        assert(pow10(1) == 10);
        assert(pow10(2) == 100);
        assert(pow10(3) == 1000);
    } else {
        assert(!(forall|k: int| lo <= k < hi ==> is_ascii_digit(#[trigger] t[k]))) by {
            if forall|k: int| lo <= k < hi ==> is_ascii_digit(#[trigger] t[k]) {
                assert forall|i: int| 0 <= i < f.len() implies is_ascii_digit(#[trigger] f[i]) by {
                    assert(is_ascii_digit(t[lo + i]));
                }
            }
        }
    }
    assert(is_decimal_digit(t[lo]));
    assert(f[0] != '+' && f[0] != '-');
}

/// A timestamp of the right shape reads, without leaving `i64`, exactly where
/// its digits are ASCII digits, and then to a value of at least 0.
pub proof fn lemma_ts_shape_value(t: Seq<char>, p: int)
    requires
        ts_shape_at(t, p),
    ensures
        ({
            let h = t.subrange(p, p + 2);
            let m = t.subrange(p + 3, p + 5);
            let s = t.subrange(p + 6, p + 8);
            let x = t.subrange(p + 9, p + 12);
            &&& parse_ts_fits(h, m, s, x)
            &&& ts_value_at(t, p) is Some <==> ts_ascii_at(t, p)
            &&& ts_ascii_at(t, p) ==> ts_value_at(t, p) == Some(
                (digits_value(h) * 3_600_000 + digits_value(m) * 60_000 + digits_value(s) * 1_000
                    + digits_value(x)) as int,
            )
            &&& ts_ascii_at(t, p) ==> 0 <= ts_value_at(t, p).unwrap()
        }),
{
    lemma_digit_field(t, p, p + 2);
    lemma_digit_field(t, p + 3, p + 5);
    lemma_digit_field(t, p + 6, p + 8);
    lemma_digit_field(t, p + 9, p + 12);
    assert(ts_ascii_at(t, p) <==> {
        &&& (forall|k: int| p <= k < p + 2 ==> is_ascii_digit(#[trigger] t[k]))
        &&& (forall|k: int| p + 3 <= k < p + 5 ==> is_ascii_digit(#[trigger] t[k]))
        &&& (forall|k: int| p + 6 <= k < p + 8 ==> is_ascii_digit(#[trigger] t[k]))
        &&& (forall|k: int| p + 9 <= k < p + 12 ==> is_ascii_digit(#[trigger] t[k]))
    });
}

fn ts_shape_exec(s: &[char], lo: usize, hi: usize, p: usize) -> (r: bool)
    requires
        lo <= p <= hi <= s@.len(),
    ensures
        r == ts_shape_at(s@.subrange(lo as int, hi as int), p - lo),
{
    if hi - p < 12 {
        return false;
    }
    is_decimal_digit_exec(s[p]) && is_decimal_digit_exec(s[p + 1]) && s[p + 2] == ':'
        && is_decimal_digit_exec(s[p + 3]) && is_decimal_digit_exec(s[p + 4]) && s[p + 5] == ':'
        && is_decimal_digit_exec(s[p + 6]) && is_decimal_digit_exec(s[p + 7]) && (s[p + 8] == ','
        || s[p + 8] == '.') && is_decimal_digit_exec(s[p + 9]) && is_decimal_digit_exec(s[p + 10])
        && is_decimal_digit_exec(s[p + 11])
}

fn ws_run_exec(s: &[char], lo: usize, hi: usize, i: usize) -> (k: usize)
    requires
        lo <= i <= hi <= s@.len(),
    ensures
        i + k <= hi,
        k == ws_run(s@.subrange(lo as int, hi as int), i - lo),
{
    let ghost t = s@.subrange(lo as int, hi as int);
    let mut j = i;
    while j < hi && is_whitespace(s[j])
        invariant
            lo <= i <= j <= hi <= s@.len(),
            t == s@.subrange(lo as int, hi as int),
            ws_run(t, i - lo) == (j - i) + ws_run(t, j - lo),
        decreases hi - j,
    {
        j = j + 1;
    }
    j - i
}

/// Where `s[lo..hi]` is a time line, the position in `s` of its second timestamp.
fn time_line_exec(s: &[char], lo: usize, hi: usize) -> (r: Option<usize>)
    requires
        lo <= hi <= s@.len(),
    ensures
        r matches Some(b) ==> lo <= b <= hi && time_line_positions(
            s@.subrange(lo as int, hi as int),
        ) == Some((0int, b - lo)),
        r is None ==> time_line_positions(s@.subrange(lo as int, hi as int)) is None,
{
    let ghost t = s@.subrange(lo as int, hi as int);
    if !ts_shape_exec(s, lo, hi, lo) {
        return None;
    }
    let a = lo + 12 + ws_run_exec(s, lo, hi, lo + 12);
    if hi - a >= 3 && s[a] == '-' && s[a + 1] == '-' && s[a + 2] == '>' {
        let b = a + 3 + ws_run_exec(s, lo, hi, a + 3);
        if ts_shape_exec(s, lo, hi, b) {
            Some(b)
        } else {
            None
        }
    } else {
        None
    }
}

/// The two times of a time line, where it is one.
pub open spec fn time_line_times(line: Seq<char>) -> Option<(int, int)> {
    match time_line_positions(line) {
        None => None,
        Some(pq) => match (ts_value_at(line, pq.0), ts_value_at(line, pq.1)) {
            (Some(a), Some(b)) => Some((a, b)),
            _ => None,
        },
    }
}

pub open spec fn opt_times(o: Option<(i64, i64)>) -> Option<(int, int)> {
    match o {
        Some(p) => Some((p.0 as int, p.1 as int)),
        None => None,
    }
}

pub open spec fn initial_ts_message() -> Seq<char> {
    "Timestamp inicial inválido."@
}

pub open spec fn final_ts_message() -> Seq<char> {
    "Timestamp final inválido."@
}

/// The error that reading a time line answers: the line has the shape of a
/// time line, but one of its timestamps holds a digit that is no ASCII digit
/// and so does not read as a number.
pub open spec fn time_line_error(line: Seq<char>) -> Option<Seq<char>> {
    match time_line_positions(line) {
        None => None,
        Some(pq) => if ts_value_at(line, pq.0) is None {
            Some(initial_ts_message())
        } else if ts_value_at(line, pq.1) is None {
            Some(final_ts_message())
        } else {
            None
        },
    }
}

/// The two times of the line `s[l..e]`, where it is a time line; an error
/// where one of its timestamps does not read.
fn read_time_line(s: &[char], l: usize, e: usize) -> (res: Result<Option<(i64, i64)>, String>)
    requires
        l <= e <= s@.len(),
    ensures
        match res {
            Ok(o) => time_line_error(s@.subrange(l as int, e as int)) is None && opt_times(o)
                == time_line_times(s@.subrange(l as int, e as int)),
            Err(msg) => time_line_error(s@.subrange(l as int, e as int)) == Some(msg@),
        },
{
    let ghost line1 = s@.subrange(l as int, e as int);
    let q = match time_line_exec(s, l, e) {
        Some(q) => q,
        None => return Ok(None),
    };
    proof {
        lemma_ts_shape_value(line1, 0);
        lemma_ts_shape_value(line1, q - l);
        assert(line1.subrange(0, 2) =~= s@.subrange(l as int, l + 2));
        assert(line1.subrange(3, 5) =~= s@.subrange(l + 3, l + 5));
        assert(line1.subrange(6, 8) =~= s@.subrange(l + 6, l + 8));
        assert(line1.subrange(9, 12) =~= s@.subrange(l + 9, l + 12));
        let p = q - l;
        assert(line1.subrange(p, p + 2) =~= s@.subrange(q as int, q + 2));
        assert(line1.subrange(p + 3, p + 5) =~= s@.subrange(q + 3, q + 5));
        assert(line1.subrange(p + 6, p + 8) =~= s@.subrange(q + 6, q + 8));
        assert(line1.subrange(p + 9, p + 12) =~= s@.subrange(q + 9, q + 12));
    }
    let start_ms = match parse_ts_ranges(
        s,
        (l, l + 2),
        (l + 3, l + 5),
        (l + 6, l + 8),
        (l + 9, l + 12),
    ) {
        Some(v) => v,
        None => return Err(String::from_str("Timestamp inicial inválido.")),
    };
    let end_ms = match parse_ts_ranges(
        s,
        (q, q + 2),
        (q + 3, q + 5),
        (q + 6, q + 8),
        (q + 9, q + 12),
    ) {
        Some(v) => v,
        None => return Err(String::from_str("Timestamp final inválido.")),
    };
    Ok(Some((start_ms, end_ms)))
}

// ---------------------------------------------------------------------------
// One block

/// The first position `k >= i` with `t[k] == c`.
pub open spec fn find_char_from(t: Seq<char>, c: char, i: int) -> Option<int>
    decreases t.len() - i,
{
    if i < 0 || i >= t.len() {
        None
    } else if t[i] == c {
        Some(i)
    } else {
        find_char_from(t, c, i + 1)
    }
}

fn find_char(s: &[char], lo: usize, hi: usize, from: usize, c: char) -> (r: Option<usize>)
    requires
        lo <= from <= hi <= s@.len(),
    ensures
        r matches Some(k) ==> from <= k < hi && find_char_from(
            s@.subrange(lo as int, hi as int),
            c,
            from - lo,
        ) == Some(k - lo),
        r is None ==> find_char_from(s@.subrange(lo as int, hi as int), c, from - lo) is None,
{
    let ghost t = s@.subrange(lo as int, hi as int);
    let mut k = from;
    while k < hi
        invariant
            lo <= from <= k <= hi <= s@.len(),
            t == s@.subrange(lo as int, hi as int),
            find_char_from(t, c, from - lo) == find_char_from(t, c, k - lo),
        decreases hi - k,
    {
        if s[k] == c {
            return Some(k);
        }
        k = k + 1;
    }
    None
}

/// The first line, the second line and the rest (the lines after the second,
/// joined by `\n`) of a block with at least two lines.
pub open spec fn block_lines(b: Seq<char>) -> Option<(Seq<char>, Seq<char>, Seq<char>)> {
    match find_char_from(b, '\n', 0) {
        None => None,
        Some(i) => match find_char_from(b, '\n', i + 1) {
            Some(j) => Some((b.subrange(0, i), b.subrange(i + 1, j), b.subrange(j + 1, b.len() as int))),
            None => Some((b.subrange(0, i), b.subrange(i + 1, b.len() as int), Seq::<char>::empty())),
        },
    }
}

/// The cue of a number line, a time line and a text; `None` where the second
/// line is no time line or the cue does not end after it starts.
pub open spec fn lines_cue(line0: Seq<char>, line1: Seq<char>, body: Seq<char>) -> Option<CueModel> {
    match time_line_times(line1) {
        None => None,
        Some(times) => if times.1 <= times.0 {
            None
        } else {
            Some(
                CueModel {
                    index: match spec_parse_usize(trim(line0)) {
                        Some(v) => v,
                        None => 0,
                    },
                    start_ms: times.0,
                    end_ms: times.1,
                    text: body,
                },
            )
        },
    }
}

/// The cue that one trimmed block of an `.srt` file holds: its first line is
/// the number, its second the time line, the rest the text; `None` where the
/// block has fewer than two lines, no time line, or does not end after it
/// starts.
#[verifier::opaque]
pub open spec fn block_cue(b: Seq<char>) -> Option<CueModel> {
    match block_lines(b) {
        None => None,
        Some(ls) => lines_cue(ls.0, ls.1, ls.2),
    }
}

/// The bounds in `s` of the lines of the block `s[lo..hi]`: the first line
/// ends at `r.0`, the second is `s[r.1..r.2]`, the rest starts at `r.3`.
fn block_line_bounds(s: &[char], lo: usize, hi: usize) -> (r: Option<(usize, usize, usize, usize)>)
    requires
        lo <= hi <= s@.len(),
    ensures
        r matches Some(q) ==> {
            &&& lo <= q.0 < q.1 <= q.2 <= q.3 <= hi
            &&& block_lines(s@.subrange(lo as int, hi as int)) == Some(
                (
                    s@.subrange(lo as int, q.0 as int),
                    s@.subrange(q.1 as int, q.2 as int),
                    s@.subrange(q.3 as int, hi as int),
                ),
            )
        },
        r is None ==> block_lines(s@.subrange(lo as int, hi as int)) is None,
{
    let ghost b = s@.subrange(lo as int, hi as int);
    let i = match find_char(s, lo, hi, lo, '\n') {
        Some(i) => i,
        None => return None,
    };
    assert(b.subrange(0, i - lo) =~= s@.subrange(lo as int, i as int));
    match find_char(s, lo, hi, i + 1, '\n') {
        Some(j) => {
            assert(b.subrange(i + 1 - lo, j - lo) =~= s@.subrange(i + 1, j as int));
            assert(b.subrange(j + 1 - lo, b.len() as int) =~= s@.subrange(j + 1, hi as int));
            Some((i, i + 1, j, j + 1))
        },
        None => {
            assert(b.subrange(i + 1 - lo, b.len() as int) =~= s@.subrange(i + 1, hi as int));
            assert(s@.subrange(hi as int, hi as int) =~= Seq::<char>::empty());
            Some((i, i + 1, hi, hi))
        },
    }
}

/// The error that reading a trimmed block answers: that of its second line,
/// where it has two lines.
pub open spec fn block_error(b: Seq<char>) -> Option<Seq<char>> {
    match block_lines(b) {
        None => None,
        Some(ls) => time_line_error(ls.1),
    }
}

/// The cue of the block `s[lo..hi]`.
fn parse_block(s: &[char], lo: usize, hi: usize) -> (res: Result<Option<SrtCue>, String>)
    requires
        lo <= hi <= s@.len(),
    ensures
        match res {
            Ok(o) => block_error(s@.subrange(lo as int, hi as int)) is None && opt_cue_model(o)
                == block_cue(s@.subrange(lo as int, hi as int)),
            Err(e) => block_error(s@.subrange(lo as int, hi as int)) == Some(e@),
        },
{
    reveal(block_cue);
    let q = match block_line_bounds(s, lo, hi) {
        Some(q) => q,
        None => return Ok(None),
    };
    let (start_ms, end_ms) = match read_time_line(s, q.1, q.2) {
        Ok(Some(times)) => times,
        Ok(None) => return Ok(None),
        Err(e) => return Err(e),
    };
    if end_ms <= start_ms {
        return Ok(None);
    }
    let (a, z) = crate::text::trim_bounds(s, lo, q.0);
    let index: usize = match parse_usize_chars(s, a, z) {
        Some(v) => v,
        None => 0,
    };
    let text = string_from_chars(&s[q.3..hi]);
    Ok(Some(SrtCue { index, start_ms, end_ms, text }))
}

// ---------------------------------------------------------------------------
// A whole file

/// The cues of a list of blocks, each read after trimming it, in order.
pub open spec fn cues_of_blocks(bs: Seq<Seq<char>>) -> Seq<CueModel>
    decreases bs.len(),
{
    if bs.len() == 0 {
        seq![]
    } else {
        let prev = cues_of_blocks(bs.drop_last());
        match block_cue(trim(bs.last())) {
            Some(c) => prev.push(c),
            None => prev,
        }
    }
}

/// The first error among the blocks, each read after trimming it, in order.
pub open spec fn blocks_error(bs: Seq<Seq<char>>) -> Option<Seq<char>>
    decreases bs.len(),
{
    if bs.len() == 0 {
        None
    } else {
        match blocks_error(bs.drop_last()) {
            Some(e) => Some(e),
            None => block_error(trim(bs.last())),
        }
    }
}

/// An error among the first `k` blocks is the first error of all of them.
proof fn lemma_blocks_error_prefix(bs: Seq<Seq<char>>, k: int)
    requires
        0 <= k <= bs.len(),
        blocks_error(bs.take(k)) is Some,
    ensures
        blocks_error(bs) == blocks_error(bs.take(k)),
    decreases bs.len(),
{
    if k == bs.len() {
        assert(bs.take(k) =~= bs);
    } else {
        assert(bs.drop_last().take(k) =~= bs.take(k));
        lemma_blocks_error_prefix(bs.drop_last(), k);
    }
}

/// The blocks of the text of an `.srt` file: the byte-order marks at its start
/// dropped, line ends unified, cut at blank lines.
pub open spec fn srt_blocks(raw: Seq<char>) -> Seq<Seq<char>> {
    split_blank(srt_normalized(raw))
}

/// The cues of the text of an `.srt` file, each block trimmed and read.
pub open spec fn srt_cues(raw: Seq<char>) -> Seq<CueModel> {
    cues_of_blocks(srt_blocks(raw))
}

pub open spec fn no_cues_message() -> Seq<char> {
    "Nenhuma legenda válida encontrada no SRT."@
}

/// What reading the text of an `.srt` file answers: the first error of its
/// blocks, else its cues, or an error where it holds none.
pub open spec fn srt_read(raw: Seq<char>) -> Result<Seq<CueModel>, Seq<char>> {
    match blocks_error(srt_blocks(raw)) {
        Some(e) => Err(e),
        None => if srt_cues(raw).len() == 0 {
            Err(no_cues_message())
        } else {
            Ok(srt_cues(raw))
        },
    }
}

/// Reads the cues of the text of an `.srt` file (see `srt_read`).
pub fn parse_srt(raw: &str) -> (res: Result<Vec<SrtCue>, String>)
    ensures
        match res {
            Ok(cues) => srt_read(raw@) == Ok::<Seq<CueModel>, Seq<char>>(cues_model(cues@)),
            Err(e) => srt_read(raw@) == Err::<Seq<CueModel>, Seq<char>>(e@),
        },
{
    let chars = chars_of(raw);
    let text = normalize(chars.as_slice());
    let ranges = split_blank_ranges(text.as_slice());
    let ghost blocks = split_blank(text@);
    let mut cues: Vec<SrtCue> = Vec::new();
    let mut k: usize = 0;
    while k < ranges.len()
        invariant
            k <= ranges@.len(),
            text@ == srt_normalized(raw@),
            blocks == split_blank(text@),
            range_texts(text@, ranges@) == blocks,
            forall|m: int| 0 <= m < ranges@.len() ==> (#[trigger] ranges@[m]).0 <= ranges@[m].1
                <= text@.len(),
            blocks_error(blocks.take(k as int)) is None,
            cues_model(cues@) == cues_of_blocks(blocks.take(k as int)),
        decreases ranges@.len() - k,
    {
        let (lo, hi) = ranges[k];
        assert(blocks[k as int] == text@.subrange(lo as int, hi as int));
        let (a, z) = crate::text::trim_bounds(text.as_slice(), lo, hi);
        assert(blocks.take(k + 1).drop_last() =~= blocks.take(k as int));
        let ghost before = cues@;
        match parse_block(text.as_slice(), a, z) {
            Ok(Some(c)) => {
                cues.push(c);
                assert(cues_model(cues@) =~= cues_model(before).push(cues@.last()@));
            },
            Ok(None) => {},
            Err(e) => {
                proof {
                    lemma_blocks_error_prefix(blocks, k + 1);
                }
                return Err(e);
            },
        }
        k = k + 1;
    }
    assert(blocks.take(ranges@.len() as int) =~= blocks);
    if cues.len() == 0 {
        return Err(String::from_str("Nenhuma legenda válida encontrada no SRT."));
    }
    Ok(cues)
}

} // verus!
