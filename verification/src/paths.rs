use vstd::prelude::*;

use vstd::utf8::is_ascii_chars;

use crate::text::{chars_of, push_str_chars, string_from_chars};

verus! {

// Paths are read the way Windows reads them (the platform the tool is made
// for). A path may start with a prefix that belongs to no component: a drive
// `X:`, a network share `\\server\share`, a device `\\.\NAME`, or a verbatim
// prefix `\\?\...` (`\\?\UNC\server\share`, `\\?\X:` or `\\?\NAME`). In the
// prefix markers, and everywhere outside verbatim paths, `/` and `\` both
// separate components; in a verbatim path only `\` does, and a `.` component
// is kept as a component of its own.

pub open spec fn is_separator(c: char) -> bool {
    c == '/' || c == '\\'
}

/// A separator of a path that is verbatim or not.
pub open spec fn separates(c: char, verbatim: bool) -> bool {
    if verbatim {
        c == '\\'
    } else {
        is_separator(c)
    }
}

pub open spec fn is_ascii_alpha(c: char) -> bool {
    ('a' <= c <= 'z') || ('A' <= c <= 'Z')
}

/// The path starts with the verbatim marker `\\?\`, written with `\` only.
pub open spec fn is_verbatim(p: Seq<char>) -> bool {
    p.len() >= 4 && p[0] == '\\' && p[1] == '\\' && p[2] == '?' && p[3] == '\\'
}

/// The first position at or after `i` that holds a separator, or the end.
pub open spec fn next_separator(p: Seq<char>, i: int, verbatim: bool) -> int
    decreases p.len() - i,
{
    if i < 0 || i >= p.len() {
        p.len() as int
    } else if separates(p[i], verbatim) {
        i
    } else {
        next_separator(p, i + 1, verbatim)
    }
}

/// The length of the prefix of `p` (`Prefix::len` of the prefix that Windows
/// parses): for `\\?\UNC\server\share` up to the end of the share (of the
/// server where the share is empty), `6` for `\\?\X:` followed by `\` or by
/// nothing, for another verbatim path up to the first `\` after the marker,
/// for `\\.\NAME` up to the end of the name, for `\\server\share` (both
/// non-empty) up to the end of the share, `2` for a drive `X:`, else `0`.
pub open spec fn prefix_len(p: Seq<char>) -> int {
    let n = p.len() as int;
    if n >= 2 && is_separator(p[0]) && is_separator(p[1]) {
        if is_verbatim(p) {
            if n >= 8 && p[4] == 'U' && p[5] == 'N' && p[6] == 'C' && is_separator(p[7]) {
                let server_end = next_separator(p, 8, true);
                let share_end = if server_end < n {
                    next_separator(p, server_end + 1, true)
                } else {
                    server_end
                };
                if share_end > server_end + 1 {
                    share_end
                } else {
                    server_end
                }
            } else if n >= 6 && is_ascii_alpha(p[4]) && p[5] == ':' && (n == 6 || p[6] == '\\') {
                6
            } else {
                next_separator(p, 4, true)
            }
        } else if n >= 4 && p[2] == '.' && is_separator(p[3]) {
            next_separator(p, 4, false)
        } else {
            let server_end = next_separator(p, 2, false);
            let share_end = if server_end < n {
                next_separator(p, server_end + 1, false)
            } else {
                n
            };
            if server_end > 2 && share_end > server_end + 1 {
                share_end
            } else {
                0
            }
        }
    } else if n >= 2 && is_ascii_alpha(p[0]) && p[1] == ':' {
        2
    } else {
        0
    }
}

/// Where the last segment of `p[lo..hi]` starts: just after its last separator,
/// or at `lo`.
pub open spec fn segment_start(p: Seq<char>, lo: int, hi: int, verbatim: bool) -> int
    decreases hi - lo,
{
    if hi <= lo {
        lo
    } else if separates(p[hi - 1], verbatim) {
        hi
    } else {
        segment_start(p, lo, hi - 1, verbatim)
    }
}

/// `p[lo..hi]` ends with the component `.`.
pub open spec fn ends_with_cur_dir(p: Seq<char>, lo: int, hi: int) -> bool {
    hi - 1 >= lo && p[hi - 1] == '.' && (hi - 1 == lo || is_separator(p[hi - 2]))
}

/// `p[lo..hi]` ends with the component `..`.
pub open spec fn ends_with_parent_dir(p: Seq<char>, lo: int, hi: int) -> bool {
    hi - 2 >= lo && p[hi - 1] == '.' && p[hi - 2] == '.' && (hi - 2 == lo || is_separator(
        p[hi - 3],
    ))
}

/// The bounds of the file name of `p[lo..hi]`, a path that is not verbatim:
/// its last component, where trailing separators and `.` components do not
/// count and `..` has none.
pub open spec fn last_component(p: Seq<char>, lo: int, hi: int) -> Option<(int, int)>
    decreases hi - lo,
{
    if hi <= lo {
        None
    } else if is_separator(p[hi - 1]) {
        last_component(p, lo, hi - 1)
    } else if ends_with_cur_dir(p, lo, hi) {
        if hi - 1 == lo {
            None
        } else {
            last_component(p, lo, hi - 1)
        }
    } else if ends_with_parent_dir(p, lo, hi) {
        None
    } else {
        Some((segment_start(p, lo, hi, false), hi))
    }
}

/// The bounds of the file name of `p[lo..hi]`, a verbatim path: its last
/// non-empty component between `\`, where `.` and `..` have none.
pub open spec fn last_verbatim_component(p: Seq<char>, lo: int, hi: int) -> Option<(int, int)>
    decreases hi - lo,
{
    if hi <= lo {
        None
    } else if p[hi - 1] == '\\' {
        last_verbatim_component(p, lo, hi - 1)
    } else {
        let k = segment_start(p, lo, hi, true);
        if (hi - k == 1 && p[k] == '.') || (hi - k == 2 && p[k] == '.' && p[k + 1] == '.') {
            None
        } else {
            Some((k, hi))
        }
    }
}

/// The bounds of the file name of the path `p` (`Path::file_name`).
pub open spec fn file_name_bounds(p: Seq<char>) -> Option<(int, int)> {
    if is_verbatim(p) {
        last_verbatim_component(p, prefix_len(p), p.len() as int)
    } else {
        last_component(p, prefix_len(p), p.len() as int)
    }
}

/// The last `.` in `p[lo..hi]`.
pub open spec fn last_dot(p: Seq<char>, lo: int, hi: int) -> Option<int>
    decreases hi - lo,
{
    if hi <= lo {
        None
    } else if p[hi - 1] == '.' {
        Some(hi - 1)
    } else {
        last_dot(p, lo, hi - 1)
    }
}

/// Where the stem of the file name `p[k..h]` ends: at its last `.`, unless
/// that `.` is its first character or there is none.
pub open spec fn stem_end(p: Seq<char>, k: int, h: int) -> int {
    match last_dot(p, k, h) {
        Some(d) => if d == k {
            h
        } else {
            d
        },
        None => h,
    }
}

/// `Path::file_stem`.
pub open spec fn file_stem(p: Seq<char>) -> Option<Seq<char>> {
    match file_name_bounds(p) {
        Some(b) => Some(p.subrange(b.0, stem_end(p, b.0, b.1))),
        None => None,
    }
}

/// `Path::extension`.
pub open spec fn extension(p: Seq<char>) -> Option<Seq<char>> {
    match file_name_bounds(p) {
        Some(b) => match last_dot(p, b.0, b.1) {
            Some(d) => if d == b.0 {
                None
            } else {
                Some(p.subrange(d + 1, b.1))
            },
            None => None,
        },
        None => None,
    }
}

proof fn lemma_next_separator_bounds(p: Seq<char>, i: int, verbatim: bool)
    requires
        0 <= i,
    ensures
        next_separator(p, i, verbatim) <= p.len(),
        i <= p.len() ==> i <= next_separator(p, i, verbatim),
    decreases p.len() - i,
{
    if i < p.len() && !separates(p[i], verbatim) {
        lemma_next_separator_bounds(p, i + 1, verbatim);
    }
}

proof fn lemma_prefix_len_bounds(p: Seq<char>)
    ensures
        0 <= prefix_len(p) <= p.len(),
{
    lemma_next_separator_bounds(p, 2, false);
    lemma_next_separator_bounds(p, 4, false);
    lemma_next_separator_bounds(p, 4, true);
    lemma_next_separator_bounds(p, 8, true);
    let a = next_separator(p, 8, true);
    lemma_next_separator_bounds(p, a + 1, true);
    let b = next_separator(p, 2, false);
    lemma_next_separator_bounds(p, b + 1, false);
}

proof fn lemma_segment_start_bounds(p: Seq<char>, lo: int, hi: int, verbatim: bool)
    requires
        lo <= hi,
    ensures
        lo <= segment_start(p, lo, hi, verbatim) <= hi,
    decreases hi - lo,
{
    if hi > lo && !separates(p[hi - 1], verbatim) {
        lemma_segment_start_bounds(p, lo, hi - 1, verbatim);
    }
}

proof fn lemma_last_component_bounds(p: Seq<char>, lo: int, hi: int)
    requires
        lo <= hi,
    ensures
        last_component(p, lo, hi) matches Some(b) ==> lo <= b.0 <= b.1 <= hi,
        last_verbatim_component(p, lo, hi) matches Some(b) ==> lo <= b.0 <= b.1 <= hi,
    decreases hi - lo,
{
    if hi > lo {
        lemma_segment_start_bounds(p, lo, hi, false);
        lemma_segment_start_bounds(p, lo, hi, true);
        lemma_last_component_bounds(p, lo, hi - 1);
    }
}

/// The file name of a path lies within it.
pub proof fn lemma_file_name_bounds(p: Seq<char>)
    ensures
        file_name_bounds(p) matches Some(b) ==> 0 <= b.0 <= b.1 <= p.len(),
{
    lemma_prefix_len_bounds(p);
    lemma_last_component_bounds(p, prefix_len(p), p.len() as int);
}

/// The last `.` of `p[lo..hi]` lies there, and none follows it.
pub proof fn lemma_last_dot_bounds(p: Seq<char>, lo: int, hi: int)
    requires
        lo <= hi,
    ensures
        last_dot(p, lo, hi) matches Some(d) ==> lo <= d < hi && p[d] == '.' && forall|k: int|
            d < k < hi ==> #[trigger] p[k] != '.',
        last_dot(p, lo, hi) is None ==> forall|k: int| lo <= k < hi ==> #[trigger] p[k] != '.',
    decreases hi - lo,
{
    if hi > lo && p[hi - 1] != '.' {
        lemma_last_dot_bounds(p, lo, hi - 1);
    }
}

fn is_sep(c: char) -> (r: bool)
    ensures
        r == is_separator(c),
{
    c == '/' || c == '\\'
}

fn separates_exec(c: char, verbatim: bool) -> (r: bool)
    ensures
        r == separates(c, verbatim),
{
    if verbatim {
        c == '\\'
    } else {
        is_sep(c)
    }
}

fn is_verbatim_exec(p: &[char]) -> (r: bool)
    ensures
        r == is_verbatim(p@),
{
    p.len() >= 4 && p[0] == '\\' && p[1] == '\\' && p[2] == '?' && p[3] == '\\'
}

fn is_ascii_alpha_exec(c: char) -> (r: bool)
    ensures
        r == is_ascii_alpha(c),
{
    ('a' <= c && c <= 'z') || ('A' <= c && c <= 'Z')
}

fn next_separator_exec(p: &[char], i: usize, verbatim: bool) -> (r: usize)
    requires
        i <= p@.len(),
    ensures
        r == next_separator(p@, i as int, verbatim),
        i <= r <= p@.len(),
{
    let mut j = i;
    while j < p.len() && !separates_exec(p[j], verbatim)
        invariant
            i <= j <= p@.len(),
            next_separator(p@, i as int, verbatim) == next_separator(p@, j as int, verbatim),
        decreases p@.len() - j,
    {
        j = j + 1;
    }
    j
}

fn prefix_len_exec(p: &[char]) -> (r: usize)
    ensures
        r == prefix_len(p@),
        r <= p@.len(),
{
    let n = p.len();
    if n >= 2 && is_sep(p[0]) && is_sep(p[1]) {
        if is_verbatim_exec(p) {
            if n >= 8 && p[4] == 'U' && p[5] == 'N' && p[6] == 'C' && is_sep(p[7]) {
                let server_end = next_separator_exec(p, 8, true);
                let share_end = if server_end < n {
                    next_separator_exec(p, server_end + 1, true)
                } else {
                    server_end
                };
                if share_end > server_end && share_end - server_end > 1 {
                    share_end
                } else {
                    server_end
                }
            } else if n >= 6 && is_ascii_alpha_exec(p[4]) && p[5] == ':' && (n == 6 || p[6] == '\\') {
                6
            } else {
                next_separator_exec(p, 4, true)
            }
        } else if n >= 4 && p[2] == '.' && is_sep(p[3]) {
            next_separator_exec(p, 4, false)
        } else {
            let server_end = next_separator_exec(p, 2, false);
            let share_end = if server_end < n {
                next_separator_exec(p, server_end + 1, false)
            } else {
                n
            };
            if server_end > 2 && share_end > server_end && share_end - server_end > 1 {
                share_end
            } else {
                0
            }
        }
    } else if n >= 2 && is_ascii_alpha_exec(p[0]) && p[1] == ':' {
        2
    } else {
        0
    }
}

fn segment_start_exec(p: &[char], lo: usize, hi: usize, verbatim: bool) -> (r: usize)
    requires
        lo <= hi <= p@.len(),
    ensures
        r == segment_start(p@, lo as int, hi as int, verbatim),
        lo <= r <= hi,
{
    let mut j = hi;
    while j > lo && !separates_exec(p[j - 1], verbatim)
        invariant
            lo <= j <= hi <= p@.len(),
            segment_start(p@, lo as int, hi as int, verbatim) == segment_start(
                p@,
                lo as int,
                j as int,
                verbatim,
            ),
        decreases j - lo,
    {
        j = j - 1;
    }
    j
}

/// The bounds of the file name of `p[lo..]`, a path that is not verbatim.
fn last_component_exec(p: &[char], lo: usize) -> (r: Option<(usize, usize)>)
    requires
        lo <= p@.len(),
    ensures
        r matches Some(b) ==> b.0 <= b.1 <= p@.len() && last_component(p@, lo as int, p@.len() as int)
            == Some((b.0 as int, b.1 as int)),
        r is None ==> last_component(p@, lo as int, p@.len() as int) is None,
{
    let mut hi = p.len();
    while hi > lo
        invariant
            lo <= hi <= p@.len(),
            last_component(p@, lo as int, p@.len() as int) == last_component(p@, lo as int, hi as int),
        decreases hi - lo,
    {
        if is_sep(p[hi - 1]) {
            hi = hi - 1;
        } else if p[hi - 1] == '.' && (hi - 1 == lo || is_sep(p[hi - 2])) {
            if hi - 1 == lo {
                return None;
            }
            hi = hi - 1;
        } else if hi >= 2 && hi - 2 >= lo && p[hi - 1] == '.' && p[hi - 2] == '.' && (hi - 2
            == lo || is_sep(p[hi - 3])) {
            return None;
        } else {
            let k = segment_start_exec(p, lo, hi, false);
            return Some((k, hi));
        }
    }
    None
}

/// The bounds of the file name of `p[lo..]`, a verbatim path.
fn last_verbatim_component_exec(p: &[char], lo: usize) -> (r: Option<(usize, usize)>)
    requires
        lo <= p@.len(),
    ensures
        r matches Some(b) ==> b.0 <= b.1 <= p@.len() && last_verbatim_component(
            p@,
            lo as int,
            p@.len() as int,
        ) == Some((b.0 as int, b.1 as int)),
        r is None ==> last_verbatim_component(p@, lo as int, p@.len() as int) is None,
{
    let mut hi = p.len();
    while hi > lo && p[hi - 1] == '\\'
        invariant
            lo <= hi <= p@.len(),
            last_verbatim_component(p@, lo as int, p@.len() as int) == last_verbatim_component(
                p@,
                lo as int,
                hi as int,
            ),
        decreases hi - lo,
    {
        hi = hi - 1;
    }
    if hi <= lo {
        return None;
    }
    let k = segment_start_exec(p, lo, hi, true);
    if (hi - k == 1 && p[k] == '.') || (hi - k == 2 && p[k] == '.' && p[k + 1] == '.') {
        None
    } else {
        Some((k, hi))
    }
}

/// The bounds of the file name of `p`.
fn file_name_bounds_exec(p: &[char]) -> (r: Option<(usize, usize)>)
    ensures
        r matches Some(b) ==> b.0 <= b.1 <= p@.len() && file_name_bounds(p@) == Some(
            (b.0 as int, b.1 as int),
        ),
        r is None ==> file_name_bounds(p@) is None,
{
    let lo = prefix_len_exec(p);
    if is_verbatim_exec(p) {
        last_verbatim_component_exec(p, lo)
    } else {
        last_component_exec(p, lo)
    }
}

fn last_dot_exec(p: &[char], lo: usize, hi: usize) -> (r: Option<usize>)
    requires
        lo <= hi <= p@.len(),
    ensures
        r matches Some(d) ==> lo <= d < hi && last_dot(p@, lo as int, hi as int) == Some(d as int),
        r is None ==> last_dot(p@, lo as int, hi as int) is None,
{
    let mut j = hi;
    while j > lo
        invariant
            lo <= j <= hi <= p@.len(),
            last_dot(p@, lo as int, hi as int) == last_dot(p@, lo as int, j as int),
        decreases j - lo,
    {
        if p[j - 1] == '.' {
            return Some(j - 1);
        }
        j = j - 1;
    }
    None
}

/// The bounds of the file stem of `p`.
fn file_stem_bounds(p: &[char]) -> (r: Option<(usize, usize)>)
    ensures
        r matches Some(b) ==> b.0 <= b.1 <= p@.len() && file_stem(p@) == Some(
            p@.subrange(b.0 as int, b.1 as int),
        ),
        r is None ==> file_stem(p@) is None,
{
    match file_name_bounds_exec(p) {
        None => None,
        Some((k, h)) => {
            let end = match last_dot_exec(p, k, h) {
                Some(d) => if d == k {
                    h
                } else {
                    d
                },
                None => h,
            };
            Some((k, end))
        },
    }
}

/// The bounds of the extension of `p`.
fn extension_bounds(p: &[char]) -> (r: Option<(usize, usize)>)
    ensures
        r matches Some(b) ==> b.0 <= b.1 <= p@.len() && extension(p@) == Some(
            p@.subrange(b.0 as int, b.1 as int),
        ),
        r is None ==> extension(p@) is None,
{
    match file_name_bounds_exec(p) {
        None => None,
        Some((k, h)) => match last_dot_exec(p, k, h) {
            Some(d) => if d == k {
                None
            } else {
                Some((d + 1, h))
            },
            None => None,
        },
    }
}

// ---------------------------------------------------------------------------
// Names compared without regard to ASCII case

pub open spec fn ascii_lower(c: char) -> char {
    if 'A' <= c <= 'Z' {
        ((c as u32) + 32) as char
    } else {
        c
    }
}

/// `str::eq_ignore_ascii_case`.
pub open spec fn eq_ignore_ascii_case(a: Seq<char>, b: Seq<char>) -> bool {
    a.len() == b.len() && forall|i: int| 0 <= i < a.len() ==> ascii_lower(#[trigger] a[i]) == ascii_lower(b[i])
}

fn ascii_lower_exec(c: char) -> (r: char)
    ensures
        r == ascii_lower(c),
{
    if 'A' <= c && c <= 'Z' {
        let u = (c as u32) + 32;
        let b = u as u8;
        b as char
    } else {
        c
    }
}

fn eq_ignore_ascii_case_ranges(a: &[char], al: usize, ah: usize, b: &[char], bl: usize, bh: usize) -> (r: bool)
    requires
        al <= ah <= a@.len(),
        bl <= bh <= b@.len(),
    ensures
        r == eq_ignore_ascii_case(a@.subrange(al as int, ah as int), b@.subrange(bl as int, bh as int)),
{
    let ghost x = a@.subrange(al as int, ah as int);
    let ghost y = b@.subrange(bl as int, bh as int);
    if ah - al != bh - bl {
        return false;
    }
    let n = ah - al;
    let mut i: usize = 0;
    while i < n
        invariant
            n == ah - al == bh - bl,
            al <= ah <= a@.len(),
            bl <= bh <= b@.len(),
            x == a@.subrange(al as int, ah as int),
            y == b@.subrange(bl as int, bh as int),
            i <= n,
            forall|k: int| 0 <= k < i ==> ascii_lower(#[trigger] x[k]) == ascii_lower(y[k]),
        decreases n - i,
    {
        if ascii_lower_exec(a[al + i]) != ascii_lower_exec(b[bl + i]) {
            assert(x[i as int] == a@[al + i]);
            assert(y[i as int] == b@[bl + i]);
            return false;
        }
        i = i + 1;
    }
    true
}

/// The extension of `p`, compared without regard to ASCII case, is `ext`.
pub open spec fn has_extension(p: Seq<char>, ext: Seq<char>) -> bool {
    match extension(p) {
        Some(e) => eq_ignore_ascii_case(e, ext),
        None => false,
    }
}

fn has_extension_exec(p: &[char], ext: &str) -> (r: bool)
    ensures
        r == has_extension(p@, ext@),
{
    let e = chars_of(ext);
    match extension_bounds(p) {
        Some((a, b)) => {
            assert(e@.subrange(0, e@.len() as int) =~= ext@);
            eq_ignore_ascii_case_ranges(p, a, b, e.as_slice(), 0, e.len())
        },
        None => false,
    }
}

/// The stems of both paths exist and agree without regard to ASCII case.
pub open spec fn stems_match(video: Seq<char>, srt: Seq<char>) -> bool {
    match (file_stem(video), file_stem(srt)) {
        (Some(a), Some(b)) => eq_ignore_ascii_case(a, b),
        _ => false,
    }
}

/// Whether the subtitle file has the same name as the video, extensions aside
/// and ASCII case ignored.
pub fn subtitle_stem_matches_video(video: &str, srt: &str) -> (r: bool)
    ensures
        r == stems_match(video@, srt@),
{
    let v = chars_of(video);
    let s = chars_of(srt);
    match (file_stem_bounds(v.as_slice()), file_stem_bounds(s.as_slice())) {
        (Some((a, b)), Some((c, d))) => eq_ignore_ascii_case_ranges(v.as_slice(), a, b, s.as_slice(), c, d),
        _ => false,
    }
}

/// The file has the extension `mp4` or `m4v` (any ASCII case).
pub open spec fn mp4_like(p: Seq<char>) -> bool {
    has_extension(p, "mp4"@) || has_extension(p, "m4v"@)
}

/// Whether the file is an MP4 video by its extension (`.mp4` or `.m4v`, any
/// ASCII case).
pub fn is_mp4_like(path: &str) -> (r: bool)
    ensures
        r == mp4_like(path@),
{
    let p = chars_of(path);
    has_extension_exec(p.as_slice(), "mp4") || has_extension_exec(p.as_slice(), "m4v")
}

/// Whether the file has the extension `srt` (any ASCII case).
pub fn has_srt_extension(path: &str) -> (r: bool)
    ensures
        r == has_extension(path@, "srt"@),
{
    let p = chars_of(path);
    has_extension_exec(p.as_slice(), "srt")
}

/// The stem of `p`, or `fallback` where it has none.
pub open spec fn stem_or(p: Seq<char>, fallback: Seq<char>) -> Seq<char> {
    match file_stem(p) {
        Some(s) => s,
        None => fallback,
    }
}

fn push_stem_or(out: &mut Vec<char>, p: &[char], fallback: &str)
    ensures
        final(out)@ == old(out)@ + stem_or(p@, fallback@),
{
    match file_stem_bounds(p) {
        Some((a, b)) => {
            let ghost start = out@;
            let mut k = a;
            while k < b
                invariant
                    a <= k <= b <= p@.len(),
                    out@ == start + p@.subrange(a as int, k as int),
                decreases b - k,
            {
                out.push(p[k]);
                assert(out@ =~= start + p@.subrange(a as int, k + 1));
                k = k + 1;
            }
        },
        None => push_str_chars(out, fallback),
    }
}

/// The name that the parts of a video are given: its stem, or `video` where
/// it has none.
pub fn video_stem(path: &str) -> (res: String)
    ensures
        res@ == stem_or(path@, "video"@),
{
    let p = chars_of(path);
    let mut out: Vec<char> = Vec::new();
    push_stem_or(&mut out, p.as_slice(), "video");
    assert(out@ =~= stem_or(path@, "video"@));
    string_from_chars(out.as_slice())
}

/// `PathBuf::with_extension("srt")`: the path cut after the stem of its file
/// name, then `.srt`; unchanged where it has no file name.
pub open spec fn with_srt_extension(p: Seq<char>) -> Seq<char> {
    match file_name_bounds(p) {
        Some(b) => p.take(stem_end(p, b.0, b.1)) + ".srt"@,
        None => p,
    }
}

/// The path of the subtitle file that goes with a video part.
pub fn srt_path_for(path: &str) -> (res: String)
    ensures
        res@ == with_srt_extension(path@),
{
    let p = chars_of(path);
    match file_name_bounds_exec(p.as_slice()) {
        None => {
            return string_from_chars(p.as_slice());
        },
        Some((k, h)) => {
            let end = match last_dot_exec(p.as_slice(), k, h) {
                Some(d) => if d == k {
                    h
                } else {
                    d
                },
                None => h,
            };
            let mut out: Vec<char> = Vec::new();
            let mut i: usize = 0;
            while i < end
                invariant
                    end <= p@.len(),
                    i <= end,
                    out@ == p@.take(i as int),
                decreases end - i,
            {
                out.push(p[i]);
                assert(out@ =~= p@.take(i + 1));
                i = i + 1;
            }
            push_str_chars(&mut out, ".srt");
            string_from_chars(out.as_slice())
        },
    }
}

pub open spec fn srt_extension_message() -> Seq<char> {
    "O arquivo de legendas deve ter extensão .srt."@
}

pub open spec fn name_mismatch_message(video: Seq<char>, srt: Seq<char>) -> Seq<char> {
    "O nome do arquivo de legendas (sem .srt) deve ser o mesmo do vídeo (sem extensão). Vídeo: «"@
        + stem_or(video, "?"@) + "», legendas: «"@ + stem_or(srt, "?"@) + "»."@
}

/// What naming a subtitle file for a video is answered: it must have the
/// extension `srt` and the video's stem.
pub open spec fn subtitle_name_check(video: Seq<char>, srt: Seq<char>) -> Result<(), Seq<char>> {
    if !has_extension(srt, "srt"@) {
        Err(srt_extension_message())
    } else if !stems_match(video, srt) {
        Err(name_mismatch_message(video, srt))
    } else {
        Ok(())
    }
}

/// Checks the name of the subtitle file chosen for a video.
pub fn check_subtitle_name(video: &str, srt: &str) -> (res: Result<(), String>)
    ensures
        match res {
            Ok(()) => subtitle_name_check(video@, srt@) == Ok::<(), Seq<char>>(()),
            Err(e) => subtitle_name_check(video@, srt@) == Err::<(), Seq<char>>(e@),
        },
{
    if !has_srt_extension(srt) {
        return Err(String::from_str("O arquivo de legendas deve ter extensão .srt."));
    }
    if !subtitle_stem_matches_video(video, srt) {
        let v = chars_of(video);
        let s = chars_of(srt);
        let mut out: Vec<char> = Vec::new();
        push_str_chars(
            &mut out,
            "O nome do arquivo de legendas (sem .srt) deve ser o mesmo do vídeo (sem extensão). Vídeo: «",
        );
        push_stem_or(&mut out, v.as_slice(), "?");
        push_str_chars(&mut out, "», legendas: «");
        push_stem_or(&mut out, s.as_slice(), "?");
        push_str_chars(&mut out, "».");
        assert(out@ =~= name_mismatch_message(video@, srt@));
        return Err(string_from_chars(out.as_slice()));
    }
    Ok(())
}

/// The text that `str::to_lowercase` gives (the Unicode `Lowercase` mapping).
pub uninterp spec fn unicode_lowercase(s: Seq<char>) -> Seq<char>;

/// Calls `str::to_lowercase`. The result is named; of ASCII text the contract
/// states that it is the ASCII lower case of each character, which is how the
/// Unicode mapping treats the ASCII range.
#[verifier::external_body]
fn to_lowercase(s: &str) -> (res: String)
    ensures
        res@ == unicode_lowercase(s@),
        is_ascii_chars(s@) ==> res@ == s@.map_values(|c: char| ascii_lower(c)),
{
    s.to_lowercase()
}

/// The extension by which a video's container is chosen: its own, or `mkv`
/// where it has none, in lower case.
pub open spec fn video_extension_spec(p: Seq<char>) -> Seq<char> {
    unicode_lowercase(
        match extension(p) {
            Some(e) => e,
            None => "mkv"@,
        },
    )
}

pub fn video_extension(path: &str) -> (res: String)
    ensures
        res@ == video_extension_spec(path@),
        is_ascii_chars(path@) ==> res@ == (match extension(path@) {
            Some(e) => e,
            None => "mkv"@,
        }).map_values(|c: char| ascii_lower(c)),
{
    let p = chars_of(path);
    let e = match extension_bounds(p.as_slice()) {
        Some((a, b)) => {
            let e = string_from_chars(&p.as_slice()[a..b]);
            assert(is_ascii_chars(path@) ==> is_ascii_chars(e@)) by {
                if is_ascii_chars(path@) {
                    assert forall|i: int| 0 <= i < e@.len() implies '\0' <= #[trigger] e@[i] <= '\u{7f}' by {
                        assert(e@[i] == path@[a + i]);
                    }
                }
            }
            e
        },
        None => {
            let e = String::from_str("mkv");
            proof {
                reveal_strlit("mkv");
            }
            e
        },
    };
    to_lowercase(e.as_str())
}

} // verus!
