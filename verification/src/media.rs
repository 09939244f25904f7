use vstd::prelude::*;

use vstd::relations::sorted_by;

use crate::order::{chars_leq, insert_sorted, names_view};
use crate::paths::stem_or;
use crate::text::{chars_of, is_decimal_digit, is_decimal_digit_exec, push_str_chars, string_from_chars, trim, trim_bounds};

verus! {

fn chars_eq_str(a: &[char], b: &str) -> (r: bool)
    ensures
        r == (a@ == b@),
{
    let bc = chars_of(b);
    if a.len() != bc.len() {
        return false;
    }
    let mut i: usize = 0;
    while i < a.len()
        invariant
            a@.len() == bc@.len(),
            bc@ == b@,
            i <= a@.len(),
            forall|k: int| 0 <= k < i ==> a@[k] == bc@[k],
        decreases a.len() - i,
    {
        if a[i] != bc[i] {
            return false;
        }
        i = i + 1;
    }
    assert(a@ =~= bc@);
    true
}

// ---------------------------------------------------------------------------
// Container formats

/// The container format that FFmpeg is asked to write segments in, by the
/// (lower-case) extension of the input.
pub open spec fn segment_format(ext: Seq<char>) -> Seq<char> {
    if ext == "mkv"@ || ext == "mka"@ || ext == "mks"@ {
        "matroska"@
    } else if ext == "mp4"@ || ext == "m4v"@ {
        "mp4"@
    } else if ext == "mov"@ {
        "mov"@
    } else if ext == "webm"@ {
        "webm"@
    } else if ext == "avi"@ {
        "avi"@
    } else if ext == "ts"@ || ext == "mts"@ || ext == "m2ts"@ {
        "mpegts"@
    } else {
        "matroska"@
    }
}

/// The segment format for a file extension (Matroska where it is unknown).
pub fn segment_format_for_ext(ext: &str) -> (res: &'static str)
    ensures
        res@ == segment_format(ext@),
{
    let e = chars_of(ext);
    let e = e.as_slice();
    if chars_eq_str(e, "mkv") || chars_eq_str(e, "mka") || chars_eq_str(e, "mks") {
        "matroska"
    } else if chars_eq_str(e, "mp4") || chars_eq_str(e, "m4v") {
        "mp4"
    } else if chars_eq_str(e, "mov") {
        "mov"
    } else if chars_eq_str(e, "webm") {
        "webm"
    } else if chars_eq_str(e, "avi") {
        "avi"
    } else if chars_eq_str(e, "ts") || chars_eq_str(e, "mts") || chars_eq_str(e, "m2ts") {
        "mpegts"
    } else {
        "matroska"
    }
}

// ---------------------------------------------------------------------------
// Output names and FFmpeg command lines

pub open spec fn strings_view(v: Seq<String>) -> Seq<Seq<char>> {
    v.map_values(|x: String| x@)
}

/// The output pattern (file name) of the parts of a video: `{stem}_part_%03d.{ext}`,
/// where FFmpeg fills in the three-digit part number.
pub fn segment_pattern_name(stem: &str, ext: &str) -> (res: String)
    ensures
        res@ == stem@ + "_part_%03d."@ + ext@,
{
    let mut out: Vec<char> = Vec::new();
    push_str_chars(&mut out, stem);
    push_str_chars(&mut out, "_part_%03d.");
    push_str_chars(&mut out, ext);
    string_from_chars(out.as_slice())
}

/// The file name that converting a video to Matroska writes: its stem (or
/// `video`) with the extension `mkv`.
pub fn mkv_output_name(input: &str) -> (res: String)
    ensures
        res@ == stem_or(input@, "video"@) + ".mkv"@,
{
    let stem = crate::paths::video_stem(input);
    let mut out: Vec<char> = Vec::new();
    push_str_chars(&mut out, stem.as_str());
    push_str_chars(&mut out, ".mkv");
    string_from_chars(out.as_slice())
}

fn owned(s: &str) -> (res: String)
    ensures
        res@ == s@,
{
    String::from_str(s)
}

/// The arguments of the FFmpeg run that cuts `input` into parts of about
/// `segment_time` seconds each, copying the streams.
pub open spec fn split_args_spec(
    input: Seq<char>,
    segment_time: Seq<char>,
    segment_format: Seq<char>,
    out_pattern: Seq<char>,
) -> Seq<Seq<char>> {
    seq![
        "-hide_banner"@,
        "-nostdin"@,
        "-i"@,
        input,
        "-map"@,
        "0"@,
        "-c"@,
        "copy"@,
        "-f"@,
        "segment"@,
        "-segment_time"@,
        segment_time,
        "-segment_format"@,
        segment_format,
        "-reset_timestamps"@,
        "1"@,
        out_pattern,
    ]
}

pub fn split_ffmpeg_args(
    input: &str,
    segment_time: &str,
    segment_format: &str,
    out_pattern: &str,
) -> (res: Vec<String>)
    ensures
        strings_view(res@) == split_args_spec(input@, segment_time@, segment_format@, out_pattern@),
{
    let mut v: Vec<String> = Vec::new();
    v.push(owned("-hide_banner"));
    v.push(owned("-nostdin"));
    v.push(owned("-i"));
    v.push(owned(input));
    v.push(owned("-map"));
    v.push(owned("0"));
    v.push(owned("-c"));
    v.push(owned("copy"));
    v.push(owned("-f"));
    v.push(owned("segment"));
    v.push(owned("-segment_time"));
    v.push(owned(segment_time));
    v.push(owned("-segment_format"));
    v.push(owned(segment_format));
    v.push(owned("-reset_timestamps"));
    v.push(owned("1"));
    v.push(owned(out_pattern));
    assert(strings_view(v@) =~= split_args_spec(input@, segment_time@, segment_format@, out_pattern@));
    v
}

/// The arguments of the FFmpeg run that copies the streams of `input` into
/// the container of `output`.
pub open spec fn convert_args_spec(input: Seq<char>, output: Seq<char>) -> Seq<Seq<char>> {
    seq!["-hide_banner"@, "-nostdin"@, "-i"@, input, "-map"@, "0"@, "-c"@, "copy"@, output]
}

pub fn convert_ffmpeg_args(input: &str, output: &str) -> (res: Vec<String>)
    ensures
        strings_view(res@) == convert_args_spec(input@, output@),
{
    let mut v: Vec<String> = Vec::new();
    v.push(owned("-hide_banner"));
    v.push(owned("-nostdin"));
    v.push(owned("-i"));
    v.push(owned(input));
    v.push(owned("-map"));
    v.push(owned("0"));
    v.push(owned("-c"));
    v.push(owned("copy"));
    v.push(owned(output));
    assert(strings_view(v@) =~= convert_args_spec(input@, output@));
    v
}

/// The arguments of the FFprobe run that prints only the duration of `input`.
pub open spec fn probe_args_spec(input: Seq<char>) -> Seq<Seq<char>> {
    seq![
        "-v"@,
        "error"@,
        "-show_entries"@,
        "format=duration"@,
        "-of"@,
        "default=noprint_wrappers=1:nokey=1"@,
        input,
    ]
}

pub fn ffprobe_duration_args(input: &str) -> (res: Vec<String>)
    ensures
        strings_view(res@) == probe_args_spec(input@),
{
    let mut v: Vec<String> = Vec::new();
    v.push(owned("-v"));
    v.push(owned("error"));
    v.push(owned("-show_entries"));
    v.push(owned("format=duration"));
    v.push(owned("-of"));
    v.push(owned("default=noprint_wrappers=1:nokey=1"));
    v.push(owned(input));
    assert(strings_view(v@) =~= probe_args_spec(input@));
    v
}

// ---------------------------------------------------------------------------
// What FFprobe and FFmpeg print

pub open spec fn no_duration_message() -> Seq<char> {
    "Não foi possível obter a duração do arquivo (formato ou fluxo incompatível?)."@
}

/// The duration that FFprobe printed, trimmed; an error where it printed
/// nothing or `N/A`.
pub open spec fn duration_text_spec(out: Seq<char>) -> Result<Seq<char>, Seq<char>> {
    let t = trim(out);
    if t.len() == 0 || t == "N/A"@ {
        Err(no_duration_message())
    } else {
        Ok(t)
    }
}

pub fn duration_text(stdout: &str) -> (res: Result<String, String>)
    ensures
        match res {
            Ok(t) => duration_text_spec(stdout@) == Ok::<Seq<char>, Seq<char>>(t@),
            Err(e) => duration_text_spec(stdout@) == Err::<Seq<char>, Seq<char>>(e@),
        },
{
    let c = chars_of(stdout);
    let (a, b) = trim_bounds(c.as_slice(), 0, c.len());
    assert(c@.subrange(0, c@.len() as int) =~= stdout@);
    let t = &c.as_slice()[a..b];
    if a == b || chars_eq_str(t, "N/A") {
        return Err(
            String::from_str(
                "Não foi possível obter a duração do arquivo (formato ou fluxo incompatível?).",
            ),
        );
    }
    Ok(string_from_chars(t))
}

/// The number of decimal digits (the class `\d`) from `t[i]` on.
pub open spec fn digit_run(t: Seq<char>, i: int) -> nat
    decreases t.len() - i,
{
    if 0 <= i < t.len() && is_decimal_digit(t[i]) {
        1 + digit_run(t, i + 1)
    } else {
        0
    }
}

/// Where `time=H:M:S.F` (each of `H`, `M`, `S`, `F` one or more decimal
/// digits of any script, as many as there are) starts at `p`, the bounds of `H`, `M` and `S.F`.
pub open spec fn time_match_at(t: Seq<char>, p: int) -> Option<(int, int, int, int, int, int)> {
    if 0 <= p && p + 5 <= t.len() && t.subrange(p, p + 5) == "time="@ {
        let a = p + 5;
        let ae = a + digit_run(t, a);
        if ae > a && ae < t.len() && t[ae] == ':' {
            let b = ae + 1;
            let be = b + digit_run(t, b);
            if be > b && be < t.len() && t[be] == ':' {
                let c = be + 1;
                let ci = c + digit_run(t, c);
                if ci > c && ci < t.len() && t[ci] == '.' {
                    let ce = ci + 1 + digit_run(t, ci + 1);
                    if ce > ci + 1 {
                        Some((a, ae, b, be, c, ce))
                    } else {
                        None
                    }
                } else {
                    None
                }
            } else {
                None
            }
        } else {
            None
        }
    } else {
        None
    }
}

/// The leftmost match of `time=H:M:S.F` at or after `p`.
pub open spec fn first_time_match(t: Seq<char>, p: int) -> Option<(int, int, int, int, int, int)>
    decreases t.len() - p,
{
    if p < 0 || p >= t.len() {
        None
    } else {
        match time_match_at(t, p) {
            Some(g) => Some(g),
            None => first_time_match(t, p + 1),
        }
    }
}

/// The texts of hours, minutes and seconds of the first `time=H:M:S.F` of a
/// line of FFmpeg's progress output.
pub open spec fn time_fields_spec(t: Seq<char>) -> Option<(Seq<char>, Seq<char>, Seq<char>)> {
    match first_time_match(t, 0) {
        Some(g) => Some((t.subrange(g.0, g.1), t.subrange(g.2, g.3), t.subrange(g.4, g.5))),
        None => None,
    }
}

pub open spec fn fields_view(o: Option<(String, String, String)>) -> Option<(Seq<char>, Seq<char>, Seq<char>)> {
    match o {
        Some(f) => Some((f.0@, f.1@, f.2@)),
        None => None,
    }
}

fn digit_run_exec(t: &[char], i: usize) -> (k: usize)
    requires
        i <= t@.len(),
    ensures
        i + k <= t@.len(),
        k == digit_run(t@, i as int),
{
    let mut j = i;
    while j < t.len() && is_decimal_digit_exec(t[j])
        invariant
            i <= j <= t@.len(),
            digit_run(t@, i as int) == (j - i) + digit_run(t@, j as int),
        decreases t.len() - j,
    {
        j = j + 1;
    }
    j - i
}

fn time_match_exec(t: &[char], p: usize) -> (r: Option<(usize, usize, usize, usize, usize, usize)>)
    requires
        p <= t@.len(),
    ensures
        r matches Some(g) ==> g.0 <= g.1 <= g.2 <= g.3 <= g.4 <= g.5 <= t@.len() && time_match_at(t@, p as int) == Some(
            (g.0 as int, g.1 as int, g.2 as int, g.3 as int, g.4 as int, g.5 as int),
        ),
        r is None ==> time_match_at(t@, p as int) is None,
{
    let n = t.len();
    if n - p < 5 {
        return None;
    }
    let ghost w = t@.subrange(p as int, p + 5);
    if !(t[p] == 't' && t[p + 1] == 'i' && t[p + 2] == 'm' && t[p + 3] == 'e' && t[p + 4] == '=') {
        proof {
            reveal_strlit("time=");
            if w == "time="@ {
                assert(w[0] == t@[p as int]);
                assert(w[1] == t@[p + 1]);
                assert(w[2] == t@[p + 2]);
                assert(w[3] == t@[p + 3]);
                assert(w[4] == t@[p + 4]);
            }
        }
        return None;
    }
    proof {
        reveal_strlit("time=");
        assert(w =~= "time="@);
    }
    let a = p + 5;
    let ae = a + digit_run_exec(t, a);
    if !(ae > a && ae < n && t[ae] == ':') {
        return None;
    }
    let b = ae + 1;
    let be = b + digit_run_exec(t, b);
    if !(be > b && be < n && t[be] == ':') {
        return None;
    }
    let c = be + 1;
    let ci = c + digit_run_exec(t, c);
    if !(ci > c && ci < n && t[ci] == '.') {
        return None;
    }
    let ce = ci + 1 + digit_run_exec(t, ci + 1);
    if ce > ci + 1 {
        Some((a, ae, b, be, c, ce))
    } else {
        None
    }
}

/// Finds the first `time=H:M:S.F` in a line of FFmpeg's progress output and
/// gives the texts of its hours, minutes and seconds.
pub fn ffmpeg_time_fields(line: &str) -> (res: Option<(String, String, String)>)
    ensures
        fields_view(res) == time_fields_spec(line@),
{
    let c = chars_of(line);
    let t = c.as_slice();
    let n = t.len();
    let mut p: usize = 0;
    while p < n
        invariant
            n == t@.len(),
            t@ == line@,
            p <= n,
            first_time_match(t@, 0) == first_time_match(t@, p as int),
        decreases n - p,
    {
        match time_match_exec(t, p) {
            Some(g) => {
                let h = string_from_chars(&t[g.0..g.1]);
                let m = string_from_chars(&t[g.2..g.3]);
                let s = string_from_chars(&t[g.4..g.5]);
                return Some((h, m, s));
            },
            None => {},
        }
        p = p + 1;
    }
    None
}

// ---------------------------------------------------------------------------
// FFmpeg on this machine

/// Whether FFmpeg and FFprobe were found, where, and what to tell the user.
pub struct FfmpegStatus {
    pub available: bool,
    pub ffmpeg_path: Option<String>,
    pub ffprobe_path: Option<String>,
    pub message: String,
}

pub open spec fn found_message() -> Seq<char> {
    "FFmpeg e FFprobe encontrados no PATH."@
}

pub open spec fn install_message() -> Seq<char> {
    "Instale o FFmpeg e adicione ffmpeg e ffprobe ao PATH do sistema."@
}

/// The status for the places where `ffmpeg` and `ffprobe` were found (or not).
pub fn ffmpeg_status(ffmpeg_path: Option<String>, ffprobe_path: Option<String>) -> (res: FfmpegStatus)
    ensures
        res.available == (ffmpeg_path is Some && ffprobe_path is Some),
        res.ffmpeg_path == ffmpeg_path,
        res.ffprobe_path == ffprobe_path,
        res.message@ == (if res.available {
            found_message()
        } else {
            install_message()
        }),
{
    let available = ffmpeg_path.is_some() && ffprobe_path.is_some();
    let message = if available {
        String::from_str("FFmpeg e FFprobe encontrados no PATH.")
    } else {
        String::from_str("Instale o FFmpeg e adicione ffmpeg e ffprobe ao PATH do sistema.")
    };
    FfmpegStatus { available, ffmpeg_path, ffprobe_path, message }
}

// ---------------------------------------------------------------------------
// The FFmpeg process of the running job

/// The process id of the FFmpeg run in progress, if any.
pub struct SplitState {
    current_pid: Option<u32>,
}

impl View for SplitState {
    type V = Option<u32>;

    closed spec fn view(&self) -> Option<u32> {
        self.current_pid
    }
}

impl SplitState {
    /// No run in progress.
    pub fn new() -> (res: Self)
        ensures
            res@ is None,
    {
        SplitState { current_pid: None }
    }

    /// The run in progress, if any.
    pub fn current_pid(&self) -> (res: Option<u32>)
        ensures
            res == self@,
    {
        self.current_pid
    }

    /// Records the run that just started.
    pub fn set_pid(&mut self, pid: u32)
        ensures
            final(self)@ == Some(pid),
    {
        self.current_pid = Some(pid);
    }

    /// Records that no run is in progress.
    pub fn clear_pid(&mut self)
        ensures
            final(self)@ is None,
    {
        self.current_pid = None;
    }

    /// Stopping the job: hands out the run to stop, if any, and records that
    /// none is in progress any more.
    pub fn take_pid(&mut self) -> (res: Option<u32>)
        ensures
            res == old(self)@,
            final(self)@ is None,
    {
        let res = self.current_pid;
        self.current_pid = None;
        res
    }
}

// ---------------------------------------------------------------------------
// The parts that FFmpeg wrote

/// What is known of one entry of the output folder: its name (where it is
/// valid Unicode) and when it was last modified, in nanoseconds since the Unix
/// epoch (where that could be read).
pub struct SegmentEntry {
    pub name: Option<String>,
    pub modified_ns: Option<i128>,
}

/// Files modified up to five seconds before the job started still count.
pub open spec fn part_threshold(not_before_ns: i128) -> int {
    if not_before_ns - 5_000_000_000 >= i128::MIN {
        not_before_ns - 5_000_000_000
    } else {
        not_before_ns as int
    }
}

pub open spec fn starts_with(s: Seq<char>, p: Seq<char>) -> bool {
    p.len() <= s.len() && s.take(p.len() as int) == p
}

pub open spec fn ends_with(s: Seq<char>, p: Seq<char>) -> bool {
    p.len() <= s.len() && s.skip(s.len() - p.len()) == p
}

pub open spec fn part_prefix(stem: Seq<char>) -> Seq<char> {
    stem + "_part_"@
}

pub open spec fn part_suffix(ext: Seq<char>) -> Seq<char> {
    "."@ + ext
}

/// The entry is a part of this job: named `{stem}_part_….{ext}` and modified
/// no earlier than the threshold.
pub open spec fn is_new_part(e: SegmentEntry, prefix: Seq<char>, suffix: Seq<char>, threshold: int) -> bool {
    match e.name {
        Some(n) => starts_with(n@, prefix) && ends_with(n@, suffix) && match e.modified_ns {
            Some(m) => m >= threshold,
            None => false,
        },
        None => false,
    }
}

/// The names of the entries that are parts of this job, in the order given.
pub open spec fn new_part_names(
    es: Seq<SegmentEntry>,
    prefix: Seq<char>,
    suffix: Seq<char>,
    threshold: int,
) -> Seq<Seq<char>>
    decreases es.len(),
{
    if es.len() == 0 {
        seq![]
    } else {
        let prev = new_part_names(es.drop_last(), prefix, suffix, threshold);
        if is_new_part(es.last(), prefix, suffix, threshold) {
            prev.push(es.last().name.unwrap()@)
        } else {
            prev
        }
    }
}

pub open spec fn job_part_names(es: Seq<SegmentEntry>, stem: Seq<char>, ext: Seq<char>, not_before_ns: i128) -> Seq<Seq<char>> {
    new_part_names(es, part_prefix(stem), part_suffix(ext), part_threshold(not_before_ns))
}

pub open spec fn no_parts_message() -> Seq<char> {
    "Nenhuma parte de vídeo encontrada após o FFmpeg (ou arquivos antigos na pasta?). \nDica: use pasta vazia ou apague partes anteriores com o mesmo nome."@
}

fn has_prefix(s: &[char], p: &[char]) -> (r: bool)
    ensures
        r == starts_with(s@, p@),
{
    if p.len() > s.len() {
        return false;
    }
    let mut i: usize = 0;
    while i < p.len()
        invariant
            p@.len() <= s@.len(),
            i <= p@.len(),
            forall|k: int| 0 <= k < i ==> s@[k] == p@[k],
        decreases p.len() - i,
    {
        if s[i] != p[i] {
            assert(s@.take(p@.len() as int)[i as int] == s@[i as int]);
            return false;
        }
        i = i + 1;
    }
    assert(s@.take(p@.len() as int) =~= p@);
    true
}

fn has_suffix(s: &[char], p: &[char]) -> (r: bool)
    ensures
        r == ends_with(s@, p@),
{
    if p.len() > s.len() {
        return false;
    }
    let n = s.len();
    let off = n - p.len();
    let mut i: usize = 0;
    while i < p.len()
        invariant
            p@.len() <= s@.len(),
            off == s@.len() - p@.len(),
            off + p@.len() == s@.len(),
            n == s@.len(),
            i <= p@.len(),
            forall|k: int| 0 <= k < i ==> s@[off + k] == p@[k],
        decreases p.len() - i,
    {
        if s[off + i] != p[i] {
            assert(s@.skip(off as int)[i as int] == s@[off + i]);
            return false;
        }
        i = i + 1;
    }
    assert(s@.skip(off as int) =~= p@);
    true
}

/// The names of the parts that this job wrote, in the order of their names;
/// an error where there are none.
pub fn select_segment_parts(
    entries: &[SegmentEntry],
    stem: &str,
    ext: &str,
    not_before_ns: i128,
) -> (res: Result<Vec<String>, String>)
    ensures
        match res {
            Ok(names) => {
                let found = job_part_names(entries@, stem@, ext@, not_before_ns);
                &&& found.len() > 0
                &&& sorted_by(strings_view(names@), chars_leq())
                &&& strings_view(names@).to_multiset() == found.to_multiset()
            },
            Err(e) => job_part_names(entries@, stem@, ext@, not_before_ns).len() == 0 && e@
                == no_parts_message(),
        },
{
    let mut prefix: Vec<char> = Vec::new();
    push_str_chars(&mut prefix, stem);
    push_str_chars(&mut prefix, "_part_");
    let mut suffix: Vec<char> = Vec::new();
    push_str_chars(&mut suffix, ".");
    push_str_chars(&mut suffix, ext);
    let threshold: i128 = if not_before_ns >= i128::MIN + 5_000_000_000 {
        not_before_ns - 5_000_000_000
    } else {
        not_before_ns
    };
    let ghost pre = part_prefix(stem@);
    let ghost suf = part_suffix(ext@);
    assert(prefix@ =~= pre);
    assert(suffix@ =~= suf);
    let ghost found = job_part_names(entries@, stem@, ext@, not_before_ns);
    let mut sorted: Vec<Vec<char>> = Vec::new();
    let mut count: usize = 0;
    let mut i: usize = 0;
    assert(names_view(sorted@) =~= new_part_names(entries@.take(0), pre, suf, threshold as int));
    while i < entries.len()
        invariant
            i <= entries@.len(),
            count <= i,
            prefix@ == pre,
            suffix@ == suf,
            threshold as int == part_threshold(not_before_ns),
            count == new_part_names(entries@.take(i as int), pre, suf, threshold as int).len(),
            sorted_by(names_view(sorted@), chars_leq()),
            names_view(sorted@).to_multiset() == new_part_names(
                entries@.take(i as int),
                pre,
                suf,
                threshold as int,
            ).to_multiset(),
        decreases entries.len() - i,
    {
        let e = &entries[i];
        let ghost prev = new_part_names(entries@.take(i as int), pre, suf, threshold as int);
        assert(entries@.take(i + 1).drop_last() =~= entries@.take(i as int));
        assert(entries@.take(i + 1).last() == entries@[i as int]);
        let keep = match &e.name {
            Some(n) => {
                let c = chars_of(n.as_str());
                if has_prefix(c.as_slice(), prefix.as_slice()) && has_suffix(c.as_slice(), suffix.as_slice()) {
                    match e.modified_ns {
                        Some(m) => if m >= threshold {
                            insert_sorted(&mut sorted, c);
                            proof {
                                vstd::seq_lib::to_multiset_build(prev, n@);
                            }
                            true
                        } else {
                            false
                        },
                        None => false,
                    }
                } else {
                    false
                }
            },
            None => false,
        };
        if keep {
            count = count + 1;
        }
        i = i + 1;
    }
    assert(entries@.take(entries@.len() as int) =~= entries@);
    if count == 0 {
        return Err(
            String::from_str(
                "Nenhuma parte de vídeo encontrada após o FFmpeg (ou arquivos antigos na pasta?). \nDica: use pasta vazia ou apague partes anteriores com o mesmo nome.",
            ),
        );
    }
    let mut names: Vec<String> = Vec::new();
    let mut k: usize = 0;
    while k < sorted.len()
        invariant
            k <= sorted@.len(),
            strings_view(names@) == names_view(sorted@).take(k as int),
        decreases sorted.len() - k,
    {
        let s = string_from_chars(sorted[k].as_slice());
        assert(s@ == names_view(sorted@)[k as int]);
        let ghost old_names = names@;
        names.push(s);
        assert(strings_view(names@) =~= strings_view(old_names).push(s@));
        assert(names_view(sorted@).take(k + 1) =~= names_view(sorted@).take(k as int).push(s@));
        k = k + 1;
    }
    assert(names_view(sorted@).take(sorted@.len() as int) =~= names_view(sorted@));
    Ok(names)
}

} // verus!
