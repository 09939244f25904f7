use vstd::prelude::*;

use vstd::utf8::{char_is_scalar, has_width_1_encoding, has_width_2_encoding, has_width_3_encoding, is_scalar, encode_scalar, encode_utf8, encode_utf8_decode_utf8, encode_utf8_valid_utf8};

use crate::cue::{ts_text, CueModel};
use crate::decode::{decoded_srt, srt_bytes_cues};
use crate::parse::{no_cues_message, srt_read, srt_normalized, strip_boms, unify_newlines};
use crate::parts::{bom, clip_cue, clip_cues, part_offset, part_srt_text, srt_text};
use crate::paths::{ascii_lower, extension, file_name_bounds, file_stem, stems_match, with_srt_extension};
use crate::media::segment_format;
use crate::roundtrip::{cue_round_trips, lemma_srt_text_front, lemma_text_reads_back, no_char, numbered, text_round_trips};
use crate::parse::{pow10, ts_shape_at, ts_value_at, lemma_ts_shape_value};
use crate::text::{all_ascii_digits, decimal, digits_value, is_ascii_digit, lemma_decimal_digits, zero_pad};

verus! {

// ---------------------------------------------------------------------------
// Numbers written in decimal read back

proof fn lemma_zeros_value(k: nat)
    ensures
        digits_value(Seq::new(k, |_i: int| '0')) == 0,
        all_ascii_digits(Seq::new(k, |_i: int| '0')),
    decreases k,
{
    if k > 0 {
        lemma_zeros_value((k - 1) as nat);
        assert(Seq::new(k, |_i: int| '0').drop_last() =~= Seq::new((k - 1) as nat, |_i: int| '0'));
    }
}

proof fn lemma_digits_value_concat(p: Seq<char>, s: Seq<char>)
    ensures
        digits_value(p + s) == digits_value(p) * pow10(s.len()) + digits_value(s),
    decreases s.len(),
{
    if s.len() > 0 {
        lemma_digits_value_concat(p, s.drop_last());
        assert((p + s).drop_last() =~= p + s.drop_last());
        assert((p + s).last() == s.last());
        let a = digits_value(p);
        let b = pow10((s.len() - 1) as nat);
        let c = digits_value(s.drop_last());
        let d = crate::text::digit_value(s.last()) as nat;
        assert(digits_value(p + s) == digits_value((p + s).drop_last()) * 10 + crate::text::digit_value((p + s).last()) as nat);
        assert(digits_value(p + s.drop_last()) == a * b + c);
        assert(digits_value(p + s) == (a * b + c) * 10 + d);
        assert(pow10(s.len()) == 10 * b);
        assert(digits_value(s) == c * 10 + d);
        assert((a * b + c) * 10 + d == a * (10 * b) + (c * 10 + d)) by (nonlinear_arith);
    } else {
        assert(p + s =~= p);
        assert(pow10(0) == 1);
        assert(digits_value(s) == 0);
        assert(digits_value(p) * pow10(s.len()) == digits_value(p));
    }
}

proof fn lemma_decimal_len(x: nat, w: nat)
    requires
        w >= 1,
        x < pow10(w),
    ensures
        decimal(x).len() <= w,
    decreases x,
{
    if x >= 10 {
        assert(w >= 2) by {
            if w == 1 {
                assert(pow10(0) == 1);
                assert(pow10(1) == 10);
            }
        }
        assert(x / 10 < pow10((w - 1) as nat));
        lemma_decimal_len(x / 10, (w - 1) as nat);
    }
}

/// A number below `10^w` written with `w` digits (zeros in front) reads back.
pub proof fn lemma_padded_field(x: nat, w: nat)
    requires
        w >= 1,
        x < pow10(w),
    ensures
        zero_pad(decimal(x), w).len() == w,
        all_ascii_digits(zero_pad(decimal(x), w)),
        digits_value(zero_pad(decimal(x), w)) == x,
{
    lemma_decimal_len(x, w);
    lemma_decimal_digits(x);
    let d = decimal(x);
    if d.len() < w {
        let z = Seq::new((w - d.len()) as nat, |_i: int| '0');
        lemma_zeros_value((w - d.len()) as nat);
        lemma_digits_value_concat(z, d);
        let zv = digits_value(z);
        let pw = pow10(d.len());
        assert(zv * pw == 0) by (nonlinear_arith)
            requires
                zv == 0,
        ;
        assert(zero_pad(d, w) == z + d);
        assert forall|i: int| 0 <= i < (z + d).len() implies is_ascii_digit(#[trigger] (z + d)[i]) by {
            if i < z.len() {
                assert((z + d)[i] == z[i]);
            } else {
                assert((z + d)[i] == d[i - z.len()]);
            }
        }
    }
}

/// A time below 100 hours, written as `HH:MM:SS,mmm`, has the shape of a
/// timestamp and reads back as itself.
pub proof fn lemma_ts_text_reads_back(t: int)
    requires
        0 <= t < 360_000_000,
    ensures
        ts_text(t).len() == 12,
        ts_shape_at(ts_text(t), 0),
        ts_value_at(ts_text(t), 0) == Some(t),
{
    let n = t as nat;
    let h = n / 3_600_000;
    let m = (n % 3_600_000) / 60_000;
    let s = (n % 60_000) / 1_000;
    let x = n % 1_000;
    assert(pow10(0) == 1);
    assert(pow10(1) == 10);
    assert(pow10(2) == 100);
    assert(pow10(3) == 1000);
    lemma_padded_field(h, 2);
    lemma_padded_field(m, 2);
    lemma_padded_field(s, 2);
    lemma_padded_field(x, 3);
    let fh = zero_pad(decimal(h), 2);
    let fm = zero_pad(decimal(m), 2);
    let fs = zero_pad(decimal(s), 2);
    let fx = zero_pad(decimal(x), 3);
    let txt = ts_text(t);
    reveal(ts_text);
    assert(txt =~= fh + seq![':'] + fm + seq![':'] + fs + seq![','] + fx);
    assert(txt.subrange(0, 2) =~= fh);
    assert(txt.subrange(3, 5) =~= fm);
    assert(txt.subrange(6, 8) =~= fs);
    assert(txt.subrange(9, 12) =~= fx);
    assert(is_ascii_digit(fh[0]) && is_ascii_digit(fh[1]));
    assert(is_ascii_digit(fm[0]) && is_ascii_digit(fm[1]));
    assert(is_ascii_digit(fs[0]) && is_ascii_digit(fs[1]));
    assert(is_ascii_digit(fx[0]) && is_ascii_digit(fx[1]) && is_ascii_digit(fx[2]));
    lemma_ts_shape_value(txt, 0);
    assert(n == h * 3_600_000 + m * 60_000 + s * 1_000 + x) by (nonlinear_arith)
        requires
            h == n / 3_600_000,
            m == (n % 3_600_000) / 60_000,
            s == (n % 60_000) / 1_000,
            x == n % 1_000,
    ;
}

// ---------------------------------------------------------------------------
// Written subtitles read back

proof fn lemma_unify_plain(s: Seq<char>)
    requires
        no_char(s, '\r'),
    ensures
        unify_newlines(s) == s,
    decreases s.len(),
{
    if s.len() > 0 {
        assert(s[0] != '\r');
        assert(no_char(s.drop_first(), '\r')) by {
            assert forall|k: int| 0 <= k < s.drop_first().len() implies #[trigger] s.drop_first()[k] != '\r' by {
                assert(s.drop_first()[k] == s[k + 1]);
            }
        }
        lemma_unify_plain(s.drop_first());
        assert(seq![s[0]] + s.drop_first() =~= s);
    }
}

/// The `.srt` text of cues that survive writing (times in `[0, 100 h)`,
/// each ending after it starts; texts without `\r`, without blank lines, not
/// starting with a line break and not ending in white space) reads back as
/// the same cues, numbered from 1; where there are no cues, reading answers
/// that the text holds none.
pub proof fn law_srt_text_reads_back(cs: Seq<CueModel>)
    requires
        forall|i: int| 0 <= i < cs.len() ==> cue_round_trips(#[trigger] cs[i]),
        cs.len() <= usize::MAX,
    ensures
        srt_read(srt_text(cs)) == (if cs.len() == 0 {
            Err::<Seq<CueModel>, Seq<char>>(no_cues_message())
        } else {
            Ok(numbered(cs, 1))
        }),
{
    lemma_srt_text_front(cs);
    lemma_text_reads_back(cs, 1, Seq::<char>::empty());
    let t = srt_text(cs);
    assert(Seq::<char>::empty() + t =~= t);
    assert(strip_boms(t) == t) by {
        if t.len() > 0 {
            assert(crate::text::is_ascii_digit(t[0]));
            assert(t[0] != bom());
        }
    }
    lemma_unify_plain(t);
    assert(srt_normalized(t) == t);
    assert(numbered(cs, 1).len() == cs.len());
}

proof fn lemma_bom_bytes()
    ensures
        encode_scalar(bom() as u32) == seq![0xEFu8, 0xBBu8, 0xBFu8],
{
    let v: u32 = 0xFEFF;
    assert(bom() as u32 == v);
    assert((0xE0u8 | ((v >> 12) & 0x0F) as u8) == 0xEFu8) by (bit_vector)
        requires
            v == 0xFEFF,
    ;
    assert((0x80u8 | ((v >> 6) & 0x3F) as u8) == 0xBBu8) by (bit_vector)
        requires
            v == 0xFEFF,
    ;
    assert((0x80u8 | (v & 0x3F) as u8) == 0xBFu8) by (bit_vector)
        requires
            v == 0xFEFF,
    ;
    assert(encode_scalar(v) =~= seq![0xEFu8, 0xBBu8, 0xBFu8]);
}

/// The bytes of a subtitle file as written (a byte-order mark, then the `.srt`
/// text of the cues, in UTF-8) read back as the same cues, numbered from 1;
/// where there are no cues, reading answers that the file holds none.
pub proof fn law_srt_file_reads_back(cs: Seq<CueModel>)
    requires
        forall|i: int| 0 <= i < cs.len() ==> cue_round_trips(#[trigger] cs[i]),
        cs.len() <= usize::MAX,
    ensures
        srt_bytes_cues(encode_utf8(seq![bom()] + srt_text(cs))) == (if cs.len() == 0 {
            Err::<Seq<CueModel>, Seq<char>>(no_cues_message())
        } else {
            Ok(numbered(cs, 1))
        }),
{
    let t = srt_text(cs);
    let chars = seq![bom()] + t;
    let bytes = encode_utf8(chars);
    lemma_bom_bytes();
    assert(chars[0] == bom());
    assert(chars.drop_first() =~= t);
    assert(bytes == encode_scalar(bom() as u32) + encode_utf8(t));
    assert(bytes.skip(3) =~= encode_utf8(t));
    encode_utf8_valid_utf8(t);
    encode_utf8_decode_utf8(t);
    assert(decoded_srt(bytes) == Ok::<Seq<char>, Seq<char>>(t));
    law_srt_text_reads_back(cs);
}

proof fn lemma_first_scalar_bytes(c: char)
    ensures
        encode_scalar(c as u32).len() >= 1,
        encode_scalar(c as u32)[0] != 0xFFu8,
        encode_scalar(c as u32)[0] != 0xFEu8,
        encode_scalar(c as u32)[0] == 0xEFu8 ==> encode_scalar(c as u32).len() == 3,
        encode_scalar(c as u32).len() == 3 && encode_scalar(c as u32)[0] == 0xEFu8
            && encode_scalar(c as u32)[1] == 0xBBu8 && encode_scalar(c as u32)[2] == 0xBFu8 ==> c
            == bom(),
{
    char_is_scalar(c);
    let v = c as u32;
    assert(is_scalar(v));
    if has_width_1_encoding(v) {
        assert(((v & 0x7F) as u8) < 0x80u8) by (bit_vector);
    } else if has_width_2_encoding(v) {
        assert(0xC0u8 <= (0xC0u8 | ((v >> 6) & 0x1F) as u8) <= 0xDFu8) by (bit_vector);
    } else if has_width_3_encoding(v) {
        assert((0xE0u8 | ((v >> 12) & 0x0F) as u8) <= 0xEFu8) by (bit_vector);
        assert((0xE0u8 | ((v >> 12) & 0x0F) as u8) >= 0xE0u8) by (bit_vector);
        assert(v <= 0xFFFF && (0xE0u8 | ((v >> 12) & 0x0F) as u8) == 0xEFu8 && (0x80u8 | ((v >> 6)
            & 0x3F) as u8) == 0xBBu8 && (0x80u8 | (v & 0x3F) as u8) == 0xBFu8 ==> v == 0xFEFF)
            by (bit_vector);
        assert(bom() as u32 == 0xFEFF);
    } else {
        assert(0xF0u8 <= (0xF0u8 | ((v >> 18) & 0x7) as u8) <= 0xF7u8) by (bit_vector);
    }
}

/// The UTF-8 bytes of any text that does not start with a byte-order mark
/// decode as that text.
pub proof fn law_utf8_text_decodes(t: Seq<char>)
    requires
        t.len() == 0 || t[0] != bom(),
    ensures
        decoded_srt(encode_utf8(t)) == Ok::<Seq<char>, Seq<char>>(t),
{
    let bytes = encode_utf8(t);
    encode_utf8_valid_utf8(t);
    encode_utf8_decode_utf8(t);
    if t.len() > 0 {
        let first = encode_scalar(t[0] as u32);
        lemma_first_scalar_bytes(t[0]);
        assert(bytes == first + encode_utf8(t.drop_first()));
        assert(bytes[0] == first[0]);
        if first.len() >= 3 {
            assert(bytes[1] == first[1] && bytes[2] == first[2]);
        }
    }
}

// ---------------------------------------------------------------------------
// The cues of a part

/// Each cue of a part lies within the part, `[0, duration]`, ends after it
/// starts, and is one cue of the whole cut to the part's window; there are no
/// more cues in the part than in the whole.
pub proof fn law_part_cues_lie_in_part(cs: Seq<CueModel>, offset: int, duration: int)
    ensures
        clip_cues(cs, offset, duration).len() <= cs.len(),
        forall|i: int|
            0 <= i < clip_cues(cs, offset, duration).len() ==> {
                let c = #[trigger] clip_cues(cs, offset, duration)[i];
                &&& 0 <= c.start_ms < c.end_ms <= duration
                &&& exists|j: int| 0 <= j < cs.len() && clip_cue(cs[j], offset, duration) == Some(c)
            },
    decreases cs.len(),
{
    if cs.len() > 0 {
        let prev_cs = cs.drop_last();
        law_part_cues_lie_in_part(prev_cs, offset, duration);
        let prev = clip_cues(prev_cs, offset, duration);
        let out = clip_cues(cs, offset, duration);
        assert forall|i: int| 0 <= i < out.len() implies {
            let c = #[trigger] out[i];
            &&& 0 <= c.start_ms < c.end_ms <= duration
            &&& exists|j: int| 0 <= j < cs.len() && clip_cue(cs[j], offset, duration) == Some(c)
        } by {
            if i < prev.len() {
                assert(out[i] == prev[i]);
                let j = choose|j: int| 0 <= j < prev_cs.len() && clip_cue(prev_cs[j], offset, duration) == Some(prev[i]);
                assert(cs[j] == prev_cs[j]);
            } else {
                assert(clip_cue(cs[cs.len() - 1], offset, duration) == Some(out[i]));
            }
        }
    }
}

/// The subtitle file written for part `k` reads back as the cues of that part
/// on the part's own clock, numbered from 1 (or as holding no cues), where the
/// part lasts less than 100 hours and the texts of the cues that reach into
/// the part survive writing.
pub proof fn law_part_file_reads_back(cs: Seq<CueModel>, durations: Seq<i64>, k: int)
    requires
        0 <= k < durations.len(),
        durations[k] < 360_000_000,
        forall|i: int|
            0 <= i < cs.len() && clip_cue(
                cs[i],
                crate::parts::part_offset(durations, k),
                durations[k] as int,
            ) is Some ==> text_round_trips(#[trigger] cs[i].text),
        cs.len() <= usize::MAX,
    ensures
        ({
            let part = clip_cues(cs, crate::parts::part_offset(durations, k), durations[k] as int);
            srt_bytes_cues(encode_utf8(part_srt_text(cs, durations, k))) == (if part.len() == 0 {
                Err::<Seq<CueModel>, Seq<char>>(no_cues_message())
            } else {
                Ok(numbered(part, 1))
            })
        }),
{
    let off = crate::parts::part_offset(durations, k);
    let dur = durations[k] as int;
    let part = clip_cues(cs, off, dur);
    law_part_cues_lie_in_part(cs, off, dur);
    assert forall|i: int| 0 <= i < part.len() implies cue_round_trips(#[trigger] part[i]) by {
        let j = choose|j: int| 0 <= j < cs.len() && clip_cue(cs[j], off, dur) == Some(part[i]);
        assert(part[i].text == cs[j].text);
    }
    law_srt_file_reads_back(part);
}

/// Every cue of the whole that reaches into the window of a part, with
/// something of it left there, appears in that part, cut to the window.
pub proof fn law_part_keeps_overlapping_cues(cs: Seq<CueModel>, offset: int, duration: int, j: int)
    requires
        0 <= j < cs.len(),
        clip_cue(cs[j], offset, duration) is Some,
    ensures
        clip_cues(cs, offset, duration).contains(clip_cue(cs[j], offset, duration).unwrap()),
    decreases cs.len(),
{
    let x = clip_cue(cs[j], offset, duration).unwrap();
    let prev = clip_cues(cs.drop_last(), offset, duration);
    if j == cs.len() - 1 {
        assert(clip_cues(cs, offset, duration) == prev.push(x));
        assert(prev.push(x)[prev.len() as int] == x);
    } else {
        assert(cs.drop_last()[j] == cs[j]);
        law_part_keeps_overlapping_cues(cs.drop_last(), offset, duration, j);
        let k = choose|k: int| 0 <= k < prev.len() && prev[k] == x;
        match clip_cue(cs.last(), offset, duration) {
            Some(y) => {
                assert(prev.push(y)[k] == x);
            },
            None => {},
        }
    }
}

/// Every cue that is on screen during some of the window
/// `[offset, offset + duration)` appears in that part, on the part's clock:
/// from where it enters the window (0 for a cue that runs across the cut into
/// the part) to where it leaves it, with its text.
pub proof fn law_part_keeps_cue_in_window(cs: Seq<CueModel>, offset: int, duration: int, j: int)
    requires
        0 <= j < cs.len(),
        (if cs[j].start_ms > offset { cs[j].start_ms } else { offset }) < (if cs[j].end_ms < offset
            + duration {
            cs[j].end_ms
        } else {
            offset + duration
        }),
    ensures
        clip_cues(cs, offset, duration).contains(
            CueModel {
                index: 0,
                start_ms: (if cs[j].start_ms > offset { cs[j].start_ms } else { offset }) - offset,
                end_ms: (if cs[j].end_ms < offset + duration {
                    cs[j].end_ms
                } else {
                    offset + duration
                }) - offset,
                text: cs[j].text,
            },
        ),
        cs[j].start_ms < offset < cs[j].end_ms && duration > 0 ==> clip_cues(
            cs,
            offset,
            duration,
        ).contains(
            CueModel {
                index: 0,
                start_ms: 0,
                end_ms: if cs[j].end_ms - offset < duration {
                    cs[j].end_ms - offset
                } else {
                    duration
                },
                text: cs[j].text,
            },
        ),
{
    law_part_keeps_overlapping_cues(cs, offset, duration, j);
}

/// The sum of a list of durations.
pub open spec fn total_ms(d: Seq<i64>) -> int {
    d.fold_left(0int, |acc: int, x: i64| acc + x)
}

/// Part `k` starts where the parts before it, one after the other from time 0,
/// end: at the sum of their durations; the next part starts one duration of
/// part `k` later.
pub proof fn law_part_offset_is_sum(d: Seq<i64>, k: int)
    requires
        0 <= k <= d.len(),
    ensures
        part_offset(d, k) == total_ms(d.take(k)),
        k < d.len() ==> part_offset(d, k + 1) == part_offset(d, k) + d[k],
    decreases k,
{
    if k > 0 {
        law_part_offset_is_sum(d, k - 1);
        assert(d.take(k).drop_last() =~= d.take(k - 1));
        assert(d.take(k).last() == d[k - 1]);
    } else {
        assert(d.take(0) =~= Seq::<i64>::empty());
    }
}

/// The subtitle file of part `k` is a byte-order mark, then the `.srt` text of
/// the cues cut to the window that starts at the sum of the durations of the
/// parts before it and lasts the duration of part `k`.
pub proof fn law_part_file_window(cs: Seq<CueModel>, d: Seq<i64>, k: int)
    requires
        0 <= k < d.len(),
    ensures
        part_srt_text(cs, d, k) == seq![bom()] + srt_text(
            clip_cues(cs, total_ms(d.take(k)), d[k] as int),
        ),
{
    law_part_offset_is_sum(d, k);
}

// ---------------------------------------------------------------------------
// Container formats

/// Each known extension is cut into segments of its own container: `mkv`,
/// `mka` and `mks` into Matroska, `mp4` and `m4v` into MP4, `mov`, `webm` and
/// `avi` into themselves, `ts`, `mts` and `m2ts` into MPEG-TS.
pub proof fn law_segment_format_table()
    ensures
        segment_format("mkv"@) == "matroska"@,
        segment_format("mka"@) == "matroska"@,
        segment_format("mks"@) == "matroska"@,
        segment_format("mp4"@) == "mp4"@,
        segment_format("m4v"@) == "mp4"@,
        segment_format("mov"@) == "mov"@,
        segment_format("webm"@) == "webm"@,
        segment_format("avi"@) == "avi"@,
        segment_format("ts"@) == "mpegts"@,
        segment_format("mts"@) == "mpegts"@,
        segment_format("m2ts"@) == "mpegts"@,
{
    reveal_strlit("mkv");
    reveal_strlit("mka");
    reveal_strlit("mks");
    reveal_strlit("mp4");
    reveal_strlit("m4v");
    reveal_strlit("mov");
    reveal_strlit("webm");
    reveal_strlit("avi");
    reveal_strlit("ts");
    reveal_strlit("mts");
    reveal_strlit("m2ts");
    assert("mka"@[2] != "mkv"@[2]);
    assert("mks"@[2] != "mkv"@[2]);
    assert("mks"@[2] != "mka"@[2]);
    assert("mp4"@[1] != "mkv"@[1]);
    assert("mp4"@[1] != "mka"@[1]);
    assert("mp4"@[1] != "mks"@[1]);
    assert("m4v"@[1] != "mkv"@[1]);
    assert("m4v"@[1] != "mka"@[1]);
    assert("m4v"@[1] != "mks"@[1]);
    assert("m4v"@[1] != "mp4"@[1]);
    assert("mov"@[1] != "mkv"@[1]);
    assert("mov"@[1] != "mka"@[1]);
    assert("mov"@[1] != "mks"@[1]);
    assert("mov"@[1] != "mp4"@[1]);
    assert("mov"@[1] != "m4v"@[1]);
    assert("webm"@.len() != "mkv"@.len());
    assert("webm"@.len() != "mka"@.len());
    assert("webm"@.len() != "mks"@.len());
    assert("webm"@.len() != "mp4"@.len());
    assert("webm"@.len() != "m4v"@.len());
    assert("webm"@.len() != "mov"@.len());
    assert("avi"@[0] != "mkv"@[0]);
    assert("avi"@[0] != "mka"@[0]);
    assert("avi"@[0] != "mks"@[0]);
    assert("avi"@[0] != "mp4"@[0]);
    assert("avi"@[0] != "m4v"@[0]);
    assert("avi"@[0] != "mov"@[0]);
    assert("avi"@.len() != "webm"@.len());
    assert("ts"@.len() != "mkv"@.len());
    assert("ts"@.len() != "mka"@.len());
    assert("ts"@.len() != "mks"@.len());
    assert("ts"@.len() != "mp4"@.len());
    assert("ts"@.len() != "m4v"@.len());
    assert("ts"@.len() != "mov"@.len());
    assert("ts"@.len() != "webm"@.len());
    assert("ts"@.len() != "avi"@.len());
    assert("mts"@[1] != "mkv"@[1]);
    assert("mts"@[1] != "mka"@[1]);
    assert("mts"@[1] != "mks"@[1]);
    assert("mts"@[1] != "mp4"@[1]);
    assert("mts"@[1] != "m4v"@[1]);
    assert("mts"@[1] != "mov"@[1]);
    assert("mts"@.len() != "webm"@.len());
    assert("mts"@[0] != "avi"@[0]);
    assert("mts"@.len() != "ts"@.len());
    assert("m2ts"@.len() != "mkv"@.len());
    assert("m2ts"@.len() != "mka"@.len());
    assert("m2ts"@.len() != "mks"@.len());
    assert("m2ts"@.len() != "mp4"@.len());
    assert("m2ts"@.len() != "m4v"@.len());
    assert("m2ts"@.len() != "mov"@.len());
    assert("m2ts"@[0] != "webm"@[0]);
    assert("m2ts"@.len() != "avi"@.len());
    assert("m2ts"@.len() != "ts"@.len());
    assert("m2ts"@.len() != "mts"@.len());
}

// ---------------------------------------------------------------------------
// Names

/// Whether a subtitle file goes with a video does not depend on which of the
/// two names is taken first.
pub proof fn law_stem_match_symmetric(a: Seq<char>, b: Seq<char>)
    ensures
        stems_match(a, b) == stems_match(b, a),
{
}

/// A subtitle file goes with a video exactly where both names have a stem and
/// the two stems are the same text once every ASCII letter is lower-cased;
/// in particular stems of different lengths never match.
pub proof fn law_stem_match_whole_stems(v: Seq<char>, s: Seq<char>)
    ensures
        stems_match(v, s) <==> (file_stem(v) is Some && file_stem(s) is Some && file_stem(
            v,
        ).unwrap().map_values(|c: char| ascii_lower(c)) == file_stem(s).unwrap().map_values(
            |c: char| ascii_lower(c),
        )),
        stems_match(v, s) ==> file_stem(v).unwrap().len() == file_stem(s).unwrap().len(),
{
    if file_stem(v) is Some && file_stem(s) is Some {
        let a = file_stem(v).unwrap();
        let b = file_stem(s).unwrap();
        let la = a.map_values(|c: char| ascii_lower(c));
        let lb = b.map_values(|c: char| ascii_lower(c));
        assert(la.len() == a.len() && lb.len() == b.len());
        if la == lb {
            assert(a.len() == b.len());
            assert forall|i: int| 0 <= i < a.len() implies ascii_lower(#[trigger] a[i]) == ascii_lower(b[i]) by {
                assert(la[i] == lb[i]);
            }
        }
        if stems_match(v, s) {
            assert(la =~= lb);
        }
    }
}

/// Giving a path the extension `srt` changes only the extension: where its
/// file name has an extension, the text from the last `.` of the name on is
/// replaced by `.srt`; where it has none, `.srt` follows the name; a path
/// without a file name stays as it is. What follows the name (trailing
/// separators) is dropped. The extension holds no `.` and the name keeps
/// something before it.
pub proof fn law_srt_path_replaces_extension(p: Seq<char>)
    ensures
        file_name_bounds(p) is None ==> with_srt_extension(p) == p,
        file_name_bounds(p) matches Some(b) ==> match extension(p) {
            Some(e) => {
                &&& p.subrange(b.1 - e.len() - 1, b.1) == seq!['.'] + e
                &&& forall|i: int| 0 <= i < e.len() ==> #[trigger] e[i] != '.'
                &&& b.0 < b.1 - e.len() - 1
                &&& with_srt_extension(p) == p.take(b.1 - e.len() - 1) + ".srt"@
            },
            None => {
                &&& forall|k: int| b.0 < k < b.1 ==> #[trigger] p[k] != '.'
                &&& with_srt_extension(p) == p.take(b.1) + ".srt"@
            },
        },
{
    if let Some(b) = file_name_bounds(p) {
        crate::paths::lemma_file_name_bounds(p);
        if let Some(e) = extension(p) {
            let d = crate::paths::last_dot(p, b.0, b.1).unwrap();
            crate::paths::lemma_last_dot_bounds(p, b.0, b.1);
            assert(p.subrange(d, b.1) =~= seq!['.'] + e);
            assert forall|i: int| 0 <= i < e.len() implies #[trigger] e[i] != '.' by {
                assert(e[i] == p[d + 1 + i]);
            }
        } else {
            crate::paths::lemma_last_dot_bounds(p, b.0, b.1);
        }
    }
}

} // verus!
