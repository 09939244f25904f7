use vstd::prelude::*;

use crate::order::{chars_le, chars_lt, lemma_lt_common_start, lemma_lt_head};
use crate::text::{all_ascii_digits, digits_value, is_ascii_digit, decimal, parse_i64_chars, push_padded, push_str_chars, spec_parse_i64, string_from_chars, zero_pad};

verus! {

/// One subtitle of an `.srt` file: its number, its interval in milliseconds and
/// its text (lines joined by `\n`).
#[derive(Debug, Clone)]
pub struct SrtCue {
    pub index: usize,
    pub start_ms: i64,
    pub end_ms: i64,
    pub text: String,
}

/// What a cue means, as mathematical values.
pub struct CueModel {
    pub index: nat,
    pub start_ms: int,
    pub end_ms: int,
    pub text: Seq<char>,
}

impl View for SrtCue {
    type V = CueModel;

    open spec fn view(&self) -> CueModel {
        CueModel {
            index: self.index as nat,
            start_ms: self.start_ms as int,
            end_ms: self.end_ms as int,
            text: self.text@,
        }
    }
}

/// The models of a sequence of cues.
pub open spec fn cues_model(cs: Seq<SrtCue>) -> Seq<CueModel> {
    cs.map_values(|c: SrtCue| c@)
}

pub open spec fn opt_int(o: Option<i64>) -> Option<int> {
    match o {
        Some(v) => Some(v as int),
        None => None,
    }
}

pub open spec fn opt_cue_model(o: Option<SrtCue>) -> Option<CueModel> {
    match o {
        Some(c) => Some(c@),
        None => None,
    }
}

pub open spec fn in_i64(v: int) -> bool {
    i64::MIN <= v <= i64::MAX
}

// ---------------------------------------------------------------------------
// Timestamps

/// The four fields of a timestamp combine without leaving `i64` at any step of
/// `h * 3_600_000 + m * 60_000 + s * 1_000 + ms`.
pub open spec fn ts_fields_fit(h: int, m: int, s: int, ms: int) -> bool {
    &&& in_i64(h * 3_600_000)
    &&& in_i64(m * 60_000)
    &&& in_i64(h * 3_600_000 + m * 60_000)
    &&& in_i64(s * 1_000)
    &&& in_i64(h * 3_600_000 + m * 60_000 + s * 1_000)
    &&& in_i64(h * 3_600_000 + m * 60_000 + s * 1_000 + ms)
}

/// The timestamp that four text fields (hours, minutes, seconds, milliseconds)
/// denote, each read as `str::parse::<i64>` reads it.
pub open spec fn spec_parse_ts(h: Seq<char>, m: Seq<char>, s: Seq<char>, ms: Seq<char>) -> Option<
    int,
> {
    match (spec_parse_i64(h), spec_parse_i64(m), spec_parse_i64(s), spec_parse_i64(ms)) {
        (Some(hh), Some(mm), Some(ss), Some(xx)) => Some(
            hh * 3_600_000 + mm * 60_000 + ss * 1_000 + xx,
        ),
        _ => None,
    }
}

/// Where all four fields parse, their combination stays within `i64`.
pub open spec fn parse_ts_fits(h: Seq<char>, m: Seq<char>, s: Seq<char>, ms: Seq<char>) -> bool {
    match (spec_parse_i64(h), spec_parse_i64(m), spec_parse_i64(s), spec_parse_i64(ms)) {
        (Some(hh), Some(mm), Some(ss), Some(xx)) => ts_fields_fit(hh, mm, ss, xx),
        _ => true,
    }
}

/// Combines four timestamp fields of `s`, given as ranges, into milliseconds.
pub fn parse_ts_ranges(
    s: &[char],
    h: (usize, usize),
    m: (usize, usize),
    sec: (usize, usize),
    ms: (usize, usize),
) -> (res: Option<i64>)
    requires
        h.0 <= h.1 <= s@.len(),
        m.0 <= m.1 <= s@.len(),
        sec.0 <= sec.1 <= s@.len(),
        ms.0 <= ms.1 <= s@.len(),
        parse_ts_fits(
            s@.subrange(h.0 as int, h.1 as int),
            s@.subrange(m.0 as int, m.1 as int),
            s@.subrange(sec.0 as int, sec.1 as int),
            s@.subrange(ms.0 as int, ms.1 as int),
        ),
    ensures
        opt_int(res) == spec_parse_ts(
            s@.subrange(h.0 as int, h.1 as int),
            s@.subrange(m.0 as int, m.1 as int),
            s@.subrange(sec.0 as int, sec.1 as int),
            s@.subrange(ms.0 as int, ms.1 as int),
        ),
{
    let hh = match parse_i64_chars(s, h.0, h.1) {
        Some(v) => v,
        None => return None,
    };
    let mm = match parse_i64_chars(s, m.0, m.1) {
        Some(v) => v,
        None => return None,
    };
    let ss = match parse_i64_chars(s, sec.0, sec.1) {
        Some(v) => v,
        None => return None,
    };
    let xx = match parse_i64_chars(s, ms.0, ms.1) {
        Some(v) => v,
        None => return None,
    };
    Some(hh * 3_600_000 + mm * 60_000 + ss * 1_000 + xx)
}

/// Reads hours, minutes, seconds and milliseconds, each as an `i64`, and
/// combines them into a time in milliseconds; `None` where a field does not
/// parse.
pub fn parse_ts(h: &str, m: &str, s: &str, ms: &str) -> (res: Option<i64>)
    requires
        parse_ts_fits(h@, m@, s@, ms@),
    ensures
        opt_int(res) == spec_parse_ts(h@, m@, s@, ms@),
{
    let mut all: Vec<char> = Vec::new();
    push_str_chars(&mut all, h);
    let a = all.len();
    push_str_chars(&mut all, m);
    let b = all.len();
    push_str_chars(&mut all, s);
    let c = all.len();
    push_str_chars(&mut all, ms);
    let d = all.len();
    assert(all@.subrange(0, a as int) =~= h@);
    assert(all@.subrange(a as int, b as int) =~= m@);
    assert(all@.subrange(b as int, c as int) =~= s@);
    assert(all@.subrange(c as int, d as int) =~= ms@);
    parse_ts_ranges(all.as_slice(), (0, a), (a, b), (b, c), (c, d))
}

/// `HH:MM:SS,mmm` for a time in milliseconds (negative times read as 0; hours
/// take more than two digits where needed).
#[verifier::opaque]
pub open spec fn ts_text(ms: int) -> Seq<char> {
    let t: nat = if ms < 0 {
        0
    } else {
        ms as nat
    };
    zero_pad(decimal(t / 3_600_000), 2) + seq![':'] + zero_pad(decimal((t % 3_600_000) / 60_000), 2)
        + seq![':'] + zero_pad(decimal((t % 60_000) / 1_000), 2) + seq![','] + zero_pad(
        decimal(t % 1_000),
        3,
    )
}

pub fn push_ts(out: &mut Vec<char>, ms: i64)
    ensures
        final(out)@ == old(out)@ + ts_text(ms as int),
{
    let t: u64 = if ms < 0 {
        0
    } else {
        ms as u64
    };
    let ghost start = out@;
    reveal(ts_text);
    push_padded(out, t / 3_600_000, 2);
    out.push(':');
    push_padded(out, (t % 3_600_000) / 60_000, 2);
    out.push(':');
    push_padded(out, (t % 60_000) / 1_000, 2);
    out.push(',');
    push_padded(out, t % 1_000, 3);
    assert(out@ =~= start + ts_text(ms as int));
}

/// Formats a time in milliseconds as an `.srt` timestamp `HH:MM:SS,mmm`.
pub fn format_ts(ms: i64) -> (res: String)
    ensures
        res@ == ts_text(ms as int),
{
    let mut out: Vec<char> = Vec::new();
    push_ts(&mut out, ms);
    assert(out@ =~= ts_text(ms as int));
    string_from_chars(out.as_slice())
}

// ---------------------------------------------------------------------------
// The order of formatted timestamps

/// Two strings of ASCII digits of one length with one value are the same.
proof fn lemma_digits_same_value(x: Seq<char>, y: Seq<char>)
    requires
        x.len() == y.len(),
        all_ascii_digits(x),
        all_ascii_digits(y),
        digits_value(x) == digits_value(y),
    ensures
        x == y,
    decreases x.len(),
{
    if x.len() == 0 {
        assert(x =~= y);
    } else {
        let (xs, ys) = (x.drop_last(), y.drop_last());
        assert(is_ascii_digit(x.last()) && is_ascii_digit(y.last()));
        assert(all_ascii_digits(xs) && all_ascii_digits(ys)) by {
            assert forall|i: int| 0 <= i < xs.len() implies is_ascii_digit(#[trigger] xs[i]) by {
                assert(xs[i] == x[i]);
            }
            assert forall|i: int| 0 <= i < ys.len() implies is_ascii_digit(#[trigger] ys[i]) by {
                assert(ys[i] == y[i]);
            }
        }
        lemma_digits_same_value(xs, ys);
        assert(x =~= xs.push(x.last()));
        assert(y =~= ys.push(y.last()));
    }
}

/// Of two strings of ASCII digits of one length, the one of smaller value
/// comes first.
proof fn lemma_digits_order(x: Seq<char>, y: Seq<char>)
    requires
        x.len() == y.len(),
        all_ascii_digits(x),
        all_ascii_digits(y),
        digits_value(x) < digits_value(y),
    ensures
        chars_lt(x, y),
    decreases x.len(),
{
    let (xs, ys) = (x.drop_last(), y.drop_last());
    assert(x.len() > 0);
    assert(is_ascii_digit(x.last()) && is_ascii_digit(y.last()));
    assert(all_ascii_digits(xs) && all_ascii_digits(ys)) by {
        assert forall|i: int| 0 <= i < xs.len() implies is_ascii_digit(#[trigger] xs[i]) by {
            assert(xs[i] == x[i]);
        }
        assert forall|i: int| 0 <= i < ys.len() implies is_ascii_digit(#[trigger] ys[i]) by {
            assert(ys[i] == y[i]);
        }
    }
    assert(x =~= xs + seq![x.last()]);
    assert(y =~= ys + seq![y.last()]);
    if digits_value(xs) == digits_value(ys) {
        lemma_digits_same_value(xs, ys);
        assert(x.last() < y.last());
        lemma_lt_common_start(xs, seq![x.last()], seq![y.last()]);
    } else {
        assert(digits_value(xs) < digits_value(ys));
        lemma_digits_order(xs, ys);
        lemma_lt_head(xs, ys, seq![x.last()], seq![y.last()]);
    }
}

/// The four fields of a time below 100 hours: hours, minutes, seconds and
/// milliseconds.
pub open spec fn ts_fields(t: nat) -> (nat, nat, nat, nat) {
    (t / 3_600_000, (t % 3_600_000) / 60_000, (t % 60_000) / 1_000, t % 1_000)
}

proof fn lemma_ts_fields(t: nat)
    requires
        t < 360_000_000,
    ensures
        ({
            let f = ts_fields(t);
            &&& f.0 < 100 && f.1 < 60 && f.2 < 60 && f.3 < 1000
            &&& t == f.0 * 3_600_000 + f.1 * 60_000 + f.2 * 1_000 + f.3
        }),
{
    let (h, m, s, x) = ts_fields(t);
    assert(h < 100 && m < 60 && s < 60 && x < 1000 && t == h * 3_600_000 + m * 60_000 + s * 1_000
        + x) by (nonlinear_arith)
        requires
            t < 360_000_000,
            h == t / 3_600_000,
            m == (t % 3_600_000) / 60_000,
            s == (t % 60_000) / 1_000,
            x == t % 1_000,
    ;
}

/// A field written with `w` digits.
proof fn lemma_field(v: nat, w: nat)
    requires
        w == 2 && v < 100 || w == 3 && v < 1000,
    ensures
        zero_pad(decimal(v), w).len() == w,
        all_ascii_digits(zero_pad(decimal(v), w)),
        digits_value(zero_pad(decimal(v), w)) == v,
{
    assert(crate::parse::pow10(0) == 1);
    assert(crate::parse::pow10(1) == 10);
    assert(crate::parse::pow10(2) == 100);
    assert(crate::parse::pow10(3) == 1000);
    crate::laws::lemma_padded_field(v, w);
}

/// Formatted timestamps of times from 0 up to 100 hours sort as the times do:
/// a later time gives a text that comes later, character by character (which
/// for these ASCII texts is the order of their bytes), and two times give the
/// same text exactly when they are equal.
pub proof fn law_ts_text_order(a: int, b: int)
    requires
        0 <= a < 360_000_000,
        0 <= b < 360_000_000,
    ensures
        a < b ==> chars_lt(ts_text(a), ts_text(b)),
        a <= b ==> chars_le(ts_text(a), ts_text(b)),
        ts_text(a) == ts_text(b) <==> a == b,
{
    crate::laws::lemma_ts_text_reads_back(a);
    crate::laws::lemma_ts_text_reads_back(b);
    if a < b {
        let (ha, ma, sa, xa) = ts_fields(a as nat);
        let (hb, mb, sb, xb) = ts_fields(b as nat);
        lemma_ts_fields(a as nat);
        lemma_ts_fields(b as nat);
        lemma_field(ha, 2);
        lemma_field(hb, 2);
        lemma_field(ma, 2);
        lemma_field(mb, 2);
        lemma_field(sa, 2);
        lemma_field(sb, 2);
        lemma_field(xa, 3);
        lemma_field(xb, 3);
        let (fha, fma, fsa, fxa) = (
            zero_pad(decimal(ha), 2),
            zero_pad(decimal(ma), 2),
            zero_pad(decimal(sa), 2),
            zero_pad(decimal(xa), 3),
        );
        let (fhb, fmb, fsb, fxb) = (
            zero_pad(decimal(hb), 2),
            zero_pad(decimal(mb), 2),
            zero_pad(decimal(sb), 2),
            zero_pad(decimal(xb), 3),
        );
        let c1 = seq![':'];
        let c3 = seq![','];
        reveal(ts_text);
        let ta = ts_text(a);
        let tb = ts_text(b);
        assert(ta =~= fha + (c1 + fma + c1 + fsa + c3 + fxa));
        assert(tb =~= fhb + (c1 + fmb + c1 + fsb + c3 + fxb));
        if ha != hb {
            assert(ha < hb);
            lemma_digits_order(fha, fhb);
            lemma_lt_head(fha, fhb, c1 + fma + c1 + fsa + c3 + fxa, c1 + fmb + c1 + fsb + c3 + fxb);
        } else {
            lemma_digits_same_value(fha, fhb);
            let p1 = fha + c1;
            assert(ta =~= p1 + (fma + (c1 + fsa + c3 + fxa)));
            assert(tb =~= p1 + (fmb + (c1 + fsb + c3 + fxb)));
            if ma != mb {
                assert(ma < mb);
                lemma_digits_order(fma, fmb);
                lemma_lt_head(fma, fmb, c1 + fsa + c3 + fxa, c1 + fsb + c3 + fxb);
                lemma_lt_common_start(p1, fma + (c1 + fsa + c3 + fxa), fmb + (c1 + fsb + c3 + fxb));
            } else {
                lemma_digits_same_value(fma, fmb);
                let p2 = fha + c1 + fma + c1;
                assert(ta =~= p2 + (fsa + (c3 + fxa)));
                assert(tb =~= p2 + (fsb + (c3 + fxb)));
                if sa != sb {
                    assert(sa < sb);
                    lemma_digits_order(fsa, fsb);
                    lemma_lt_head(fsa, fsb, c3 + fxa, c3 + fxb);
                    lemma_lt_common_start(p2, fsa + (c3 + fxa), fsb + (c3 + fxb));
                } else {
                    lemma_digits_same_value(fsa, fsb);
                    let p3 = fha + c1 + fma + c1 + fsa + c3;
                    assert(ta =~= p3 + fxa);
                    assert(tb =~= p3 + fxb);
                    assert(xa < xb);
                    lemma_digits_order(fxa, fxb);
                    lemma_lt_common_start(p3, fxa, fxb);
                }
            }
        }
    }
}

} // verus!
