use vstd::prelude::*;

use crate::cue::{cues_model, in_i64, push_ts, ts_text, CueModel, SrtCue};
use crate::text::{decimal, push_decimal, push_str_chars, string_from_chars};

verus! {

// ---------------------------------------------------------------------------
// Cutting cues to the window of one part

/// A cue touches the window `[offset, offset + duration)`.
pub open spec fn overlaps(c: CueModel, offset: int, duration: int) -> bool {
    !(c.end_ms <= offset || c.start_ms >= offset + duration)
}

/// The cue as it appears in the part that starts at `offset` and lasts
/// `duration`: shifted to the part's own clock and cut to `[0, duration]`;
/// `None` where nothing of it is left.
pub open spec fn clip_cue(c: CueModel, offset: int, duration: int) -> Option<CueModel> {
    if !overlaps(c, offset, duration) {
        None
    } else {
        let new_start = if c.start_ms - offset > 0 {
            c.start_ms - offset
        } else {
            0
        };
        let new_end = if c.end_ms - offset < duration {
            c.end_ms - offset
        } else {
            duration
        };
        if new_end <= new_start {
            None
        } else {
            Some(CueModel { index: 0, start_ms: new_start, end_ms: new_end, text: c.text })
        }
    }
}

/// The cues of one part, in the order of `cs`.
pub open spec fn clip_cues(cs: Seq<CueModel>, offset: int, duration: int) -> Seq<CueModel>
    decreases cs.len(),
{
    if cs.len() == 0 {
        seq![]
    } else {
        let prev = clip_cues(cs.drop_last(), offset, duration);
        match clip_cue(cs.last(), offset, duration) {
            Some(c) => prev.push(c),
            None => prev,
        }
    }
}

/// The arithmetic of cutting `cs` to a window stays within `i64`.
pub open spec fn clip_fits(cs: Seq<CueModel>, offset: int, duration: int) -> bool {
    &&& in_i64(offset + duration)
    &&& forall|i: int|
        0 <= i < cs.len() && overlaps(#[trigger] cs[i], offset, duration) ==> in_i64(
            cs[i].start_ms - offset,
        ) && in_i64(cs[i].end_ms - offset)
}

/// The cues of the part that starts at `part_offset_ms` and lasts
/// `part_duration_ms`, with times relative to the start of the part.
pub fn cues_for_part(cues: &[SrtCue], part_offset_ms: i64, part_duration_ms: i64) -> (res: Vec<
    SrtCue,
>)
    requires
        clip_fits(cues_model(cues@), part_offset_ms as int, part_duration_ms as int),
    ensures
        cues_model(res@) == clip_cues(
            cues_model(cues@),
            part_offset_ms as int,
            part_duration_ms as int,
        ),
{
    let ghost model = cues_model(cues@);
    let win_start = part_offset_ms;
    let win_end = part_offset_ms + part_duration_ms;
    let mut out: Vec<SrtCue> = Vec::new();
    let mut i: usize = 0;
    while i < cues.len()
        invariant
            i <= cues@.len(),
            model == cues_model(cues@),
            win_start == part_offset_ms,
            win_end == part_offset_ms + part_duration_ms,
            clip_fits(model, part_offset_ms as int, part_duration_ms as int),
            cues_model(out@) == clip_cues(
                model.take(i as int),
                part_offset_ms as int,
                part_duration_ms as int,
            ),
        decreases cues.len() - i,
    {
        let c = &cues[i];
        assert(model.take(i + 1).drop_last() =~= model.take(i as int));
        assert(model[i as int] == c@);
        if c.end_ms <= win_start || c.start_ms >= win_end {
            i = i + 1;
            continue;
        }
        let d1 = c.start_ms - win_start;
        let new_start = if d1 > 0 {
            d1
        } else {
            0
        };
        let d2 = c.end_ms - win_start;
        let new_end = if d2 < part_duration_ms {
            d2
        } else {
            part_duration_ms
        };
        if new_end <= new_start {
            i = i + 1;
            continue;
        }
        let ghost before = out@;
        out.push(SrtCue { index: 0, start_ms: new_start, end_ms: new_end, text: c.text.clone() });
        assert(cues_model(out@) =~= cues_model(before).push(out@.last()@));
        i = i + 1;
    }
    assert(model.take(cues@.len() as int) =~= model);
    out
}

// ---------------------------------------------------------------------------
// Writing `.srt` text

/// One block of an `.srt` file: its number, its time line, its text and the
/// blank line that ends it.
#[verifier::opaque]
pub open spec fn cue_block(number: nat, c: CueModel) -> Seq<char> {
    decimal(number) + seq!['\n'] + ts_text(c.start_ms) + seq![' ', '-', '-', '>', ' '] + ts_text(
        c.end_ms,
    ) + seq!['\n'] + c.text + seq!['\n', '\n']
}

/// The `.srt` text of a list of cues, numbered from 1.
pub open spec fn srt_text(cs: Seq<CueModel>) -> Seq<char>
    decreases cs.len(),
{
    if cs.len() == 0 {
        seq![]
    } else {
        srt_text(cs.drop_last()) + cue_block(cs.len(), cs.last())
    }
}

fn push_cue_block(out: &mut Vec<char>, number: usize, c: &SrtCue)
    ensures
        final(out)@ == old(out)@ + cue_block(number as nat, c@),
{
    let ghost start = out@;
    push_decimal(out, number as u64);
    out.push('\n');
    let ghost p1 = out@;
    assert(p1 =~= start + decimal(number as nat) + seq!['\n']);
    push_ts(out, c.start_ms);
    out.push(' ');
    out.push('-');
    out.push('-');
    out.push('>');
    out.push(' ');
    let ghost p2 = out@;
    assert(p2 =~= p1 + ts_text(c.start_ms as int) + seq![' ', '-', '-', '>', ' ']);
    push_ts(out, c.end_ms);
    out.push('\n');
    let ghost p3 = out@;
    assert(p3 =~= p2 + ts_text(c.end_ms as int) + seq!['\n']);
    push_str_chars(out, c.text.as_str());
    out.push('\n');
    out.push('\n');
    assert(out@ =~= p3 + c.text@ + seq!['\n', '\n']);
    reveal(cue_block);
    assert(out@ =~= start + cue_block(number as nat, c@));
}

fn push_srt_text(out: &mut Vec<char>, cues: &[SrtCue])
    ensures
        final(out)@ == old(out)@ + srt_text(cues_model(cues@)),
{
    let ghost model = cues_model(cues@);
    let ghost start = out@;
    let mut i: usize = 0;
    while i < cues.len()
        invariant
            i <= cues@.len(),
            model == cues_model(cues@),
            out@ == start + srt_text(model.take(i as int)),
        decreases cues.len() - i,
    {
        assert(model.take(i + 1).drop_last() =~= model.take(i as int));
        assert(model.take(i + 1).last() == cues@[i as int]@);
        push_cue_block(out, i + 1, &cues[i]);
        assert(out@ =~= start + srt_text(model.take(i + 1)));
        i = i + 1;
    }
    assert(model.take(cues@.len() as int) =~= model);
}

/// The `.srt` text of `cues`, numbered from 1.
pub fn serialize_srt(cues: &[SrtCue]) -> (res: String)
    ensures
        res@ == srt_text(cues_model(cues@)),
{
    let mut out: Vec<char> = Vec::new();
    push_srt_text(&mut out, cues);
    assert(out@ =~= srt_text(cues_model(cues@)));
    string_from_chars(out.as_slice())
}


// ---------------------------------------------------------------------------
// The subtitle files of all parts

/// Where part `k` starts: the sum of the durations of the parts before it.
pub open spec fn part_offset(durations: Seq<i64>, k: int) -> int
    decreases k,
{
    if k <= 0 {
        0
    } else {
        part_offset(durations, k - 1) + durations[k - 1]
    }
}

/// The running offsets and the cutting of every part stay within `i64`.
pub open spec fn split_fits(cs: Seq<CueModel>, durations: Seq<i64>) -> bool {
    &&& forall|k: int| 0 <= k <= durations.len() ==> in_i64(#[trigger] part_offset(durations, k))
    &&& forall|k: int|
        0 <= k < durations.len() ==> clip_fits(
            cs,
            #[trigger] part_offset(durations, k),
            durations[k] as int,
        )
}

/// The byte-order mark that starts every written subtitle file.
pub open spec fn bom() -> char {
    '\u{feff}'
}

/// The text of the subtitle file of part `k`: a byte-order mark, then the cues
/// of that part on the part's own clock.
pub open spec fn part_srt_text(cs: Seq<CueModel>, durations: Seq<i64>, k: int) -> Seq<char> {
    seq![bom()] + srt_text(clip_cues(cs, part_offset(durations, k), durations[k] as int))
}

pub open spec fn parts_mismatch_message() -> Seq<char> {
    "Número de partes e caminhos SRT não coincidem."@
}

/// The text of the subtitle file of each part, for parts of the given durations
/// that follow each other from time 0; an error where the number of durations
/// is not the number of files to write.
pub fn split_srt_parts(cues: &[SrtCue], part_durations_ms: &[i64], n_outputs: usize) -> (res:
    Result<Vec<String>, String>)
    requires
        part_durations_ms@.len() == n_outputs ==> split_fits(
            cues_model(cues@),
            part_durations_ms@,
        ),
    ensures
        match res {
            Err(e) => part_durations_ms@.len() != n_outputs && e@ == parts_mismatch_message(),
            Ok(texts) => {
                &&& part_durations_ms@.len() == n_outputs
                &&& texts@.len() == n_outputs
                &&& forall|k: int|
                    0 <= k < n_outputs ==> (#[trigger] texts@[k])@ == part_srt_text(
                        cues_model(cues@),
                        part_durations_ms@,
                        k,
                    )
            },
        },
{
    if part_durations_ms.len() != n_outputs {
        let e = String::from_str("Número de partes e caminhos SRT não coincidem.");
        return Err(e);
    }
    let ghost model = cues_model(cues@);
    let ghost durs = part_durations_ms@;
    let mut texts: Vec<String> = Vec::new();
    let mut offset_ms: i64 = 0;
    let mut i: usize = 0;
    while i < part_durations_ms.len()
        invariant
            i <= durs.len(),
            durs == part_durations_ms@,
            model == cues_model(cues@),
            split_fits(model, durs),
            offset_ms == part_offset(durs, i as int),
            texts@.len() == i,
            forall|k: int|
                0 <= k < i ==> (#[trigger] texts@[k])@ == part_srt_text(model, durs, k),
        decreases durs.len() - i,
    {
        let dur = part_durations_ms[i];
        assert(clip_fits(model, part_offset(durs, i as int), durs[i as int] as int));
        let part_cues = cues_for_part(cues, offset_ms, dur);
        let mut out: Vec<char> = Vec::new();
        out.push('\u{feff}');
        push_srt_text(&mut out, part_cues.as_slice());
        assert(out@ =~= part_srt_text(model, durs, i as int));
        texts.push(string_from_chars(out.as_slice()));
        assert(in_i64(part_offset(durs, i + 1)));
        offset_ms = offset_ms + dur;
        i = i + 1;
    }
    Ok(texts)
}

/// Whether cutting `cues` into parts of the given durations stays within
/// `i64` (see `split_fits`).
pub fn split_fits_exec(cues: &[SrtCue], part_durations_ms: &[i64]) -> (r: bool)
    ensures
        r == split_fits(cues_model(cues@), part_durations_ms@),
{
    let ghost model = cues_model(cues@);
    let ghost durs = part_durations_ms@;
    let mut offset: i128 = 0;
    let mut k: usize = 0;
    while k < part_durations_ms.len()
        invariant
            k <= durs.len(),
            durs == part_durations_ms@,
            model == cues_model(cues@),
            offset == part_offset(durs, k as int),
            forall|m: int| 0 <= m <= k ==> in_i64(#[trigger] part_offset(durs, m)),
            forall|m: int| 0 <= m < k ==> clip_fits(model, #[trigger] part_offset(durs, m), durs[m] as int),
        decreases durs.len() - k,
    {
        let dur = part_durations_ms[k] as i128;
        let win_end = offset + dur;
        if win_end < i64::MIN as i128 || win_end > i64::MAX as i128 {
            proof {
                assert(part_offset(durs, k + 1) == win_end);
                assert(!clip_fits(model, part_offset(durs, k as int), durs[k as int] as int));
            }
            return false;
        }
        let mut i: usize = 0;
        while i < cues.len()
            invariant
                i <= cues@.len(),
                model == cues_model(cues@),
                offset == part_offset(durs, k as int),
                k < durs.len(),
                durs == part_durations_ms@,
                dur == durs[k as int],
                win_end == offset + dur,
                forall|j: int|
                    0 <= j < i && overlaps(#[trigger] model[j], offset as int, dur as int) ==> in_i64(
                        model[j].start_ms - offset,
                    ) && in_i64(model[j].end_ms - offset),
            decreases cues.len() - i,
        {
            let c = &cues[i];
            assert(model[i as int] == c@);
            let s = c.start_ms as i128;
            let e = c.end_ms as i128;
            if !(e <= offset || s >= win_end) {
                let ds = s - offset;
                let de = e - offset;
                if ds < i64::MIN as i128 || ds > i64::MAX as i128 || de < i64::MIN as i128 || de
                    > i64::MAX as i128 {
                    proof {
                        assert(overlaps(model[i as int], offset as int, dur as int));
                        assert(!clip_fits(model, part_offset(durs, k as int), durs[k as int] as int));
                    }
                    return false;
                }
            }
            i = i + 1;
        }
        proof {
            assert(clip_fits(model, part_offset(durs, k as int), durs[k as int] as int));
            assert(part_offset(durs, k + 1) == win_end);
            assert forall|m: int| 0 <= m <= k + 1 implies in_i64(#[trigger] part_offset(durs, m)) by {
                if m == k + 1 {
                } else {
                }
            }
        }
        offset = win_end;
        k = k + 1;
    }
    true
}

} // verus!
