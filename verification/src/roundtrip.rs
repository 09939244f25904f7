use vstd::prelude::*;

use crate::parse::{block_error, blocks_error, block_lines, lines_cue, block_cue, cues_of_blocks, find_char_from, split_blank, split_blank_from, time_line_positions, time_line_times, ts_shape_at, ts_value_at, ws_run};
use crate::cue::{ts_text, CueModel};
use crate::parts::{cue_block, srt_text};
use crate::text::{all_ascii_digits, decimal, lemma_decimal_digits, spec_parse_usize};
use crate::laws::lemma_ts_text_reads_back;
use crate::text::{is_ascii_digit, is_white_space, trim, trim_start};

verus! {

/// `s` holds no blank line: no `\n` directly followed by another.
pub open spec fn no_blank(s: Seq<char>) -> bool {
    forall|k: int| 0 <= k < s.len() - 1 ==> !(#[trigger] s[k] == '\n' && s[k + 1] == '\n')
}

pub open spec fn no_char(s: Seq<char>, c: char) -> bool {
    forall|k: int| 0 <= k < s.len() ==> #[trigger] s[k] != c
}

pub proof fn lemma_no_blank_concat(x: Seq<char>, y: Seq<char>)
    requires
        no_blank(x),
        no_blank(y),
        x.len() == 0 || y.len() == 0 || !(x.last() == '\n' && y[0] == '\n'),
    ensures
        no_blank(x + y),
{
    let s = x + y;
    assert forall|k: int| 0 <= k < s.len() - 1 implies !(#[trigger] s[k] == '\n' && s[k + 1] == '\n') by {
        if k + 1 < x.len() {
            assert(s[k] == x[k] && s[k + 1] == x[k + 1]);
        } else if k >= x.len() {
            assert(s[k] == y[k - x.len()] && s[k + 1] == y[k + 1 - x.len()]);
        } else {
            assert(s[k] == x.last() && s[k + 1] == y[0]);
        }
    }
}

pub proof fn lemma_no_blank_of_no_newline(x: Seq<char>)
    requires
        no_char(x, '\n'),
    ensures
        no_blank(x),
{
    assert forall|k: int| 0 <= k < x.len() - 1 implies !(#[trigger] x[k] == '\n' && x[k + 1] == '\n') by {
        assert(x[k] != '\n');
    }
}

pub proof fn lemma_no_char_concat(x: Seq<char>, y: Seq<char>, c: char)
    requires
        no_char(x, c),
        no_char(y, c),
    ensures
        no_char(x + y, c),
{
    assert forall|k: int| 0 <= k < (x + y).len() implies #[trigger] (x + y)[k] != c by {
        if k < x.len() {
            assert((x + y)[k] == x[k]);
        } else {
            assert((x + y)[k] == y[k - x.len()]);
        }
    }
}

// ---------------------------------------------------------------------------
// Splitting at blank lines

proof fn lemma_split_cut(s: Seq<char>, start: int, i: int, j: int)
    requires
        0 <= start <= i <= j,
        j + 1 < s.len(),
        s[j] == '\n',
        s[j + 1] == '\n',
        forall|k: int| i <= k < j ==> !(#[trigger] s[k] == '\n' && s[k + 1] == '\n'),
    ensures
        split_blank_from(s, start, i) == seq![s.subrange(start, j)] + split_blank_from(
            s,
            j + 2,
            j + 2,
        ),
    decreases j - i,
{
    if i < j {
        lemma_split_cut(s, start, i + 1, j);
    }
}

proof fn lemma_split_end(s: Seq<char>, start: int, i: int)
    requires
        0 <= start <= i,
        forall|k: int| i <= k < s.len() - 1 ==> !(#[trigger] s[k] == '\n' && s[k + 1] == '\n'),
    ensures
        split_blank_from(s, start, i) == seq![s.subrange(start, s.len() as int)],
    decreases s.len() - i,
{
    if i + 1 < s.len() {
        lemma_split_end(s, start, i + 1);
    }
}

proof fn lemma_split_shift(p: Seq<char>, q: Seq<char>, a: int, b: int)
    requires
        0 <= a <= b <= q.len(),
    ensures
        split_blank_from(p + q, p.len() + a, p.len() + b) == split_blank_from(q, a, b),
    decreases q.len() - b,
{
    let s = p + q;
    let o = p.len() as int;
    if b + 1 >= q.len() {
        assert(s.subrange(o + a, s.len() as int) =~= q.subrange(a, q.len() as int));
    } else {
        assert(s[o + b] == q[b]);
        assert(s[o + b + 1] == q[b + 1]);
        if q[b] == '\n' && q[b + 1] == '\n' {
            assert(s.subrange(o + a, o + b) =~= q.subrange(a, b));
            lemma_split_shift(p, q, b + 2, b + 2);
        } else {
            lemma_split_shift(p, q, a, b + 1);
        }
    }
}

/// A piece without blank lines, not ending in `\n`, followed by a blank line,
/// is the first piece.
pub proof fn lemma_split_first_piece(piece: Seq<char>, rest: Seq<char>)
    requires
        no_blank(piece),
        piece.len() > 0,
        piece.last() != '\n',
    ensures
        split_blank(piece + seq!['\n', '\n'] + rest) == seq![piece] + split_blank(rest),
{
    let s = piece + seq!['\n', '\n'] + rest;
    let j = piece.len() as int;
    assert forall|k: int| 0 <= k < j implies !(#[trigger] s[k] == '\n' && s[k + 1] == '\n') by {
        if k + 1 < j {
            assert(s[k] == piece[k] && s[k + 1] == piece[k + 1]);
        } else {
            assert(s[k] == piece.last());
        }
    }
    lemma_split_cut(s, 0, 0, j);
    assert(s.subrange(0, j) =~= piece);
    let p = piece + seq!['\n', '\n'];
    assert(s =~= p + rest);
    lemma_split_shift(p, rest, 0, 0);
}

/// Text of at most one character after which nothing follows is one piece.
pub proof fn lemma_split_short(s: Seq<char>)
    requires
        s.len() <= 1,
    ensures
        split_blank(s) == seq![s],
{
    assert(s.subrange(0, s.len() as int) =~= s);
}

// ---------------------------------------------------------------------------
// Reading blocks

pub proof fn lemma_cues_of_blocks_concat(a: Seq<Seq<char>>, b: Seq<Seq<char>>)
    ensures
        cues_of_blocks(a + b) == cues_of_blocks(a) + cues_of_blocks(b),
    decreases b.len(),
{
    if b.len() == 0 {
        assert(a + b =~= a);
        assert(cues_of_blocks(a) + cues_of_blocks(b) =~= cues_of_blocks(a));
    } else {
        lemma_cues_of_blocks_concat(a, b.drop_last());
        assert((a + b).drop_last() =~= a + b.drop_last());
        assert((a + b).last() == b.last());
        let prev_a = cues_of_blocks(a);
        let prev_b = cues_of_blocks(b.drop_last());
        match block_cue(trim(b.last())) {
            Some(c) => {
                assert(prev_a + prev_b.push(c) =~= (prev_a + prev_b).push(c));
            },
            None => {},
        }
    }
}

pub proof fn lemma_blocks_error_concat(a: Seq<Seq<char>>, b: Seq<Seq<char>>)
    requires
        blocks_error(a) is None,
    ensures
        blocks_error(a + b) == blocks_error(b),
    decreases b.len(),
{
    if b.len() == 0 {
        assert(a + b =~= a);
    } else {
        lemma_blocks_error_concat(a, b.drop_last());
        assert((a + b).drop_last() =~= a + b.drop_last());
        assert((a + b).last() == b.last());
    }
}

pub proof fn lemma_trim_plain(x: Seq<char>)
    requires
        x.len() > 0,
        !is_white_space(x[0]),
        !is_white_space(x.last()),
    ensures
        trim(x) == x,
{
}

pub proof fn lemma_trim_newline_lead(x: Seq<char>)
    requires
        x.len() > 0,
        !is_white_space(x[0]),
        !is_white_space(x.last()),
    ensures
        trim(seq!['\n'] + x) == x,
{
    let y = seq!['\n'] + x;
    assert(is_white_space('\n'));
    assert(y.drop_first() =~= x);
    assert(trim_start(y) == trim_start(x));
}

pub proof fn lemma_find_at(t: Seq<char>, c: char, i: int, j: int)
    requires
        0 <= i <= j < t.len(),
        t[j] == c,
        forall|k: int| i <= k < j ==> #[trigger] t[k] != c,
    ensures
        find_char_from(t, c, i) == Some(j),
    decreases j - i,
{
    if i < j {
        lemma_find_at(t, c, i + 1, j);
    }
}

pub proof fn lemma_find_none(t: Seq<char>, c: char, i: int)
    requires
        0 <= i,
        forall|k: int| i <= k < t.len() ==> #[trigger] t[k] != c,
    ensures
        find_char_from(t, c, i) is None,
    decreases t.len() - i,
{
    if i < t.len() {
        lemma_find_none(t, c, i + 1);
    }
}

// ---------------------------------------------------------------------------
// The time line

pub open spec fn time_line_text(start: int, end: int) -> Seq<char> {
    ts_text(start) + seq![' ', '-', '-', '>', ' '] + ts_text(end)
}

proof fn lemma_ts_text_chars(t: int)
    requires
        0 <= t < 360_000_000,
    ensures
        no_char(ts_text(t), '\n'),
        no_char(ts_text(t), '\r'),
        is_ascii_digit(ts_text(t)[0]),
        is_ascii_digit(ts_text(t)[11]),
{
    lemma_ts_text_reads_back(t);
    let x = ts_text(t);
    assert(x[2] == ':' && x[5] == ':');
    assert(x[8] == ',' || x[8] == '.');
    assert forall|k: int| 0 <= k < x.len() implies #[trigger] x[k] != '\n' && x[k] != '\r' by {
        assert(k == 0 || k == 1 || k == 2 || k == 3 || k == 4 || k == 5 || k == 6 || k == 7 || k
            == 8 || k == 9 || k == 10 || k == 11);
    }
}

proof fn lemma_ts_embedded(l: Seq<char>, a: Seq<char>, off: int)
    requires
        a.len() == 12,
        ts_shape_at(a, 0),
        0 <= off,
        off + 12 <= l.len(),
        l.subrange(off, off + 12) == a,
    ensures
        ts_shape_at(l, off),
        ts_value_at(l, off) == ts_value_at(a, 0),
{
    let w = l.subrange(off, off + 12);
    assert(l[off] == w[0] && l[off + 1] == w[1] && l[off + 2] == w[2] && l[off + 3] == w[3]);
    assert(l[off + 4] == w[4] && l[off + 5] == w[5] && l[off + 6] == w[6] && l[off + 7] == w[7]);
    assert(l[off + 8] == w[8] && l[off + 9] == w[9] && l[off + 10] == w[10] && l[off + 11] == w[11]);
    assert(l.subrange(off, off + 2) =~= a.subrange(0, 2));
    assert(l.subrange(off + 3, off + 5) =~= a.subrange(3, 5));
    assert(l.subrange(off + 6, off + 8) =~= a.subrange(6, 8));
    assert(l.subrange(off + 9, off + 12) =~= a.subrange(9, 12));
}

proof fn lemma_time_line_chars(start: int, end: int)
    requires
        0 <= start < 360_000_000,
        0 <= end < 360_000_000,
    ensures
        time_line_text(start, end).len() == 29,
        no_char(time_line_text(start, end), '\n'),
        no_char(time_line_text(start, end), '\r'),
        is_ascii_digit(time_line_text(start, end)[0]),
        is_ascii_digit(time_line_text(start, end)[28]),
{
    lemma_ts_text_reads_back(start);
    lemma_ts_text_reads_back(end);
    lemma_ts_text_chars(start);
    lemma_ts_text_chars(end);
    let a = ts_text(start);
    let b = ts_text(end);
    let sep = seq![' ', '-', '-', '>', ' '];
    let l = time_line_text(start, end);
    assert(no_char(sep, '\n'));
    assert(no_char(sep, '\r'));
    lemma_no_char_concat(a, sep, '\n');
    lemma_no_char_concat(a + sep, b, '\n');
    lemma_no_char_concat(a, sep, '\r');
    lemma_no_char_concat(a + sep, b, '\r');
    assert(l[0] == a[0]);
    assert(l[28] == b[11]);
}

/// The time line of a cue with times below 100 hours reads back as its times.
pub proof fn lemma_time_line_reads_back(start: int, end: int)
    requires
        0 <= start < 360_000_000,
        0 <= end < 360_000_000,
    ensures
        time_line_text(start, end).len() == 29,
        no_char(time_line_text(start, end), '\n'),
        no_char(time_line_text(start, end), '\r'),
        is_ascii_digit(time_line_text(start, end)[0]),
        is_ascii_digit(time_line_text(start, end)[28]),
        time_line_times(time_line_text(start, end)) == Some((start, end)),
{
    lemma_time_line_chars(start, end);
    lemma_ts_text_reads_back(start);
    lemma_ts_text_reads_back(end);
    let a = ts_text(start);
    let b = ts_text(end);
    let l = time_line_text(start, end);
    assert(l.subrange(0, 12) =~= a);
    lemma_ts_embedded(l, a, 0);
    assert(l.subrange(17, 29) =~= b);
    lemma_ts_embedded(l, b, 17);
    assert(ws_run(l, 12) == 1) by {
        assert(l[12] == ' ' && l[13] == '-');
        assert(is_white_space(' '));
        assert(!is_white_space('-'));
        assert(ws_run(l, 13) == 0);
    }
    assert(ws_run(l, 16) == 1) by {
        assert(l[16] == ' ');
        assert(is_white_space(' '));
        assert(!is_white_space(l[17]));
        assert(ws_run(l, 17) == 0);
    }
    assert(l[13] == '-' && l[14] == '-' && l[15] == '>');
    assert(time_line_positions(l) == Some((0int, 17int)));
}

// ---------------------------------------------------------------------------
// Blocks that read back

/// A cue text that survives writing and reading: no `\r`, no blank line, not
/// starting with `\n` and not ending with white space.
pub open spec fn text_round_trips(t: Seq<char>) -> bool {
    &&& no_char(t, '\r')
    &&& no_blank(t)
    &&& t.len() > 0 ==> t[0] != '\n' && !is_white_space(t.last())
}

/// A cue that survives writing and reading: it starts at or after 0, ends
/// after it starts and before 100 hours, and its text survives.
pub open spec fn cue_round_trips(c: CueModel) -> bool {
    &&& 0 <= c.start_ms < c.end_ms < 360_000_000
    &&& text_round_trips(c.text)
}

/// The cue with the number `n`.
pub open spec fn renumbered(c: CueModel, n: nat) -> CueModel {
    CueModel { index: n, start_ms: c.start_ms, end_ms: c.end_ms, text: c.text }
}

/// The cues numbered from `n` on.
pub open spec fn numbered(cs: Seq<CueModel>, n: nat) -> Seq<CueModel> {
    Seq::new(cs.len(), |i: int| renumbered(cs[i], (n + i) as nat))
}

/// A block as it stands after trimming: number line, time line, and the text
/// where there is one.
pub open spec fn block_core(n: nat, c: CueModel) -> Seq<char> {
    if c.text.len() > 0 {
        decimal(n) + seq!['\n'] + time_line_text(c.start_ms, c.end_ms) + seq!['\n'] + c.text
    } else {
        decimal(n) + seq!['\n'] + time_line_text(c.start_ms, c.end_ms)
    }
}

proof fn lemma_digits_no_newline(d: Seq<char>)
    requires
        all_ascii_digits(d),
    ensures
        no_char(d, '\n'),
        no_char(d, '\r'),
        forall|k: int| 0 <= k < d.len() ==> !is_white_space(#[trigger] d[k]),
{
    assert forall|k: int| 0 <= k < d.len() implies #[trigger] d[k] != '\n' && d[k] != '\r'
        && !is_white_space(d[k]) by {
        assert(is_ascii_digit(d[k]));
    }
}

proof fn lemma_number_line(n: nat)
    requires
        n <= usize::MAX,
    ensures
        decimal(n).len() >= 1,
        no_char(decimal(n), '\n'),
        no_char(decimal(n), '\r'),
        !is_white_space(decimal(n)[0]),
        is_ascii_digit(decimal(n)[0]),
        spec_parse_usize(trim(decimal(n))) == Some(n),
{
    let d = decimal(n);
    lemma_decimal_digits(n);
    lemma_digits_no_newline(d);
    assert(is_ascii_digit(d[0]));
    assert(!is_white_space(d.last()));
    lemma_trim_plain(d);
}

pub open spec fn block_head(n: nat, c: CueModel) -> Seq<char> {
    decimal(n) + seq!['\n'] + time_line_text(c.start_ms, c.end_ms)
}

proof fn lemma_block_head(n: nat, c: CueModel)
    requires
        cue_round_trips(c),
        n <= usize::MAX,
    ensures
        ({
            let d = decimal(n);
            let h = block_head(n, c);
            &&& d.len() >= 1
            &&& h.len() == d.len() + 30
            &&& no_blank(h)
            &&& no_char(h, '\r')
            &&& is_ascii_digit(h[0])
            &&& !is_white_space(h[0])
            &&& is_ascii_digit(h.last())
            &&& !is_white_space(h.last())
            &&& h.subrange(0, d.len() as int) == d
            &&& h.subrange(d.len() + 1int, h.len() as int) == time_line_text(c.start_ms, c.end_ms)
            &&& spec_parse_usize(trim(d)) == Some(n)
            &&& time_line_times(time_line_text(c.start_ms, c.end_ms)) == Some((c.start_ms, c.end_ms))
        }),
{
    let d = decimal(n);
    let l = time_line_text(c.start_ms, c.end_ms);
    lemma_number_line(n);
    lemma_time_line_reads_back(c.start_ms, c.end_ms);
    let nl = seq!['\n'];
    assert(no_char(nl, '\r'));
    assert(no_blank(nl));
    lemma_no_blank_of_no_newline(d);
    lemma_no_blank_of_no_newline(l);
    lemma_no_blank_concat(d, nl);
    lemma_no_blank_concat(d + nl, l);
    lemma_no_char_concat(d, nl, '\r');
    lemma_no_char_concat(d + nl, l, '\r');
    let head = block_head(n, c);
    assert(head =~= d + nl + l);
    assert(head[0] == d[0]);
    assert(head.last() == l[28]);
    assert(!is_white_space(l[28])) by {
        assert(is_ascii_digit(l[28]));
    }
    assert(head.subrange(0, d.len() as int) =~= d);
    assert(head.subrange(d.len() + 1int, head.len() as int) =~= l);
}

proof fn lemma_lines_of_three(d: Seq<char>, l: Seq<char>, t: Seq<char>)
    requires
        no_char(d, '\n'),
        no_char(l, '\n'),
    ensures
        block_lines(d + seq!['\n'] + l + seq!['\n'] + t) == Some((d, l, t)),
{
    let b = d + seq!['\n'] + l + seq!['\n'] + t;
    let i = d.len() as int;
    let j: int = d.len() + 1 + l.len() as int;
    assert forall|k: int| 0 <= k < i implies #[trigger] b[k] != '\n' by {
        assert(b[k] == d[k]);
    }
    lemma_find_at(b, '\n', 0, i);
    assert forall|k: int| i + 1 <= k < j implies #[trigger] b[k] != '\n' by {
        assert(b[k] == l[k - i - 1]);
    }
    lemma_find_at(b, '\n', i + 1, j);
    assert(b.subrange(0, i) =~= d);
    assert(b.subrange(i + 1, j) =~= l);
    assert(b.subrange(j + 1, b.len() as int) =~= t);
}

proof fn lemma_lines_of_two(d: Seq<char>, l: Seq<char>)
    requires
        no_char(d, '\n'),
        no_char(l, '\n'),
    ensures
        block_lines(d + seq!['\n'] + l) == Some((d, l, Seq::<char>::empty())),
{
    let b = d + seq!['\n'] + l;
    let i = d.len() as int;
    assert forall|k: int| 0 <= k < i implies #[trigger] b[k] != '\n' by {
        assert(b[k] == d[k]);
    }
    lemma_find_at(b, '\n', 0, i);
    assert forall|k: int| i + 1 <= k < b.len() implies #[trigger] b[k] != '\n' by {
        assert(b[k] == l[k - i - 1]);
    }
    lemma_find_none(b, '\n', i + 1);
    assert(b.subrange(0, i) =~= d);
    assert(b.subrange(i + 1, b.len() as int) =~= l);
}

proof fn lemma_block_core_with_text(n: nat, c: CueModel)
    requires
        cue_round_trips(c),
        n <= usize::MAX,
        c.text.len() > 0,
    ensures
        block_core(n, c).len() > 0,
        no_blank(block_core(n, c)),
        no_char(block_core(n, c), '\r'),
        is_ascii_digit(block_core(n, c)[0]),
        !is_white_space(block_core(n, c)[0]),
        !is_white_space(block_core(n, c).last()),
        block_core(n, c).last() != '\n',
        block_cue(block_core(n, c)) == Some(renumbered(c, n)),
        block_error(block_core(n, c)) is None,
        cue_block(n, c) == block_core(n, c) + seq!['\n', '\n'],
{
    let d = decimal(n);
    let l = time_line_text(c.start_ms, c.end_ms);
    let t = c.text;
    let head = block_head(n, c);
    let nl = seq!['\n'];
    let core = block_core(n, c);
    assert(core =~= head + nl + t);
    assert(no_blank(core) && no_char(core, '\r') && is_ascii_digit(core[0])) by {
        lemma_block_head(n, c);
        assert(no_char(nl, '\r'));
        assert(no_blank(nl));
        lemma_no_blank_concat(head, nl);
        lemma_no_blank_concat(head + nl, t);
        lemma_no_char_concat(head, nl, '\r');
        lemma_no_char_concat(head + nl, t, '\r');
        assert(core[0] == head[0]);
    }
    assert(!is_white_space(core[0])) by {
        assert(is_ascii_digit(core[0]));
    }
    assert(core.last() == t.last());
    assert(block_cue(core) == Some(renumbered(c, n))) by {
        lemma_number_line(n);
        lemma_time_line_reads_back(c.start_ms, c.end_ms);
        lemma_lines_of_three(d, l, t);
        assert(core =~= d + nl + l + nl + t);
        assert(lines_cue(d, l, t) == Some(renumbered(c, n)));
        reveal(block_cue);
    }
    assert(block_error(core) is None) by {
        lemma_number_line(n);
        lemma_time_line_reads_back(c.start_ms, c.end_ms);
        lemma_lines_of_three(d, l, t);
        assert(core =~= d + nl + l + nl + t);
    }
    assert(cue_block(n, c) =~= core + seq!['\n', '\n']) by {
        reveal(cue_block);
    }
}

proof fn lemma_block_core_without_text(n: nat, c: CueModel)
    requires
        cue_round_trips(c),
        n <= usize::MAX,
        c.text.len() == 0,
    ensures
        block_core(n, c).len() > 0,
        no_blank(block_core(n, c)),
        no_char(block_core(n, c), '\r'),
        is_ascii_digit(block_core(n, c)[0]),
        !is_white_space(block_core(n, c)[0]),
        !is_white_space(block_core(n, c).last()),
        block_core(n, c).last() != '\n',
        block_cue(block_core(n, c)) == Some(renumbered(c, n)),
        block_error(block_core(n, c)) is None,
        cue_block(n, c) == block_core(n, c) + seq!['\n', '\n'] + seq!['\n'],
{
    let d = decimal(n);
    let l = time_line_text(c.start_ms, c.end_ms);
    let core = block_core(n, c);
    let head = block_head(n, c);
    assert(c.text =~= Seq::<char>::empty());
    assert(core =~= head);
    assert(no_blank(core) && no_char(core, '\r') && is_ascii_digit(core[0]) && is_ascii_digit(core.last())) by {
        lemma_block_head(n, c);
    }
    assert(!is_white_space(core[0]) && !is_white_space(core.last()) && core.last() != '\n') by {
        assert(is_ascii_digit(core[0]));
        assert(is_ascii_digit(core.last()));
    }
    assert(block_cue(core) == Some(renumbered(c, n))) by {
        lemma_number_line(n);
        lemma_time_line_reads_back(c.start_ms, c.end_ms);
        lemma_lines_of_two(d, l);
        assert(core =~= d + seq!['\n'] + l);
        assert(c.text =~= Seq::<char>::empty());
        assert(lines_cue(d, l, c.text) == Some(renumbered(c, n)));
        reveal(block_cue);
    }
    assert(block_error(core) is None) by {
        lemma_number_line(n);
        lemma_time_line_reads_back(c.start_ms, c.end_ms);
        lemma_lines_of_two(d, l);
        assert(core =~= d + seq!['\n'] + l);
    }
    assert(cue_block(n, c) =~= core + seq!['\n', '\n'] + seq!['\n']) by {
        reveal(cue_block);
        assert(cue_block(n, c) =~= d + seq!['\n'] + l + seq!['\n'] + c.text + seq!['\n', '\n']);
    }
}

// ---------------------------------------------------------------------------
// Whole texts that read back

/// The `.srt` text of `cs` numbered from `n`, block after block.
pub open spec fn srt_text_from(cs: Seq<CueModel>, n: nat) -> Seq<char>
    decreases cs.len(),
{
    if cs.len() == 0 {
        seq![]
    } else {
        cue_block(n, cs[0]) + srt_text_from(cs.drop_first(), n + 1)
    }
}

proof fn lemma_srt_text_from_push(a: Seq<CueModel>, x: CueModel, n: nat)
    ensures
        srt_text_from(a.push(x), n) == srt_text_from(a, n) + cue_block(n + a.len(), x),
    decreases a.len(),
{
    if a.len() == 0 {
        assert(a.push(x).drop_first() =~= Seq::<CueModel>::empty());
        assert(a.push(x)[0] == x);
        assert(srt_text_from(Seq::<CueModel>::empty(), n + 1) == Seq::<char>::empty());
        assert(srt_text_from(a, n) == Seq::<char>::empty());
        assert(srt_text_from(a.push(x), n) == cue_block(n, x) + srt_text_from(a.push(x).drop_first(), n + 1));
        assert(srt_text_from(a.push(x), n) =~= srt_text_from(a, n) + cue_block(n + a.len(), x));
    } else {
        assert(a.push(x).drop_first() =~= a.drop_first().push(x));
        assert(a.push(x)[0] == a[0]);
        lemma_srt_text_from_push(a.drop_first(), x, n + 1);
        assert(n + 1 + a.drop_first().len() == n + a.len());
        let ax = a.push(x);
        assert(srt_text_from(ax, n) == cue_block(n, ax[0]) + srt_text_from(ax.drop_first(), n + 1));
        assert(srt_text_from(ax.drop_first(), n + 1) == srt_text_from(a.drop_first(), n + 1) + cue_block(n + a.len(), x));
        assert(srt_text_from(a, n) == cue_block(n, a[0]) + srt_text_from(a.drop_first(), n + 1));
        assert(srt_text_from(a.push(x), n) =~= srt_text_from(a, n) + cue_block(n + a.len(), x));
    }
}

pub proof fn lemma_srt_text_front(cs: Seq<CueModel>)
    ensures
        srt_text(cs) == srt_text_from(cs, 1),
    decreases cs.len(),
{
    if cs.len() > 0 {
        lemma_srt_text_front(cs.drop_last());
        lemma_srt_text_from_push(cs.drop_last(), cs.last(), 1);
        assert(cs.drop_last().push(cs.last()) =~= cs);
    }
}

proof fn lemma_block_core(n: nat, c: CueModel)
    requires
        cue_round_trips(c),
        n <= usize::MAX,
    ensures
        block_core(n, c).len() > 0,
        no_blank(block_core(n, c)),
        no_char(block_core(n, c), '\r'),
        is_ascii_digit(block_core(n, c)[0]),
        !is_white_space(block_core(n, c)[0]),
        !is_white_space(block_core(n, c).last()),
        block_core(n, c).last() != '\n',
        block_cue(block_core(n, c)) == Some(renumbered(c, n)),
        block_error(block_core(n, c)) is None,
        c.text.len() > 0 ==> cue_block(n, c) == block_core(n, c) + seq!['\n', '\n'],
        c.text.len() == 0 ==> cue_block(n, c) == block_core(n, c) + seq!['\n', '\n'] + seq!['\n'],
{
    if c.text.len() > 0 {
        lemma_block_core_with_text(n, c);
    } else {
        lemma_block_core_without_text(n, c);
    }
}

/// The text of well-formed cues, after an optional `\n`, reads back as the
/// cues numbered from `n`.
#[verifier::spinoff_prover]
#[verifier::rlimit(40)]
pub proof fn lemma_text_reads_back(cs: Seq<CueModel>, n: nat, lead: Seq<char>)
    requires
        lead == Seq::<char>::empty() || lead == seq!['\n'],
        forall|i: int| 0 <= i < cs.len() ==> cue_round_trips(#[trigger] cs[i]),
        1 <= n,
        n + cs.len() <= usize::MAX + 1,
    ensures
        cues_of_blocks(split_blank(lead + srt_text_from(cs, n))) == numbered(cs, n),
        blocks_error(split_blank(lead + srt_text_from(cs, n))) is None,
        no_char(srt_text_from(cs, n), '\r'),
        cs.len() > 0 ==> is_ascii_digit(srt_text_from(cs, n)[0]),
    decreases cs.len(),
{
    if cs.len() == 0 {
        assert(lead + srt_text_from(cs, n) =~= lead);
        lemma_split_short(lead);
        assert(trim(lead) =~= Seq::<char>::empty()) by {
            if lead.len() > 0 {
                assert(is_white_space('\n'));
                assert(lead.drop_first() =~= Seq::<char>::empty());
                assert(trim_start(lead) == trim_start(lead.drop_first()));
            } else {
                assert(lead =~= Seq::<char>::empty());
            }
            assert(trim_start(lead) =~= Seq::<char>::empty());
        }
        lemma_find_none(Seq::<char>::empty(), '\n', 0);
        reveal(block_cue);
        assert(block_cue(trim(lead)) is None);
        assert(block_error(trim(lead)) is None);
        let e = Seq::<Seq<char>>::empty();
        assert(cues_of_blocks(e) == Seq::<CueModel>::empty());
        assert(seq![lead].last() == lead);
        assert(seq![lead].drop_last() =~= e);
        assert(cues_of_blocks(seq![lead]) == cues_of_blocks(e));
        assert(blocks_error(seq![lead]) is None) by {
            assert(blocks_error(e) is None);
            assert(seq![lead].drop_last() =~= e);
        }
        assert(seq![lead].drop_last() =~= Seq::<Seq<char>>::empty());
        assert(numbered(cs, n) =~= Seq::<CueModel>::empty());
    } else {
        let c = cs[0];
        let rest = cs.drop_first();
        assert forall|i: int| 0 <= i < rest.len() implies cue_round_trips(#[trigger] rest[i]) by {
            assert(rest[i] == cs[i + 1]);
        }
        assert(cue_round_trips(cs[0]));
        lemma_block_core(n, c);
        let core = block_core(n, c);
        let tail = srt_text_from(rest, n + 1);
        let next_lead = if c.text.len() > 0 {
            Seq::<char>::empty()
        } else {
            seq!['\n']
        };
        lemma_text_reads_back(rest, n + 1, next_lead);
        let piece = lead + core;
        assert(no_blank(piece)) by {
            assert(no_blank(lead));
            lemma_no_blank_concat(lead, core);
        }
        assert(piece.last() == core.last());
        assert(lead + srt_text_from(cs, n) =~= piece + seq!['\n', '\n'] + (next_lead + tail));
        lemma_split_first_piece(piece, next_lead + tail);
        let later = split_blank(next_lead + tail);
        lemma_cues_of_blocks_concat(seq![piece], later);
        assert(trim(piece) == core) by {
            if lead.len() > 0 {
                assert(piece =~= seq!['\n'] + core);
                lemma_trim_newline_lead(core);
            } else {
                assert(piece =~= core);
                lemma_trim_plain(core);
            }
        }
        assert(seq![piece].drop_last() =~= Seq::<Seq<char>>::empty());
        assert(seq![piece].last() == piece);
        assert(block_cue(trim(piece)) == Some(renumbered(c, n)));
        let e = Seq::<Seq<char>>::empty();
        assert(cues_of_blocks(e) == Seq::<CueModel>::empty());
        assert(cues_of_blocks(seq![piece]) == cues_of_blocks(e).push(renumbered(c, n)));
        assert(cues_of_blocks(seq![piece]) =~= seq![renumbered(c, n)]);
        assert(blocks_error(seq![piece]) is None) by {
            assert(blocks_error(e) is None);
            assert(block_error(trim(piece)) is None);
        }
        lemma_blocks_error_concat(seq![piece], later);
        assert(numbered(cs, n) =~= seq![renumbered(c, n)] + numbered(rest, n + 1));
        // what the text holds
        let blk = cue_block(n, c);
        assert(no_char(blk, '\r')) by {
            assert(no_char(seq!['\n', '\n'], '\r'));
            assert(no_char(seq!['\n'], '\r'));
            lemma_no_char_concat(core, seq!['\n', '\n'], '\r');
            lemma_no_char_concat(core + seq!['\n', '\n'], seq!['\n'], '\r');
        }
        lemma_no_char_concat(blk, tail, '\r');
        assert(srt_text_from(cs, n)[0] == core[0]);
    }
}

} // verus!
