use videodivider::cue::{format_ts, parse_ts, SrtCue};
use videodivider::decode::{decode_srt_bytes, parse_srt_bytes};
use videodivider::parse::parse_srt;
use videodivider::parts::{cues_for_part, serialize_srt, split_srt_parts};

fn cue(index: usize, start_ms: i64, end_ms: i64, text: &str) -> SrtCue {
    SrtCue {
        index,
        start_ms,
        end_ms,
        text: text.to_string(),
    }
}

#[test]
fn parses_utf16_le_with_bom() {
    let text = "1\n00:00:01,000 --> 00:00:02,000\nOlá\n\n";
    let mut bytes = vec![0xFFu8, 0xFEu8];
    for u in text.encode_utf16() {
        bytes.extend_from_slice(&u.to_le_bytes());
    }
    let s = decode_srt_bytes(&bytes).expect("decode");
    let cues = parse_srt(&s).unwrap();
    assert_eq!(cues.len(), 1);
    assert_eq!(cues[0].text, "Olá");
}

#[test]
fn split_srt_output_starts_with_utf8_bom() {
    let cues = vec![cue(1, 0, 2_000, "teste")];
    let texts = split_srt_parts(&cues, &[5_000], 1).expect("write");
    let written = texts[0].as_bytes();
    assert!(
        written.starts_with(b"\xEF\xBB\xBF"),
        "SRT gerado deve começar com BOM UTF-8"
    );
}

#[test]
fn parses_cp1252_invalid_utf8() {
    let bytes = b"1\n00:00:01,000 --> 00:00:02,000\nTeste \xE7\xE3o\n\n";
    let s = decode_srt_bytes(bytes).expect("decode");
    let cues = parse_srt(&s).unwrap();
    assert_eq!(cues.len(), 1);
    assert!(cues[0].text.contains("ç") || cues[0].text.contains("ã"));
}

#[test]
fn parses_sample_block() {
    let raw = "1\n00:01:43,053 --> 00:01:46,265\nOlá\n\n2\n00:01:46,348 --> 00:01:48,142\nOi";
    let cues = parse_srt(raw).unwrap();
    assert_eq!(cues.len(), 2);
    assert_eq!(cues[0].start_ms, 103_053);
    assert_eq!(cues[0].end_ms, 106_265);
}

#[test]
fn clip_cue_across_boundary() {
    let cues = vec![SrtCue {
        index: 1,
        start_ms: 90_000,
        end_ms: 120_000,
        text: "x".into(),
    }];
    let part = cues_for_part(&cues, 60_000, 40_000);
    assert_eq!(part.len(), 1);
    assert_eq!(part[0].start_ms, 30_000);
    assert_eq!(part[0].end_ms, 40_000);
}

// ---------------------------------------------------------------------------

#[test]
fn parse_ts_combines_fields() {
    assert_eq!(parse_ts("01", "02", "03", "004"), Some(3_723_004));
    assert_eq!(parse_ts("+1", "-1", "0", "5"), Some(3_540_005));
    assert_eq!(parse_ts("1", "x", "0", "0"), None);
    assert_eq!(parse_ts("", "0", "0", "0"), None);
    assert_eq!(parse_ts("-", "0", "0", "0"), None);
}

#[test]
fn format_ts_pads_fields() {
    assert_eq!(format_ts(0), "00:00:00,000");
    assert_eq!(format_ts(103_053), "00:01:43,053");
    assert_eq!(format_ts(3_723_004), "01:02:03,004");
    assert_eq!(format_ts(-5), "00:00:00,000");
    assert_eq!(format_ts(360_000_000), "100:00:00,000");
}

#[test]
fn serialize_numbers_blocks_from_one() {
    let cues = vec![cue(7, 1_000, 2_000, "a\nb"), cue(9, 3_000, 4_500, "")];
    assert_eq!(
        serialize_srt(&cues),
        "1\n00:00:01,000 --> 00:00:02,000\na\nb\n\n2\n00:00:03,000 --> 00:00:04,500\n\n\n"
    );
    assert_eq!(serialize_srt(&[]), "");
}

#[test]
fn written_cues_read_back() {
    let cues = vec![
        cue(5, 0, 1_500, "primeira\nlinha  dois"),
        cue(6, 1_500, 2_000, ""),
        cue(7, 3_000, 359_999_999, "última"),
    ];
    let text = serialize_srt(&cues);
    let back = parse_srt(&text).unwrap();
    assert_eq!(back.len(), 3);
    for (i, (a, b)) in cues.iter().zip(back.iter()).enumerate() {
        assert_eq!(b.index, i + 1);
        assert_eq!(a.start_ms, b.start_ms);
        assert_eq!(a.end_ms, b.end_ms);
        assert_eq!(a.text, b.text);
    }
}

#[test]
fn written_part_files_read_back() {
    let cues = vec![cue(1, 500, 1_500, "um"), cue(2, 2_500, 4_000, "dois")];
    let texts = split_srt_parts(&cues, &[2_000, 3_000], 2).unwrap();
    let first = parse_srt_bytes(texts[0].as_bytes()).unwrap();
    assert_eq!(first.len(), 1);
    assert_eq!((first[0].start_ms, first[0].end_ms), (500, 1_500));
    let second = parse_srt_bytes(texts[1].as_bytes()).unwrap();
    assert_eq!(second.len(), 1);
    assert_eq!((second[0].start_ms, second[0].end_ms, second[0].index), (500, 2_000, 1));
    assert_eq!(second[0].text, "dois");
}

#[test]
fn split_rejects_mismatched_counts() {
    let cues = vec![cue(1, 0, 1_000, "x")];
    assert_eq!(
        split_srt_parts(&cues, &[1_000, 1_000], 1).unwrap_err(),
        "Número de partes e caminhos SRT não coincidem."
    );
}

#[test]
fn split_part_without_cues_is_only_bom() {
    let cues = vec![cue(1, 0, 1_000, "x")];
    let texts = split_srt_parts(&cues, &[1_000, 1_000], 2).unwrap();
    assert_eq!(texts[1], "\u{feff}");
    assert_eq!(
        parse_srt_bytes(texts[1].as_bytes()).unwrap_err(),
        "Nenhuma legenda válida encontrada no SRT."
    );
}

#[test]
fn clip_drops_cues_outside_window() {
    let cues = vec![
        cue(1, 0, 10, "before"),
        cue(2, 10, 20, "inside"),
        cue(3, 30, 40, "after"),
    ];
    let part = cues_for_part(&cues, 10, 20);
    assert_eq!(part.len(), 1);
    assert_eq!((part[0].start_ms, part[0].end_ms, part[0].index), (0, 10, 0));
    assert_eq!(part[0].text, "inside");
    assert!(cues_for_part(&cues, 100, 10).is_empty());
}

#[test]
fn parse_handles_crlf_bom_and_dot() {
    let raw = "\u{feff}\u{feff}1\r\n00:00:01.000 --> 00:00:02.000\r\nA\rB\r\n\r\n2\r00:00:03,000\t-->\u{a0}00:00:04,000\rC";
    let cues = parse_srt(raw).unwrap();
    assert_eq!(cues.len(), 2);
    assert_eq!(cues[0].text, "A\nB");
    assert_eq!((cues[1].start_ms, cues[1].end_ms), (3_000, 4_000));
    assert_eq!(cues[1].text, "C");
}

#[test]
fn parse_skips_bad_blocks_and_reads_index() {
    let raw = "only one line\n\n 3 \n00:00:02,000 --> 00:00:01,000\nbackwards\n\n+7\n00:00:01,000 --> 00:00:02,000 X\nok\n\nabc\n 00:00:01,000 --> 00:00:02,000\nindented time";
    let cues = parse_srt(raw).unwrap();
    assert_eq!(cues.len(), 1);
    assert_eq!(cues[0].index, 7);
    assert_eq!(cues[0].text, "ok");
    let raw2 = "x\n00:00:01,000 --> 00:00:02,000\nt";
    assert_eq!(parse_srt(raw2).unwrap()[0].index, 0);
}

#[test]
fn parse_reports_no_cues() {
    assert_eq!(
        parse_srt("").unwrap_err(),
        "Nenhuma legenda válida encontrada no SRT."
    );
    assert_eq!(
        parse_srt("1\n0:00:01,000 --> 00:00:02,000\nx").unwrap_err(),
        "Nenhuma legenda válida encontrada no SRT."
    );
}

#[test]
fn decode_picks_encoding() {
    assert_eq!(decode_srt_bytes(b"\xEF\xBB\xBFabc").unwrap(), "abc");
    assert_eq!(
        decode_srt_bytes(b"\xEF\xBB\xBF\xFFabc").unwrap_err(),
        "Ficheiro com BOM UTF-8 mas corpo não é UTF-8 válido."
    );
    assert_eq!(decode_srt_bytes("olá".as_bytes()).unwrap(), "olá");
    let mut be = vec![0xFEu8, 0xFF];
    for u in "Oi".encode_utf16() {
        be.extend_from_slice(&u.to_be_bytes());
    }
    assert_eq!(decode_srt_bytes(&be).unwrap(), "Oi");
    assert_eq!(decode_srt_bytes(b"\x80\x93x\xE9").unwrap(), "\u{20ac}\u{201c}x\u{e9}");
}

#[test]
fn parse_srt_bytes_passes_decoding_error_on() {
    assert_eq!(
        parse_srt_bytes(b"\xEF\xBB\xBF\xC3").unwrap_err(),
        "Ficheiro com BOM UTF-8 mas corpo não é UTF-8 válido."
    );
}

#[test]
fn parse_reports_start_time_in_other_digits() {
    // U+0661 is ARABIC-INDIC DIGIT ONE: a decimal digit, but no ASCII digit.
    let raw = "1\n00:00:\u{661}1,000 --> 00:00:02,000\nA\n\n2\n00:00:03,000 --> 00:00:04,000\nB\n";
    assert_eq!(parse_srt(raw).unwrap_err(), "Timestamp inicial inválido.");
}

#[test]
fn parse_reports_end_time_in_other_digits() {
    // U+FF12 is FULLWIDTH DIGIT TWO.
    let raw = "1\n00:00:01,000 --> 00:00:0\u{ff12},000\nA\n";
    assert_eq!(parse_srt(raw).unwrap_err(), "Timestamp final inválido.");
}

#[test]
fn parse_stops_at_first_bad_time_line() {
    // A good block before the bad one does not save the file.
    let raw = "1\n00:00:01,000 --> 00:00:02,000\nA\n\n2\n\u{660}0:00:03,000 --> 00:00:04,000\nB\n";
    assert_eq!(parse_srt(raw).unwrap_err(), "Timestamp inicial inválido.");
    let bytes = raw.as_bytes();
    assert_eq!(parse_srt_bytes(bytes).unwrap_err(), "Timestamp inicial inválido.");
}

#[test]
fn letters_in_time_line_skip_the_block() {
    let raw = "1\n00:00:0x,000 --> 00:00:02,000\nA\n\n2\n00:00:03,000 --> 00:00:04,000\nB\n";
    let cues = parse_srt(raw).unwrap();
    assert_eq!(cues.len(), 1);
    assert_eq!(cues[0].text, "B");
}

#[test]
fn formatted_times_sort_as_the_times() {
    let times = [0i64, 999, 1_000, 59_999, 60_000, 3_599_999, 3_600_000, 35_999_999, 359_999_999];
    for w in times.windows(2) {
        assert!(format_ts(w[0]) < format_ts(w[1]));
        assert_ne!(format_ts(w[0]), format_ts(w[1]));
    }
    assert_eq!(format_ts(359_999_999), "99:59:59,999");
}
