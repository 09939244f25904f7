use videodivider::media::{
    convert_ffmpeg_args, duration_text, ffprobe_duration_args, ffmpeg_status, ffmpeg_time_fields, mkv_output_name,
    segment_format_for_ext, segment_pattern_name, select_segment_parts, split_ffmpeg_args,
    SegmentEntry, SplitState,
};
use videodivider::paths::{
    check_subtitle_name, has_srt_extension, is_mp4_like, srt_path_for, subtitle_stem_matches_video,
    video_extension, video_stem,
};
use videodivider::text::is_whitespace;

#[test]
fn subtitle_stem_matches_ignore_case() {
    assert!(subtitle_stem_matches_video(r"C:\a\Filme.mkv", r"D:\x\filme.srt"));
    assert!(!subtitle_stem_matches_video("a.mkv", "b.srt"));
}

#[test]
fn stem_match_edges() {
    assert!(subtitle_stem_matches_video("dir/movie.tar.mkv", "other/MOVIE.tar.srt"));
    assert!(!subtitle_stem_matches_video("..", "x.srt"));
    assert!(subtitle_stem_matches_video(".hidden", ".HIDDEN"));
    assert!(subtitle_stem_matches_video("C:Filme.mkv", "filme.srt"));
    assert!(subtitle_stem_matches_video("a/b.mkv/", "b.srt"));
    assert!(!subtitle_stem_matches_video("/", "b.srt"));
}

#[test]
fn mp4_detection() {
    assert!(is_mp4_like("x/Filme.MP4"));
    assert!(is_mp4_like("a.m4v"));
    assert!(!is_mp4_like("a.mkv"));
    assert!(!is_mp4_like(".mp4"));
    assert!(!is_mp4_like("mp4"));
}

#[test]
fn srt_extension_and_paths() {
    assert!(has_srt_extension("a/b.SRT"));
    assert!(!has_srt_extension("a/b.srt.txt"));
    assert_eq!(srt_path_for("out/movie_part_001.mkv"), "out/movie_part_001.srt");
    assert_eq!(srt_path_for("out/noext"), "out/noext.srt");
    assert_eq!(srt_path_for("out/"), "out.srt");
    assert_eq!(srt_path_for(".."), "..");
    assert_eq!(video_stem("/x/Filme.mkv"), "Filme");
    assert_eq!(video_stem(""), "video");
}

#[test]
fn extension_is_lowercased_with_default() {
    assert_eq!(video_extension("A.MKV"), "mkv");
    assert_eq!(video_extension("noext"), "mkv");
    assert_eq!(video_extension("x.ÄVI"), "ävi");
}

#[test]
fn subtitle_name_checks() {
    assert_eq!(check_subtitle_name("v/Filme.mkv", "s/filme.srt"), Ok(()));
    assert_eq!(
        check_subtitle_name("v/Filme.mkv", "s/filme.txt").unwrap_err(),
        "O arquivo de legendas deve ter extensão .srt."
    );
    assert_eq!(
        check_subtitle_name("v/Filme.mkv", "s/outro.srt").unwrap_err(),
        "O nome do arquivo de legendas (sem .srt) deve ser o mesmo do vídeo (sem extensão). Vídeo: «Filme», legendas: «outro»."
    );
}

#[test]
fn segment_formats() {
    assert_eq!(segment_format_for_ext("mkv"), "matroska");
    assert_eq!(segment_format_for_ext("mks"), "matroska");
    assert_eq!(segment_format_for_ext("m4v"), "mp4");
    assert_eq!(segment_format_for_ext("mov"), "mov");
    assert_eq!(segment_format_for_ext("webm"), "webm");
    assert_eq!(segment_format_for_ext("avi"), "avi");
    assert_eq!(segment_format_for_ext("m2ts"), "mpegts");
    assert_eq!(segment_format_for_ext("flv"), "matroska");
}

#[test]
fn output_names() {
    assert_eq!(segment_pattern_name("Filme", "mkv"), "Filme_part_%03d.mkv");
    assert_eq!(mkv_output_name("in/Filme.mp4"), "Filme.mkv");
    assert_eq!(mkv_output_name("in/"), "in.mkv");
}

#[test]
fn ffmpeg_command_lines() {
    let a = split_ffmpeg_args("in.mkv", "12.000", "matroska", "out_%03d.mkv");
    assert_eq!(
        a,
        vec![
            "-hide_banner", "-nostdin", "-i", "in.mkv", "-map", "0", "-c", "copy", "-f", "segment",
            "-segment_time", "12.000", "-segment_format", "matroska", "-reset_timestamps", "1",
            "out_%03d.mkv"
        ]
    );
    assert_eq!(
        ffprobe_duration_args("a b.mkv"),
        vec!["-v", "error", "-show_entries", "format=duration", "-of", "default=noprint_wrappers=1:nokey=1", "a b.mkv"]
    );
    let c = convert_ffmpeg_args("in.mp4", "out.mkv");
    assert_eq!(c, vec!["-hide_banner", "-nostdin", "-i", "in.mp4", "-map", "0", "-c", "copy", "out.mkv"]);
}

#[test]
fn ffmpeg_progress_time() {
    assert_eq!(
        ffmpeg_time_fields("frame=  10 fps=0.0 time=00:01:02.50 bitrate=1"),
        Some(("00".to_string(), "01".to_string(), "02.50".to_string()))
    );
    assert_eq!(
        ffmpeg_time_fields("time=1:2 time=10:20:30.5x"),
        Some(("10".to_string(), "20".to_string(), "30.5".to_string()))
    );
    assert_eq!(ffmpeg_time_fields("time=00:01:02"), None);
    assert_eq!(ffmpeg_time_fields(""), None);
}

#[test]
fn probe_duration_output() {
    assert_eq!(duration_text(" 12.5\n").unwrap(), "12.5");
    let msg = "Não foi possível obter a duração do arquivo (formato ou fluxo incompatível?).";
    assert_eq!(duration_text("N/A\n").unwrap_err(), msg);
    assert_eq!(duration_text("  ").unwrap_err(), msg);
}

#[test]
fn status_of_ffmpeg() {
    let s = ffmpeg_status(Some("/bin/ffmpeg".into()), Some("/bin/ffprobe".into()));
    assert!(s.available);
    assert_eq!(s.message, "FFmpeg e FFprobe encontrados no PATH.");
    let s = ffmpeg_status(Some("/bin/ffmpeg".into()), None);
    assert!(!s.available);
    assert_eq!(s.ffmpeg_path.as_deref(), Some("/bin/ffmpeg"));
    assert_eq!(s.message, "Instale o FFmpeg e adicione ffmpeg e ffprobe ao PATH do sistema.");
}

#[test]
fn stopping_twice_stops_once() {
    let mut st = SplitState::new();
    assert_eq!(st.take_pid(), None);
    st.set_pid(42);
    assert_eq!(st.current_pid(), Some(42));
    assert_eq!(st.take_pid(), Some(42));
    assert_eq!(st.take_pid(), None);
    st.set_pid(7);
    st.clear_pid();
    assert_eq!(st.current_pid(), None);
}

fn entry(name: &str, t: i128) -> SegmentEntry {
    SegmentEntry {
        name: Some(name.to_string()),
        modified_ns: Some(t),
    }
}

#[test]
fn segment_parts_are_selected_and_sorted() {
    let es = vec![
        entry("Filme_part_002.mkv", 10_000_000_000),
        entry("Filme_part_000.mkv", 6_000_000_000),
        entry("Filme_part_001.mkv", 4_000_000_000),
        entry("Filme_part_003.mp4", 10_000_000_000),
        entry("Outro_part_000.mkv", 10_000_000_000),
        SegmentEntry { name: None, modified_ns: Some(10_000_000_000) },
        SegmentEntry { name: Some("Filme_part_009.mkv".into()), modified_ns: None },
    ];
    let names = select_segment_parts(&es, "Filme", "mkv", 10_000_000_000).unwrap();
    assert_eq!(names, vec!["Filme_part_000.mkv", "Filme_part_002.mkv"]);
    let err = select_segment_parts(&es, "Nada", "mkv", 0).unwrap_err();
    assert!(err.starts_with("Nenhuma parte de vídeo encontrada"));
    assert!(err.contains(" \nDica: use pasta vazia"));
    let old = select_segment_parts(&[entry("Filme_part_000.mkv", i128::MIN)], "Filme", "mkv", i128::MIN).unwrap();
    assert_eq!(old.len(), 1);
}

#[test]
fn whitespace_agrees_with_std() {
    for u in 0u32..0x3100 {
        if let Some(c) = char::from_u32(u) {
            assert_eq!(is_whitespace(c), c.is_whitespace(), "{u:#x}");
        }
    }
}

#[test]
fn ffmpeg_time_takes_first_match_in_any_digits() {
    // The first match may hold digits of another script (here U+0660); its
    // fields come back as they stand, and reading them as numbers then fails.
    assert_eq!(
        ffmpeg_time_fields("time=\u{660}\u{660}:01:02.50 time=00:00:03.00"),
        Some(("\u{660}\u{660}".to_string(), "01".to_string(), "02.50".to_string()))
    );
}

#[test]
fn network_and_device_prefixes_have_no_name() {
    assert_eq!(video_stem(r"\\server\share"), "video");
    assert_eq!(video_stem(r"\\server\share\"), "video");
    assert_eq!(video_stem("//server/share"), "video");
    assert_eq!(video_stem(r"\\.\COM1"), "video");
    assert_eq!(video_stem(r"\\?\C:\"), "video");
    assert_eq!(video_stem(r"\\?\UNC\server\share"), "video");
    assert_eq!(video_stem(r"\\server\share\x.mkv"), "x");
    assert_eq!(video_stem(r"\\server"), "server");
    assert_eq!(video_stem(r"\\.\COM1\dir\film.mp4"), "film");
}

#[test]
fn verbatim_paths_split_only_at_backslash() {
    assert_eq!(video_stem(r"\\?\C:\a\b.mkv"), "b");
    assert_eq!(video_stem(r"\\?\x\a/b.mkv"), "a/b");
    assert_eq!(video_stem(r"\\?\UNC\srv\share\film.mkv"), "film");
    assert_eq!(video_stem(r"\\?\C:\dir\."), "video");
    assert_eq!(video_stem(r"C:\dir\film.mkv\."), "film");
    assert_eq!(srt_path_for(r"\\server\share"), r"\\server\share");
    assert_eq!(srt_path_for(r"\\?\C:\v\p_001.mkv"), r"\\?\C:\v\p_001.srt");
}
