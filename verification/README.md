# videodivider

The logic of VideoDivider, a desktop tool that cuts a film into parts below a
chosen size (with FFmpeg, copying the streams) and cuts a matching `.srt` file
into one subtitle file per part, with the times of each on the part's own clock.

The library is verified with Verus:

- `src/text.rs`: characters, white space, decimal digits, numbers written and read.
- `src/cue.rs`: subtitle cues and timestamps (`parse_ts`, `format_ts`).
- `src/parse.rs`: reading the text of an `.srt` file (`parse_srt`).
- `src/decode.rs`: decoding the bytes of an `.srt` file (UTF-8, UTF-16 with a
  byte-order mark, windows-1252) and reading them (`parse_srt_bytes`).
- `src/parts.rs`: cutting cues to the window of a part (`cues_for_part`),
  writing `.srt` text (`serialize_srt`) and the files of all parts
  (`split_srt_parts`).
- `src/paths.rs`: file names, stems and extensions, and the subtitle name check.
- `src/order.rs`: the order of names, and sorted insertion.
- `src/media.rs`: container formats, FFmpeg command lines and output, the parts
  that a run wrote, and the state of the running job.
- `src/roundtrip.rs`, `src/laws.rs`: the laws, among them that every written
  subtitle file reads back as the cues of its part.

`app/` holds the desktop shell around it (Tauri commands, processes, files).
