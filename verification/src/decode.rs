use encoding_rs::{Encoding, UTF_16BE, UTF_16LE, WINDOWS_1252};
use vstd::prelude::*;
use vstd::utf8::{decode_utf8, valid_utf8};

use crate::cue::{cues_model, SrtCue};
use crate::parse::{parse_srt, srt_read};

verus! {

/// The encodings other than UTF-8 that subtitle files are read in.
#[derive(Clone, Copy, Debug)]
pub enum TextEncoding {
    Utf16Le,
    Utf16Be,
    Windows1252,
}

/// The text that `encoding_rs::Encoding::decode` gives for `bytes` when called
/// on the given encoding: after sniffing a byte-order mark (which then picks
/// the encoding and is dropped), malformed input turned into U+FFFD.
pub uninterp spec fn encoding_decode(encoding: TextEncoding, bytes: Seq<u8>) -> Seq<char>;

/// `bytes` starts with a byte-order mark of UTF-8, UTF-16LE or UTF-16BE.
pub open spec fn has_bom(bytes: Seq<u8>) -> bool {
    ||| bytes.len() >= 3 && bytes[0] == 0xEF && bytes[1] == 0xBB && bytes[2] == 0xBF
    ||| bytes.len() >= 2 && bytes[0] == 0xFF && bytes[1] == 0xFE
    ||| bytes.len() >= 2 && bytes[0] == 0xFE && bytes[1] == 0xFF
}

/// The character of one byte in windows-1252 (the WHATWG index): bytes below
/// 0x80 and from 0xA0 on stand for the code point of the same number; the
/// bytes in between map by the table below.
pub open spec fn windows_1252_char(b: u8) -> char {
    if b < 0x80 || b >= 0xA0 {
        (b as u32) as char
    } else {
        let table: Seq<char> = seq![
            '\u{20AC}', '\u{0081}', '\u{201A}', '\u{0192}', '\u{201E}', '\u{2026}', '\u{2020}',
            '\u{2021}', '\u{02C6}', '\u{2030}', '\u{0160}', '\u{2039}', '\u{0152}', '\u{008D}',
            '\u{017D}', '\u{008F}', '\u{0090}', '\u{2018}', '\u{2019}', '\u{201C}', '\u{201D}',
            '\u{2022}', '\u{2013}', '\u{2014}', '\u{02DC}', '\u{2122}', '\u{0161}', '\u{203A}',
            '\u{0153}', '\u{009D}', '\u{017E}', '\u{0178}',
        ];
        table[b - 0x80]
    }
}

/// Calls `encoding_rs::Encoding::decode` on the chosen encoding. The result is
/// named; of windows-1252 input without a byte-order mark the contract states
/// the byte-by-byte mapping, which is how that single-byte decoder works (each
/// of its 256 bytes maps to one character, none is malformed).
#[verifier::external_body]
fn decode_with(encoding: TextEncoding, bytes: &[u8]) -> (res: String)
    ensures
        res@ == encoding_decode(encoding, bytes@),
        encoding == TextEncoding::Windows1252 && !has_bom(bytes@) ==> res@ == bytes@.map_values(
            |b: u8| windows_1252_char(b),
        ),
{
    let enc: &'static Encoding = match encoding {
        TextEncoding::Utf16Le => UTF_16LE,
        TextEncoding::Utf16Be => UTF_16BE,
        TextEncoding::Windows1252 => WINDOWS_1252,
    };
    let (text, _, _) = enc.decode(bytes);
    text.into_owned()
}

/// Calls `std::str::from_utf8`: the text where `bytes` is valid UTF-8.
#[verifier::external_body]
fn utf8_text(bytes: &[u8]) -> (res: Option<String>)
    ensures
        res is Some <==> valid_utf8(bytes@),
        res matches Some(s) ==> s@ == decode_utf8(bytes@),
{
    match std::str::from_utf8(bytes) {
        Ok(s) => Some(s.to_string()),
        Err(_) => None,
    }
}

pub open spec fn bad_utf8_bom_message() -> Seq<char> {
    "Ficheiro com BOM UTF-8 mas corpo não é UTF-8 válido."@
}

/// The text of the bytes of an `.srt` file: UTF-8 after a UTF-8 byte-order
/// mark (an error where the rest is not UTF-8), UTF-16 after a UTF-16
/// byte-order mark, else UTF-8 where the bytes are valid UTF-8, else
/// windows-1252.
pub open spec fn decoded_srt(bytes: Seq<u8>) -> Result<Seq<char>, Seq<char>> {
    if bytes.len() >= 3 && bytes[0] == 0xEF && bytes[1] == 0xBB && bytes[2] == 0xBF {
        let payload = bytes.skip(3);
        if valid_utf8(payload) {
            Ok(decode_utf8(payload))
        } else {
            Err(bad_utf8_bom_message())
        }
    } else if bytes.len() >= 2 && bytes[0] == 0xFF && bytes[1] == 0xFE {
        Ok(encoding_decode(TextEncoding::Utf16Le, bytes))
    } else if bytes.len() >= 2 && bytes[0] == 0xFE && bytes[1] == 0xFF {
        Ok(encoding_decode(TextEncoding::Utf16Be, bytes))
    } else if valid_utf8(bytes) {
        Ok(decode_utf8(bytes))
    } else {
        Ok(bytes.map_values(|b: u8| windows_1252_char(b)))
    }
}

pub open spec fn result_view(r: Result<String, String>) -> Result<Seq<char>, Seq<char>> {
    match r {
        Ok(s) => Ok(s@),
        Err(e) => Err(e@),
    }
}

/// Decodes the bytes of an `.srt` file into text (see `decoded_srt`).
pub fn decode_srt_bytes(bytes: &[u8]) -> (res: Result<String, String>)
    ensures
        result_view(res) == decoded_srt(bytes@),
{
    let n = bytes.len();
    if n >= 3 && bytes[0] == 0xEF && bytes[1] == 0xBB && bytes[2] == 0xBF {
        let payload = &bytes[3..n];
        assert(payload@ =~= bytes@.skip(3));
        return match utf8_text(payload) {
            Some(s) => Ok(s),
            None => Err(String::from_str("Ficheiro com BOM UTF-8 mas corpo não é UTF-8 válido.")),
        };
    }
    if n >= 2 && bytes[0] == 0xFF && bytes[1] == 0xFE {
        return Ok(decode_with(TextEncoding::Utf16Le, bytes));
    }
    if n >= 2 && bytes[0] == 0xFE && bytes[1] == 0xFF {
        return Ok(decode_with(TextEncoding::Utf16Be, bytes));
    }
    if let Some(s) = utf8_text(bytes) {
        return Ok(s);
    }
    Ok(decode_with(TextEncoding::Windows1252, bytes))
}

/// What reading the bytes of an `.srt` file gives: the decoding error, or what
/// reading the decoded text answers (see `srt_read`).
pub open spec fn srt_bytes_cues(bytes: Seq<u8>) -> Result<Seq<crate::cue::CueModel>, Seq<char>> {
    match decoded_srt(bytes) {
        Err(e) => Err(e),
        Ok(text) => srt_read(text),
    }
}

/// Decodes the bytes of an `.srt` file and reads its cues.
pub fn parse_srt_bytes(bytes: &[u8]) -> (res: Result<Vec<SrtCue>, String>)
    ensures
        match res {
            Ok(cues) => srt_bytes_cues(bytes@) == Ok::<Seq<crate::cue::CueModel>, Seq<char>>(
                cues_model(cues@),
            ),
            Err(e) => srt_bytes_cues(bytes@) == Err::<Seq<crate::cue::CueModel>, Seq<char>>(e@),
        },
{
    match decode_srt_bytes(bytes) {
        Ok(raw) => parse_srt(raw.as_str()),
        Err(e) => Err(e),
    }
}

} // verus!
