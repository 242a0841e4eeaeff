//! Text encodings. Cells stay bytes; an encoding says how they are shown. Sources in UTF-16 are
//! turned into UTF-8 when they are opened.
use vstd::prelude::*;
#[allow(unused_imports)]
use vstd::string::StringSliceAdditionalSpecFns;
use crate::text::{chars_of, string_of};

verus! {

/// How bytes stand for text.
#[derive(Clone, Copy, Debug, PartialEq, Eq, Structural)]
pub enum TextEncoding {
    Utf8,
    Windows1252,
    Utf16Le,
    Utf16Be,
}

impl TextEncoding {
    /// The encodings that the user chooses from.
    pub const CHOICES: [TextEncoding; 2] = [TextEncoding::Utf8, TextEncoding::Windows1252];

    /// The name that is shown for an encoding.
    pub fn name(self) -> (name: &'static str)
        ensures
            name@ == (match self {
                TextEncoding::Utf8 => "UTF-8"@,
                TextEncoding::Windows1252 => "windows-1252"@,
                TextEncoding::Utf16Le => "UTF-16LE"@,
                TextEncoding::Utf16Be => "UTF-16BE"@,
            }),
    {
        match self {
            TextEncoding::Utf8 => "UTF-8",
            TextEncoding::Windows1252 => "windows-1252",
            TextEncoding::Utf16Le => "UTF-16LE",
            TextEncoding::Utf16Be => "UTF-16BE",
        }
    }
}

/// The encoding that a byte order mark announces.
pub open spec fn announced(bytes: Seq<u8>) -> Option<TextEncoding> {
    if bytes.len() >= 3 && bytes[0] == 0xef && bytes[1] == 0xbb && bytes[2] == 0xbf {
        Some(TextEncoding::Utf8)
    } else if bytes.len() >= 2 && bytes[0] == 0xff && bytes[1] == 0xfe {
        Some(TextEncoding::Utf16Le)
    } else if bytes.len() >= 2 && bytes[0] == 0xfe && bytes[1] == 0xff {
        Some(TextEncoding::Utf16Be)
    } else {
        None
    }
}

/// The encoding that the byte order mark of a source announces, if it starts with one.
pub fn for_bom(bytes: &[u8]) -> (encoding: Option<TextEncoding>)
    ensures
        encoding == announced(bytes@),
{
    if bytes.len() >= 3 && bytes[0] == 0xef && bytes[1] == 0xbb && bytes[2] == 0xbf {
        Some(TextEncoding::Utf8)
    } else if bytes.len() >= 2 && bytes[0] == 0xff && bytes[1] == 0xfe {
        Some(TextEncoding::Utf16Le)
    } else if bytes.len() >= 2 && bytes[0] == 0xfe && bytes[1] == 0xff {
        Some(TextEncoding::Utf16Be)
    } else {
        None
    }
}

/// Whether the decoder can reserve the room for the text of so many bytes.
pub open spec fn decodable(bytes: Seq<u8>) -> bool {
    bytes.len() <= usize::MAX / 8
}

/// The character that a byte stands for in Windows-1252.
pub open spec fn windows_1252(b: u8) -> char {
    if b < 0x80 || 0xa0 <= b {
        b as char
    } else {
        seq![
            '\u{20ac}', '\u{81}', '\u{201a}', '\u{192}', '\u{201e}', '\u{2026}', '\u{2020}',
            '\u{2021}', '\u{2c6}', '\u{2030}', '\u{160}', '\u{2039}', '\u{152}', '\u{8d}',
            '\u{17d}', '\u{8f}', '\u{90}', '\u{2018}', '\u{2019}', '\u{201c}', '\u{201d}',
            '\u{2022}', '\u{2013}', '\u{2014}', '\u{2dc}', '\u{2122}', '\u{161}', '\u{203a}',
            '\u{153}', '\u{9d}', '\u{17e}', '\u{178}',
        ][b - 0x80]
    }
}

/// The text that bytes stand for in an encoding. A byte order mark overrules the encoding and is
/// dropped, and whatever is malformed is replaced.
pub uninterp spec fn decoded(encoding: TextEncoding, bytes: Seq<u8>) -> Seq<char>;

/// `encoding_rs::Encoding::decode`: the text of bytes. Well-formed UTF-8 is read as it stands, and in
/// Windows-1252 every byte is a character. Malformed UTF-8 and UTF-16 are not spelled out.
#[verifier::external_body]
fn decode(encoding: TextEncoding, bytes: &[u8]) -> (text: String)
    requires
        decodable(bytes@),
    ensures
        text@ == decoded(encoding, bytes@),
        encoding is Utf8 && announced(bytes@) is None && vstd::utf8::valid_utf8(bytes@) ==> text@
            == vstd::utf8::decode_utf8(bytes@),
        announced(bytes@) == Some(TextEncoding::Utf8) && vstd::utf8::valid_utf8(bytes@.skip(3))
            ==> text@ == vstd::utf8::decode_utf8(bytes@.skip(3)),
        encoding is Windows1252 && announced(bytes@) is None ==> text@ == bytes@.map_values(
            |b: u8| windows_1252(b),
        ),
{
    let outside: &'static encoding_rs::Encoding = match encoding {
        TextEncoding::Utf8 => encoding_rs::UTF_8,
        TextEncoding::Windows1252 => encoding_rs::WINDOWS_1252,
        TextEncoding::Utf16Le => encoding_rs::UTF_16LE,
        TextEncoding::Utf16Be => encoding_rs::UTF_16BE,
    };
    outside.decode(bytes).0.into_owned()
}

/// A text without the byte order mark that it starts with.
pub open spec fn unmarked(text: Seq<char>) -> Seq<char> {
    if text.len() > 0 && text[0] == '\u{feff}' {
        text.skip(1)
    } else {
        text
    }
}

/// Drops the byte order mark that a decoded text starts with.
pub fn strip_mark(text: String) -> (r: String)
    ensures
        r@ == unmarked(text@),
{
    let chars = chars_of(text.as_str());
    if chars.len() > 0 && chars[0] == '\u{feff}' {
        let n: usize = chars.len();
        let rest = vstd::slice::slice_subrange(chars.as_slice(), 1, n);
        assert(rest@ =~= chars@.skip(1));
        string_of(rest)
    } else {
        text
    }
}

/// The text that a field is shown as.
pub open spec fn field_display(encoding: TextEncoding, bytes: Seq<u8>) -> Seq<char> {
    unmarked(decoded(encoding, bytes))
}

/// Decodes the bytes of a field to the text that is shown, without a leading byte order mark.
pub fn decode_field(bytes: &[u8], encoding: TextEncoding) -> (text: String)
    requires
        decodable(bytes@),
    ensures
        text@ == field_display(encoding, bytes@),
        encoding is Utf8 && announced(bytes@) is None && vstd::utf8::valid_utf8(bytes@) ==> text@
            == unmarked(vstd::utf8::decode_utf8(bytes@)),
        announced(bytes@) == Some(TextEncoding::Utf8) && vstd::utf8::valid_utf8(bytes@.skip(3))
            ==> text@ == unmarked(vstd::utf8::decode_utf8(bytes@.skip(3))),
        encoding is Windows1252 && announced(bytes@) is None ==> text@ == bytes@.map_values(
            |b: u8| windows_1252(b),
        ),
{
    proof {
        if bytes@.len() > 0 {
            assert(windows_1252(bytes@[0]) != '\u{feff}');
        }
    }
    strip_mark(decode(encoding, bytes))
}

/// What a source is read as: one that is marked as UTF-16 as the UTF-8 of its text, any other as it
/// is.
pub open spec fn source_bytes(bytes: Seq<u8>) -> Seq<u8> {
    match announced(bytes) {
        Some(encoding) => if encoding is Utf16Le || encoding is Utf16Be {
            vstd::utf8::encode_utf8(decoded(encoding, bytes))
        } else {
            bytes
        },
        None => bytes,
    }
}

/// The UTF-8 form of a source that is marked as UTF-16; `None` where the source is read as it is.
pub fn transcode(bytes: &[u8]) -> (utf8: Option<Vec<u8>>)
    requires
        decodable(bytes@),
    ensures
        match utf8 {
            Some(u) => u@ == source_bytes(bytes@) && (announced(bytes@) == Some(
                TextEncoding::Utf16Le,
            ) || announced(bytes@) == Some(TextEncoding::Utf16Be)),
            None => source_bytes(bytes@) == bytes@ && (announced(bytes@) is None || announced(
                bytes@,
            ) == Some(TextEncoding::Utf8)),
        },
{
    match for_bom(bytes) {
        Some(encoding) => match encoding {
            TextEncoding::Utf16Le | TextEncoding::Utf16Be => {
                let text = decode(encoding, bytes);
                Some(vstd::slice::slice_to_vec(text.as_str().as_bytes()))
            },
            _ => None,
        },
        None => None,
    }
}

/// A source is read as it is, unless it is marked as UTF-16: then as the UTF-8 of its text, decoded in
/// the order of bytes that the mark tells.
pub proof fn only_marked_sources_are_decoded(bytes: Seq<u8>)
    ensures
        bytes.len() >= 2 && bytes[0] == 0xff && bytes[1] == 0xfe ==> source_bytes(bytes)
            == vstd::utf8::encode_utf8(decoded(TextEncoding::Utf16Le, bytes)),
        bytes.len() >= 2 && bytes[0] == 0xfe && bytes[1] == 0xff ==> source_bytes(bytes)
            == vstd::utf8::encode_utf8(decoded(TextEncoding::Utf16Be, bytes)),
        bytes.len() < 2 || !((bytes[0] == 0xff && bytes[1] == 0xfe) || (bytes[0] == 0xfe && bytes[1]
            == 0xff)) ==> source_bytes(bytes) == bytes,
{
}

/// A byte order mark announces its encoding: three bytes that of UTF-8, two those of UTF-16 in either
/// order of bytes. Without one nothing is announced.
pub proof fn marks_announce_their_encoding(rest: Seq<u8>, a: u8, b: u8)
    ensures
        announced(seq![0xefu8, 0xbb, 0xbf] + rest) == Some(TextEncoding::Utf8),
        announced(seq![0xffu8, 0xfe] + rest) == Some(TextEncoding::Utf16Le),
        announced(seq![0xfeu8, 0xff] + rest) == Some(TextEncoding::Utf16Be),
        a < 0x80 ==> announced(seq![a] + rest) is None,
        announced(Seq::empty()) is None,
{
}

/// A field is shown as its text, without the one mark that it may start with, and no other character
/// is left out.
pub proof fn fields_are_shown_without_a_mark(encoding: TextEncoding, bytes: Seq<u8>)
    ensures
        ({
            let text = decoded(encoding, bytes);
            let shown = field_display(encoding, bytes);
            shown == text || (text.len() > 0 && text == seq!['\u{feff}'] + shown)
        }),
        ({
            let text = decoded(encoding, bytes);
            text.len() > 0 && text[0] == '\u{feff}' ==> field_display(encoding, bytes).len()
                == text.len() - 1
        }),
{
    let text = decoded(encoding, bytes);
    if text.len() > 0 && text[0] == '\u{feff}' {
        assert(text =~= seq!['\u{feff}'] + text.skip(1));
    }
}

} // verus!
