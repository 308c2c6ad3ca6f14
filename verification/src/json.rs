//! The JSON text that carries a batch of NMEA sentences between the receiver task and its
//! listeners: a JSON array of strings, written and read by `serde_json`.
use vstd::prelude::*;
use crate::usb::hex_digit_char;

verus! {

/// How `serde_json` writes a character inside a JSON string: `"` and `\` and the control
/// characters below U+0020 escaped (`\b`, `\t`, `\n`, `\f`, `\r`, else `\u00` and two
/// lower-case hexadecimal digits), every other character as itself.
pub open spec fn json_escaped_char(c: char) -> Seq<char> {
    let u = c as u32;
    if c == '"' {
        seq!['\\', '"']
    } else if c == '\\' {
        seq!['\\', '\\']
    } else if u == 8 {
        seq!['\\', 'b']
    } else if u == 9 {
        seq!['\\', 't']
    } else if u == 10 {
        seq!['\\', 'n']
    } else if u == 12 {
        seq!['\\', 'f']
    } else if u == 13 {
        seq!['\\', 'r']
    } else if u < 0x20 {
        seq!['\\', 'u', '0', '0', hex_digit_char((u / 16) as int), hex_digit_char((u % 16) as int)]
    } else {
        seq![c]
    }
}

/// The characters of a string, each as `serde_json` writes it inside a JSON string.
pub open spec fn json_escaped(s: Seq<char>) -> Seq<char>
    decreases s.len(),
{
    if s.len() == 0 {
        seq![]
    } else {
        json_escaped(s.drop_last()) + json_escaped_char(s.last())
    }
}

/// The strings of a list as JSON strings, separated by commas.
pub open spec fn json_string_items(items: Seq<Seq<char>>) -> Seq<char>
    decreases items.len(),
{
    if items.len() == 0 {
        seq![]
    } else {
        let last = seq!['"'] + json_escaped(items.last()) + seq!['"'];
        if items.len() == 1 {
            last
        } else {
            json_string_items(items.drop_last()) + seq![','] + last
        }
    }
}

/// The compact JSON text that `serde_json` writes for an array of strings: `[`, the strings
/// separated by commas, `]`, with no white space.
pub open spec fn json_string_array(items: Seq<Seq<char>>) -> Seq<char> {
    seq!['['] + json_string_items(items) + seq![']']
}

/// What `serde_json::from_str::<Vec<String>>` reads from a text: `Some` of the strings when the
/// text is a JSON array of strings, `None` otherwise.
pub uninterp spec fn json_read_string_array(text: Seq<char>) -> Option<Seq<Seq<char>>>;

/// `serde_json::to_string` on a list of strings. Stated: the text is `json_string_array` of
/// the strings, and `serde_json::from_str::<Vec<String>>` reads it back as the same strings
/// (the writer escapes `"`, `\\` and the control characters, which the reader unescapes; every
/// other character is written as itself). Serialising strings into an in-memory buffer cannot
/// fail in `serde_json` (its `Serialize` for `str` only writes to the `Vec<u8>` writer), so the
/// error arm only converts the outside result and is never taken.
#[verifier::external_body]
pub(crate) fn encode_sentence_batch(items: &Vec<String>) -> (res: String)
    ensures
        res@ == json_string_array(items.deep_view()),
        json_read_string_array(res@) == Some(items.deep_view()),
{
    match serde_json::to_string(items) {
        Ok(text) => text,
        Err(_) => String::new(),
    }
}

/// `serde_json::from_str::<Vec<String>>`. Stated: it succeeds exactly when
/// `json_read_string_array` of the text is `Some`, and then gives those strings.
#[verifier::external_body]
pub(crate) fn decode_sentence_batch(text: &str) -> (res: Option<Vec<String>>)
    ensures
        res is Some <==> json_read_string_array(text@) is Some,
        res matches Some(v) ==> v.deep_view() == json_read_string_array(text@)->0,
{
    serde_json::from_str::<Vec<String>>(text).ok()
}


/// The sentences a broadcast message carries: `Some` of them when the message is a JSON array
/// of strings, `None` otherwise.
pub fn decode_batch(message: &str) -> (res: Option<Vec<String>>)
    ensures
        res is Some <==> json_read_string_array(message@) is Some,
        res matches Some(v) ==> v.deep_view() == json_read_string_array(message@)->0,
{
    decode_sentence_batch(message)
}

} // verus!
