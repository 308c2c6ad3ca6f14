//! The NTRIP client's side of the correction service: its settings, the request that opens
//! the stream, the caster's answer, and the position reports sent back to the caster.
use base64::Engine;
use vstd::prelude::*;
use vstd::utf8::encode_utf8;
use crate::json::{decode_sentence_batch, json_read_string_array};
use crate::text::{has_substring, lossy_text, str_contains, utf8_lossy_text};

verus! {

/// Where and as whom the client connects to an NTRIP caster.
pub struct NTRIPSettings {
    pub username: String,
    pub mountpoint: String,
    pub password: String,
    pub host: String,
}

impl NTRIPSettings {
    /// The settings shown when none were saved: every field empty.
    pub fn blank() -> (res: Self)
        ensures
            res.username@ == Seq::<char>::empty(),
            res.mountpoint@ == Seq::<char>::empty(),
            res.password@ == Seq::<char>::empty(),
            res.host@ == Seq::<char>::empty(),
    {
        NTRIPSettings {
            username: String::new(),
            mountpoint: String::new(),
            password: String::new(),
            host: String::new(),
        }
    }

    /// The settings used when none were saved: the given e-mail as user name, no password,
    /// mount point `IndiaTN02` on `rtk2go.com:2101`.
    pub fn default_for(email: String) -> (res: Self)
        ensures
            res.username@ == email@,
            res.password@ == Seq::<char>::empty(),
            res.mountpoint@ == "IndiaTN02"@,
            res.host@ == "rtk2go.com:2101"@,
    {
        NTRIPSettings {
            username: email,
            password: String::new(),
            mountpoint: String::from_str("IndiaTN02"),
            host: String::from_str("rtk2go.com:2101"),
        }
    }
}

/// The character of the standard Base64 alphabet for a 6-bit value: `A`–`Z`, `a`–`z`,
/// `0`–`9`, `+`, `/`.
pub open spec fn base64_char(v: int) -> char {
    if v < 26 {
        (65 + v) as char
    } else if v < 52 {
        (71 + v) as char
    } else if v < 62 {
        (v - 4) as char
    } else if v == 62 {
        '+'
    } else {
        '/'
    }
}

/// The standard (padded) Base64 text of a byte sequence, as the `base64` crate's `STANDARD`
/// engine writes it: each group of three bytes becomes four characters, and a last group of
/// one or two bytes becomes two or three characters followed by `=` up to four.
pub open spec fn base64_standard(bytes: Seq<u8>) -> Seq<char>
    decreases bytes.len(),
{
    if bytes.len() == 0 {
        seq![]
    } else if bytes.len() == 1 {
        let x = bytes[0] as int;
        seq![base64_char(x / 4), base64_char((x % 4) * 16), '=', '=']
    } else if bytes.len() == 2 {
        let x = bytes[0] as int;
        let y = bytes[1] as int;
        seq![base64_char(x / 4), base64_char((x % 4) * 16 + y / 16), base64_char((y % 16) * 4), '=']
    } else {
        let x = bytes[0] as int;
        let y = bytes[1] as int;
        let z = bytes[2] as int;
        seq![
            base64_char(x / 4),
            base64_char((x % 4) * 16 + y / 16),
            base64_char((y % 16) * 4 + z / 64),
            base64_char(z % 64),
        ] + base64_standard(bytes.skip(3))
    }
}

/// `base64::engine::general_purpose::STANDARD.encode`. Stated: the text is
/// `base64_standard` of the bytes (the RFC 4648 alphabet with `=` padding, which the
/// `STANDARD` engine uses). The crate panics when the output length overflows
/// `usize`; the bound in `requires` leaves those inputs out.
#[verifier::external_body]
fn base64_encode(bytes: &[u8]) -> (res: String)
    requires
        bytes@.len() <= usize::MAX / 2,
    ensures
        res@ == base64_standard(bytes@),
{
    base64::engine::general_purpose::STANDARD.encode(bytes)
}

/// `user:password`, the text that Basic authentication encodes.
pub open spec fn credentials_text(username: Seq<char>, password: Seq<char>) -> Seq<char> {
    username + ":"@ + password
}

/// The NTRIP v1 request for a mount point with the given Basic authorization token.
pub open spec fn ntrip_request_spec(mountpoint: Seq<char>, auth: Seq<char>) -> Seq<char> {
    "GET /"@ + mountpoint + " HTTP/1.0\r\nUser-Agent: RustNtripClient/1.0\r\nAuthorization: Basic "@
        + auth + "\r\n\r\n"@
}

/// The request for `mountpoint` that carries the authorization token `auth`.
pub fn ntrip_request_with_auth(mountpoint: &str, auth: &str) -> (res: String)
    ensures
        res@ == ntrip_request_spec(mountpoint@, auth@),
{
    let mut req = String::from_str("GET /");
    req.append(mountpoint);
    req.append(" HTTP/1.0\r\nUser-Agent: RustNtripClient/1.0\r\nAuthorization: Basic ");
    req.append(auth);
    req.append("\r\n\r\n");
    req
}

/// The request that opens the correction stream: the settings' mount point, authorized with
/// the Base64 of `user:password` (its UTF-8 bytes).
pub fn ntrip_request(settings: &NTRIPSettings) -> (res: String)
    requires
        encode_utf8(credentials_text(settings.username@, settings.password@)).len() <= usize::MAX
            / 2,
    ensures
        res@ == ntrip_request_spec(
            settings.mountpoint@,
            base64_standard(encode_utf8(credentials_text(settings.username@, settings.password@))),
        ),
{
    let mut cred = settings.username.clone();
    cred.append(":");
    cred.append(settings.password.as_str());
    let bytes = cred.as_str().as_bytes();
    let auth = base64_encode(bytes);
    ntrip_request_with_auth(settings.mountpoint.as_str(), auth.as_str())
}

/// Whether the caster's reply text accepts the request: it holds `200 OK` (as in
/// `ICY 200 OK` or `HTTP/1.1 200 OK`).
pub fn reply_accepts(reply: &str) -> (res: bool)
    ensures
        res == has_substring(reply@, "200 OK"@),
{
    str_contains(reply, "200 OK")
}

/// Whether the first bytes the caster sent accept the request: their text (invalid UTF-8
/// replaced) holds `200 OK`.
pub fn caster_accepted(reply: &[u8]) -> (res: bool)
    ensures
        res == has_substring(utf8_lossy_text(reply@), "200 OK"@),
{
    let text = lossy_text(reply);
    reply_accepts(text.as_str())
}

/// A sentence that is sent to the caster as the rover's position: a GGA sentence in the
/// northern hemisphere (it holds `GGA,` and `,N,`).
pub open spec fn is_position_report(s: Seq<char>) -> bool {
    has_substring(s, "GGA,"@) && has_substring(s, ",N,"@)
}

/// The position reports of a batch, in order.
pub open spec fn position_reports(batch: Seq<Seq<char>>) -> Seq<Seq<char>>
    decreases batch.len(),
{
    if batch.len() == 0 {
        seq![]
    } else {
        let rest = position_reports(batch.drop_last());
        if is_position_report(batch.last()) {
            rest.push(batch.last())
        } else {
            rest
        }
    }
}

/// Only sentences of the batch are sent to the caster, and each of them is a position report.
pub proof fn law_only_position_reports_are_sent(batch: Seq<Seq<char>>)
    ensures
        forall|i: int|
            0 <= i < position_reports(batch).len() ==> is_position_report(
                #[trigger] position_reports(batch)[i],
            ) && batch.contains(position_reports(batch)[i]),
        position_reports(batch).len() <= batch.len(),
    decreases batch.len(),
{
    if batch.len() > 0 {
        let rest = batch.drop_last();
        law_only_position_reports_are_sent(rest);
        assert forall|i: int|
            0 <= i < position_reports(batch).len() implies is_position_report(
            #[trigger] position_reports(batch)[i],
        ) && batch.contains(position_reports(batch)[i]) by {
            if i < position_reports(rest).len() {
                assert(position_reports(batch)[i] == position_reports(rest)[i]);
                let j = choose|j: int| 0 <= j < rest.len() && rest[j] == position_reports(rest)[i];
                assert(batch[j] == rest[j]);
            } else {
                assert(position_reports(batch)[i] == batch.last());
                assert(batch[batch.len() - 1] == batch.last());
            }
        }
    }
}

/// Whether a sentence is sent to the caster as the rover's position.
pub fn is_position_report_exec(s: &str) -> (res: bool)
    ensures
        res == is_position_report(s@),
{
    str_contains(s, "GGA,") && str_contains(s, ",N,")
}

/// The sentences of a batch that are sent to the caster, in order.
pub fn position_reports_of(batch: &Vec<String>) -> (res: Vec<String>)
    ensures
        res.deep_view() == position_reports(batch.deep_view()),
{
    let mut res: Vec<String> = Vec::new();
    let mut i: usize = 0;
    while i < batch.len()
        invariant
            i <= batch@.len(),
            res.deep_view() == position_reports(batch.deep_view().take(i as int)),
        decreases batch@.len() - i,
    {
        proof {
            let t = batch.deep_view().take(i + 1);
            assert(t.drop_last() =~= batch.deep_view().take(i as int));
            assert(t.last() == batch[i as int]@);
        }
        if is_position_report_exec(batch[i].as_str()) {
            res.push(batch[i].clone());
            assert(res.deep_view() =~= position_reports(batch.deep_view().take(i + 1)));
        }
        i = i + 1;
    }
    assert(batch.deep_view().take(batch@.len() as int) =~= batch.deep_view());
    res
}

/// The sentences to send to the caster for one broadcast message: the position reports of
/// the batch the message carries, none when it is not a JSON array of strings.
pub fn uploads_for_message(message: &str) -> (res: Vec<String>)
    ensures
        json_read_string_array(message@) matches Some(batch) ==> res.deep_view()
            == position_reports(batch),
        json_read_string_array(message@) is None ==> res@.len() == 0,
{
    match decode_sentence_batch(message) {
        Some(batch) => position_reports_of(&batch),
        None => Vec::new(),
    }
}


/// The credentials are the user name, a colon and the password, in that order: a user name
/// without a colon is everything before the first colon.
pub proof fn law_credentials_are_user_then_password(username: Seq<char>, password: Seq<char>)
    ensures
        credentials_text(username, password).len() == username.len() + 1 + password.len(),
        credentials_text(username, password).take(username.len() as int) == username,
        credentials_text(username, password)[username.len() as int] == ':',
        credentials_text(username, password).skip(username.len() + 1int) == password,
{
    reveal_strlit(":");
    let c = credentials_text(username, password);
    assert(c.take(username.len() as int) =~= username);
    assert(c.skip(username.len() + 1int) =~= password);
}

} // verus!
