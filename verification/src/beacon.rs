//! The address that the rover announces over Bluetooth, so that a phone can find its web
//! interface. The Bluetooth GATT server that announces it is not part of this crate.
use vstd::prelude::*;

verus! {

/// A character that the text form of an IP address can hold: a decimal digit or a dot (IPv4,
/// dotted decimal), a lower-case hexadecimal digit or a colon (IPv6, RFC 5952 form).
pub open spec fn is_ip_text_char(c: char) -> bool {
    ||| '0' <= c <= '9'
    ||| 'a' <= c <= 'f'
    ||| c == '.'
    ||| c == ':'
}

/// A text in the shape that `IpAddr`'s `Display` writes: not empty, made of digits, lower-case
/// hexadecimal letters, dots and colons.
pub open spec fn is_ip_text(s: Seq<char>) -> bool {
    &&& s.len() > 0
    &&& forall|i: int| 0 <= i < s.len() ==> is_ip_text_char(#[trigger] s[i])
}

/// `local_ip_address::local_ip`, written as text with `IpAddr`'s `to_string`; `None` where
/// the crate reports an error. Stated: a text that comes back has the shape `IpAddr`'s
/// `Display` writes (std documents dotted decimal for IPv4 and the RFC 5952 form, lower-case
/// hexadecimal, for IPv6). Which address comes back depends on the machine's network
/// interfaces, so nothing more is stated of it.
#[verifier::external_body]
fn local_ip_text() -> (res: Option<String>)
    ensures
        res matches Some(t) ==> is_ip_text(t@),
{
    match local_ip_address::local_ip() {
        Ok(ip) => Some(ip.to_string()),
        Err(_) => None,
    }
}

/// The text announced for a lookup of the local address: the address found, `0.0.0.0`
/// where none was.
pub fn ip_text_or_unspecified(found: Option<String>) -> (res: String)
    ensures
        found matches Some(t) ==> res@ == t@,
        found is None ==> res@ == "0.0.0.0"@,
{
    match found {
        Some(t) => t,
        None => String::from_str("0.0.0.0"),
    }
}

/// The machine's local IP address as text, `0.0.0.0` where it cannot be found. The address
/// depends on the machine; what is done with the lookup's answer is `ip_text_or_unspecified`.
/// Either way the text has the shape of an IP address.
pub fn get_ip_string() -> (res: String)
    ensures
        is_ip_text(res@),
{
    let found = local_ip_text();
    proof {
        reveal_strlit("0.0.0.0");
        assert(is_ip_text("0.0.0.0"@));
    }
    ip_text_or_unspecified(found)
}

} // verus!
