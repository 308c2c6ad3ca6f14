//! The USB side of the receiver: recognising the CH340 serial bridge, the vendor requests that
//! set it up, choosing its bulk endpoints, and describing serial devices to clients.
use vstd::prelude::*;
use crate::text::string_from_chars;

verus! {

/// The CH340 USB-serial bridge's vendor id.
pub const CH340_VENDOR_ID: u16 = 0x1a86u16;

/// The CH340 USB-serial bridge's product id.
pub const CH340_PRODUCT_ID: u16 = 0x7523u16;

/// Whether a device is the CH340 bridge.
pub fn is_ch340(vendor_id: u16, product_id: u16) -> (res: bool)
    ensures
        res == (vendor_id == 0x1a86 && product_id == 0x7523),
{
    vendor_id == CH340_VENDOR_ID && product_id == CH340_PRODUCT_ID
}

/// A vendor control request sent to the device (recipient: the device, no data).
pub struct VendorRequest {
    pub request: u8,
    pub value: u16,
    pub index: u16,
}

/// The requests that set the CH340 up, in order: initialise the chip, set the baud rate
/// (115200), set the line control (8 data bits, no parity, 1 stop bit) and enable the UART.
pub fn ch340_setup_requests() -> (res: Vec<VendorRequest>)
    ensures
        res@.len() == 3,
        res@[0] == (VendorRequest { request: 0xa1, value: 0x0000, index: 0x0000 }),
        res@[1] == (VendorRequest { request: 0x9a, value: 0x1312, index: 0xcc03 }),
        res@[2] == (VendorRequest { request: 0x9a, value: 0x2518, index: 0x00c3 }),
{
    let mut res: Vec<VendorRequest> = Vec::new();
    res.push(VendorRequest { request: 0xa1, value: 0x0000, index: 0x0000 });
    res.push(VendorRequest { request: 0x9a, value: 0x1312, index: 0xcc03 });
    res.push(VendorRequest { request: 0x9a, value: 0x2518, index: 0x00c3 });
    res
}

/// What the endpoint choice reads of an endpoint descriptor.
pub struct EndpointInfo {
    pub is_bulk: bool,
    pub is_in: bool,
    pub address: u8,
}

/// The address of the last bulk endpoint of the given direction, or 0 when there is none.
pub open spec fn last_bulk_address(eps: Seq<EndpointInfo>, want_in: bool) -> u8
    decreases eps.len(),
{
    if eps.len() == 0 {
        0
    } else if eps.last().is_bulk && eps.last().is_in == want_in {
        eps.last().address
    } else {
        last_bulk_address(eps.drop_last(), want_in)
    }
}

/// The bulk IN and bulk OUT endpoint addresses to use, from the endpoints of all interfaces
/// and alternate settings in order: the last of each kind wins, 0 when there is none.
pub fn select_bulk_endpoints(eps: &Vec<EndpointInfo>) -> (res: (u8, u8))
    ensures
        res.0 == last_bulk_address(eps@, true),
        res.1 == last_bulk_address(eps@, false),
{
    let mut ep_in: u8 = 0;
    let mut ep_out: u8 = 0;
    let mut i: usize = 0;
    while i < eps.len()
        invariant
            i <= eps@.len(),
            ep_in == last_bulk_address(eps@.take(i as int), true),
            ep_out == last_bulk_address(eps@.take(i as int), false),
        decreases eps@.len() - i,
    {
        let e = &eps[i];
        proof {
            assert(eps@.take(i + 1).drop_last() =~= eps@.take(i as int));
            assert(eps@.take(i + 1).last() == eps@[i as int]);
        }
        if e.is_bulk {
            if e.is_in {
                ep_in = e.address;
            } else {
                ep_out = e.address;
            }
        }
        i = i + 1;
    }
    assert(eps@.take(eps@.len() as int) =~= eps@);
    (ep_in, ep_out)
}

/// Class, subclass and protocol of an interface's alternate setting.
pub struct InterfaceClass {
    pub class: u8,
    pub subclass: u8,
    pub protocol: u8,
}

/// An alternate setting that makes a device a serial port: a vendor-specific one on the CH340,
/// or the CDC ACM class (2, 2, 1) on any device.
pub open spec fn is_serial_setting(vendor_id: u16, product_id: u16, c: InterfaceClass) -> bool {
    ||| c.class == 0xff && vendor_id == 0x1a86 && product_id == 0x7523
    ||| c.class == 0x02 && c.subclass == 0x02 && c.protocol == 0x01
}

/// Whether a device with these alternate settings is offered as a serial port.
pub fn is_cdc_acm(vendor_id: u16, product_id: u16, settings: &Vec<InterfaceClass>) -> (res: bool)
    ensures
        res == exists|i: int|
            0 <= i < settings@.len() && is_serial_setting(vendor_id, product_id, #[trigger] settings@[i]),
{
    let mut i: usize = 0;
    while i < settings.len()
        invariant
            i <= settings@.len(),
            forall|j: int| 0 <= j < i ==> !is_serial_setting(vendor_id, product_id, #[trigger] settings@[j]),
        decreases settings@.len() - i,
    {
        let c = &settings[i];
        if c.class == 0xff && is_ch340(vendor_id, product_id) {
            return true;
        }
        if c.class == 0x02 && c.subclass == 0x02 && c.protocol == 0x01 {
            return true;
        }
        i = i + 1;
    }
    false
}

/// The lower-case hexadecimal digit for `d` (below 16).
pub open spec fn hex_digit_char(d: int) -> char {
    if d < 10 {
        (48 + d) as char
    } else {
        (87 + d) as char
    }
}

/// `v` as four lower-case hexadecimal digits, zero-padded (what `{:04x}` writes for a `u16`).
pub open spec fn hex4_spec(v: u16) -> Seq<char> {
    seq![
        hex_digit_char((v / 4096) as int),
        hex_digit_char(((v / 256) % 16) as int),
        hex_digit_char(((v / 16) % 16) as int),
        hex_digit_char((v % 16) as int),
    ]
}

fn hex_digit(d: u16) -> (res: char)
    requires
        d < 16,
    ensures
        res == hex_digit_char(d as int),
{
    let b: u8 = if d < 10 {
        48u8 + (d as u8)
    } else {
        87u8 + (d as u8)
    };
    b as char
}

/// `v` as four lower-case hexadecimal digits.
pub fn hex4(v: u16) -> (res: String)
    ensures
        res@ == hex4_spec(v),
{
    let mut cs: Vec<char> = Vec::new();
    cs.push(hex_digit(v / 4096));
    cs.push(hex_digit((v / 256) % 16));
    cs.push(hex_digit((v / 16) % 16));
    cs.push(hex_digit(v % 16));
    assert(cs@ =~= hex4_spec(v));
    string_from_chars(cs.as_slice())
}

/// A serial device as it is listed to clients.
pub struct UsbDevice {
    pub id: String,
    pub name: String,
    pub vendor: Option<String>,
    pub product: Option<String>,
}

/// The listing of a serial device: `vvvv-pppp` as id, its product string as name (or
/// `Unknown CDC ACM Device`), and the vendor and product ids in hexadecimal.
pub fn usb_device_entry(vendor_id: u16, product_id: u16, product_string: Option<String>) -> (res:
    UsbDevice)
    ensures
        res.id@ == hex4_spec(vendor_id) + "-"@ + hex4_spec(product_id),
        product_string matches Some(p) ==> res.name@ == p@,
        product_string is None ==> res.name@ == "Unknown CDC ACM Device"@,
        res.vendor matches Some(v) && v@ == hex4_spec(vendor_id),
        res.product matches Some(p) && p@ == hex4_spec(product_id),
{
    let mut id = hex4(vendor_id);
    id.append("-");
    let p = hex4(product_id);
    id.append(p.as_str());
    let name = match product_string {
        Some(s) => s,
        None => String::from_str("Unknown CDC ACM Device"),
    };
    UsbDevice { id, name, vendor: Some(hex4(vendor_id)), product: Some(p) }
}


/// The endpoint chosen for a direction is a bulk endpoint of that direction, the last one in
/// the list; when there is none the choice is 0. Endpoints that are not bulk, or of the other
/// direction, never change the choice.
pub proof fn law_chosen_endpoint_is_the_last_bulk_one(eps: Seq<EndpointInfo>, want_in: bool)
    ensures
        (exists|i: int| 0 <= i < eps.len() && (#[trigger] eps[i]).is_bulk && eps[i].is_in == want_in)
            ==> exists|i: int|
            0 <= i < eps.len() && (#[trigger] eps[i]).is_bulk && eps[i].is_in == want_in
                && last_bulk_address(eps, want_in) == eps[i].address && forall|j: int|
                i < j < eps.len() ==> !(eps[j].is_bulk && eps[j].is_in == want_in),
        (forall|i: int| 0 <= i < eps.len() ==> !((#[trigger] eps[i]).is_bulk && eps[i].is_in
            == want_in)) ==> last_bulk_address(eps, want_in) == 0,
        forall|e: EndpointInfo|
            !(e.is_bulk && e.is_in == want_in) ==> #[trigger] last_bulk_address(eps.push(e), want_in)
                == last_bulk_address(eps, want_in),
    decreases eps.len(),
{
    assert forall|e: EndpointInfo|
        !(e.is_bulk && e.is_in == want_in) implies #[trigger] last_bulk_address(eps.push(e), want_in)
        == last_bulk_address(eps, want_in) by {
        assert(eps.push(e).drop_last() =~= eps);
    }
    if eps.len() > 0 {
        let rest = eps.drop_last();
        law_chosen_endpoint_is_the_last_bulk_one(rest, want_in);
        let n = eps.len() - 1;
        if eps.last().is_bulk && eps.last().is_in == want_in {
            assert(eps[n] == eps.last());
        } else {
            if exists|i: int| 0 <= i < eps.len() && (#[trigger] eps[i]).is_bulk && eps[i].is_in == want_in {
                let i = choose|i: int| 0 <= i < eps.len() && (#[trigger] eps[i]).is_bulk && eps[i].is_in == want_in;
                assert(i != n);
                assert(rest[i] == eps[i]);
                let i2 = choose|i: int|
                    0 <= i < rest.len() && (#[trigger] rest[i]).is_bulk && rest[i].is_in == want_in
                        && last_bulk_address(rest, want_in) == rest[i].address && forall|j: int|
                        i < j < rest.len() ==> !(rest[j].is_bulk && rest[j].is_in == want_in);
                assert(eps[i2] == rest[i2]);
                assert forall|j: int| i2 < j < eps.len() implies !(eps[j].is_bulk && eps[j].is_in
                    == want_in) by {
                    if j < n {
                        assert(eps[j] == rest[j]);
                    }
                }
            }
            assert forall|i: int| 0 <= i < rest.len() implies !((#[trigger] rest[i]).is_bulk
                && rest[i].is_in == want_in) || exists|q: int|
                0 <= q < eps.len() && (#[trigger] eps[q]).is_bulk && eps[q].is_in == want_in by {
                assert(eps[i] == rest[i]);
            }
        }
    }
}


/// The value of a lower-case hexadecimal digit.
pub open spec fn hex_digit_value(c: char) -> int {
    if '0' <= c <= '9' {
        c as int - 48
    } else {
        c as int - 87
    }
}

/// The four digits of `hex4` are lower-case hexadecimal digits that read back as the number,
/// most significant first.
pub proof fn law_hex4_reads_back(v: u16)
    ensures
        hex4_spec(v).len() == 4,
        forall|k: int|
            0 <= k < 4 ==> ('0' <= #[trigger] hex4_spec(v)[k] <= '9') || ('a' <= hex4_spec(v)[k]
                <= 'f'),
        4096 * hex_digit_value(hex4_spec(v)[0]) + 256 * hex_digit_value(hex4_spec(v)[1]) + 16
            * hex_digit_value(hex4_spec(v)[2]) + hex_digit_value(hex4_spec(v)[3]) == v,
{
    let h = hex4_spec(v);
    let d0 = (v / 4096) as int;
    let d1 = ((v / 256) % 16) as int;
    let d2 = ((v / 16) % 16) as int;
    let d3 = (v % 16) as int;
    assert(v / 4096 < 16) by (bit_vector);
    assert(hex_digit_value(h[0]) == d0);
    assert(hex_digit_value(h[1]) == d1);
    assert(hex_digit_value(h[2]) == d2);
    assert(hex_digit_value(h[3]) == d3);
    assert(4096 * (v / 4096) + 256 * ((v / 256) % 16) + 16 * ((v / 16) % 16) + v % 16 == v)
        by (bit_vector);
}

} // verus!
