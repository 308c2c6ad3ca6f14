use vstd::prelude::*;

pub mod appstate;
pub mod beacon;
pub mod framebuffer;
pub mod gst;
pub mod json;
pub mod lpm;
pub mod ntrip;
pub mod status;
pub mod stream;
pub mod text;
pub mod track;
pub mod usb;

verus! {
}
