use vstd::prelude::*;

use crate::text::{replace_str, replaced};

verus! {

/// Reports shorter than this never signal a key press.
pub const MIN_REPORT_LEN: usize = 5;

/// One raw report read from an input device.
pub struct KeyEvent(Vec<u8>);

impl View for KeyEvent {
    type V = Seq<u8>;

    closed spec fn view(&self) -> Seq<u8> {
        self.0@
    }
}

/// A report signals a press when it is long enough and its flag byte is nonzero.
pub open spec fn report_is_down(r: Seq<u8>) -> bool {
    r.len() >= 5 && r[4] > 0
}

/// The key code: the 16-bit value of bytes 2 and 3, low byte first.
pub open spec fn report_key(r: Seq<u8>) -> u16
    recommends
        r.len() >= 4,
{
    (r[2] as int + 256 * (r[3] as int)) as u16
}

impl KeyEvent {
    /// Wraps the bytes of one report.
    pub fn new(report: Vec<u8>) -> (e: KeyEvent)
        ensures
            e@ == report@,
    {
        KeyEvent(report)
    }

    pub fn is_down(&self) -> (r: bool)
        ensures
            r == report_is_down(self@),
    {
        self.0.len() >= MIN_REPORT_LEN && self.0[4] > 0
    }

    /// Number of bytes in the report.
    pub fn len(&self) -> (n: usize)
        ensures
            n == self@.len(),
    {
        self.0.len()
    }

    /// The key code, when the report is long enough to hold one.
    pub fn key_code(&self) -> (r: Option<u16>)
        ensures
            self@.len() >= 4 ==> r == Some(report_key(self@)),
            self@.len() < 4 ==> r is None,
    {
        if self.0.len() >= 4 {
            Some(self.key_bytes())
        } else {
            None
        }
    }

    pub fn key_bytes(&self) -> (r: u16)
        requires
            self@.len() >= 4,
        ensures
            r == report_key(self@),
    {
        let lo = self.0[2] as u16;
        let hi = self.0[3] as u16;
        lo + hi * 256
    }
}

/// The token the lighting server puts in front of an input device's path.
pub open spec fn location_prefix() -> Seq<char> {
    seq!['H', 'I', 'D', ':', ' ']
}

/// The path of the input device behind a controller's location: the location
/// with every `"HID: "` removed.
pub fn device_path(location: &str) -> (r: String)
    ensures
        r@ == replaced(location@, location_prefix(), Seq::empty()),
{
    proof {
        reveal_strlit("HID: ");
        reveal_strlit("");
    }
    assert("HID: "@ =~= location_prefix());
    assert(""@ =~= Seq::<char>::empty());
    replace_str(location, "HID: ", "")
}

} // verus!
