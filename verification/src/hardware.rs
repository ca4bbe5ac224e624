//! The hardware-facing interfaces the terminal's logic talks to, and the
//! construction of the hotspot controller with its fixed defaults.

use vstd::prelude::*;
use vstd::string::StringExecFns;

use crate::color::Rgb;
use crate::errors::TallyError;
use crate::hotspot::NMHotspot;

verus! {

/// A status LED, owned by the feedback worker.
pub trait StatusLed {
    fn turn_off(&mut self) -> Result<(), TallyError>;

    fn turn_on(&mut self, color: Rgb) -> Result<(), TallyError>;
}

/// A guest-network hotspot that can be brought up and down.
pub trait Hotspot {
    fn enable_hotspot(&mut self) -> Result<(), TallyError>;

    fn disable_hotspot(&mut self) -> Result<(), TallyError>;
}

/// Builds the hotspot controller under its well-known profile name and
/// shared addressing, validating the credentials; a password shorter than
/// eight characters is rejected before any external command is issued.
pub fn create_hotspot(ssid: String, password: String) -> (r: Result<NMHotspot, TallyError>)
    ensures
        r is Ok <==> password@.len() >= 8,
        r matches Ok(h) ==> h.ssid_spec() == ssid@ && h.con_name_spec() == "fwa-hotspot"@
            && h.password_spec() == password@ && h.ipv4_spec() == "192.168.4.1/24"@,
        r matches Err(e) ==> e is ValidationError,
{
    NMHotspot::new(
        ssid,
        String::from_str("fwa-hotspot"),
        password,
        String::from_str("192.168.4.1/24"),
    )
}

} // verus!
