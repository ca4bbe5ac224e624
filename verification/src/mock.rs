//! Mock hardware: stand-ins for the LED, buzzer and hotspot, used when
//! the terminal runs without its peripherals and by the tests.

use vstd::prelude::*;

use crate::color::Rgb;
use crate::errors::TallyError;
use crate::hardware::{Hotspot, StatusLed};

verus! {

/// A buzzer that makes no sound.  Tone rendering itself lives with the
/// runtime's audio driver.
pub struct MockBuzzer {}

/// An LED that lights nothing.
pub struct MockLed {}

impl StatusLed for MockLed {
    fn turn_off(&mut self) -> Result<(), TallyError> {
        Ok(())
    }

    fn turn_on(&mut self, _color: Rgb) -> Result<(), TallyError> {
        Ok(())
    }
}

/// A hotspot that is never really brought up or down.
pub struct MockHotspot {}

impl Hotspot for MockHotspot {
    fn enable_hotspot(&mut self) -> Result<(), TallyError> {
        Ok(())
    }

    fn disable_hotspot(&mut self) -> Result<(), TallyError> {
        Ok(())
    }
}

} // verus!
