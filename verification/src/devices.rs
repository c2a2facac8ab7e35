//! Raw input devices.
use vstd::prelude::*;

verus! {

/// Kinds of raw input device.
#[derive(PartialEq, Eq, Structural, Clone, Copy, Debug)]
pub enum DeviceType {
    Mice,
    Keyboards,
    Joysticks(XInputInclude),
}

/// Whether Xbox 360 controllers are taken as joysticks. Raw input supports them poorly:
/// the triggers share one axis, and there is no rumble and no central button.
#[derive(PartialEq, Eq, Structural, Clone, Copy, Debug)]
pub enum XInputInclude {
    True,
    False,
}

/// The number of devices of each kind that are connected.
pub struct DeviceStats {
    pub number_of_mice: usize,
    pub number_of_keyboards: usize,
    pub number_of_joysticks: usize,
}

impl Default for DeviceStats {
    fn default() -> (s: DeviceStats)
        ensures
            s.number_of_mice == 0,
            s.number_of_keyboards == 0,
            s.number_of_joysticks == 0,
    {
        DeviceStats { number_of_mice: 0, number_of_keyboards: 0, number_of_joysticks: 0 }
    }
}

} // verus!
