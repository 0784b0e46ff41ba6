//! The beam plugin whose pulses come by message: so far its identity alone.
use crate::host::{PluginInfo, PluginType};
use vstd::prelude::*;

verus! {

/// The plugin, which has no state yet.
#[derive(Clone, Copy, Debug, PartialEq, Eq, Structural)]
pub struct PulseBeam;

impl PulseBeam {
    pub fn new() -> (b: PulseBeam)
        ensures
            b == PulseBeam,
    {
        PulseBeam
    }

    pub fn plugin_info() -> (info: PluginInfo)
        ensures
            info.unique_id@ == seq![0x50u8, 0x4c, 0x42, 0x4d],
            info.name@ == seq![
                0x50u8, 0x75, 0x6c, 0x73, 0x65, 0x42, 0x65, 0x61, 0x6d, 0x20, 0x20, 0x20, 0x20,
                0x20, 0x20, 0x20,
            ],
            info.ty == PluginType::Source,
            info.about@ == "Triggerable light pulse source with MQTT"@,
            info.description@
                == "A line of light that sweeps across the canvas with configurable trail, rotation, and MQTT trigger support."@,
    {
        let info = PluginInfo {
            unique_id: [0x50, 0x4c, 0x42, 0x4d],
            name: [
                0x50, 0x75, 0x6c, 0x73, 0x65, 0x42, 0x65, 0x61, 0x6d, 0x20, 0x20, 0x20, 0x20, 0x20,
                0x20, 0x20,
            ],
            ty: PluginType::Source,
            about: "Triggerable light pulse source with MQTT",
            description:
                "A line of light that sweeps across the canvas with configurable trail, rotation, and MQTT trigger support.",
        };
        assert(info.unique_id@ =~= seq![0x50u8, 0x4c, 0x42, 0x4d]);
        assert(info.name@ =~= seq![
            0x50u8, 0x75, 0x6c, 0x73, 0x65, 0x42, 0x65, 0x61, 0x6d, 0x20, 0x20, 0x20, 0x20, 0x20,
            0x20, 0x20,
        ]);
        info
    }
}

} // verus!
