use vstd::prelude::*;

verus! {

/// What the command line asks for.
pub struct StreamlineOptions {
    pub command: StreamlineCommands,
}

/// The two commands of the tool.
pub enum StreamlineCommands {
    /// Analyze firmware for potentially vulnerable target locations.
    Analyze {
        /// Path to the firmware to analyze.
        firmware: String,
        /// Path to a YAML file with sensitive functions.
        sensitive_functions: String,
    },
    /// Emulate and fuzz firmware.
    Fuzz {},
}

} // verus!
