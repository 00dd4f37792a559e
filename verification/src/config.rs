//! The program's settings.
use vstd::prelude::*;

verus! {

/// The settings read from the configuration file.
#[derive(Debug)]
pub struct Config {
    /// The path of the serial port the front panel is attached to.
    pub front_panel_serial: String,
}

} // verus!
