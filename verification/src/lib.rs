//! Verified core of the radio front-panel controller: the serial line
//! protocol spoken with the front panel, the decisions of the sound loop,
//! and the plain data types the rest of the program passes around.

pub mod buffer;
pub mod text;
pub mod front_panel_input;
pub mod sound_loop;
pub mod effect;
pub mod config;
