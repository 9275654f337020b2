//! Terminal text reveal animations: typewriter timing, pulse phase,
//! ANSI-aware tokenizing and frame building, reader segmentation and
//! the argument grammar of the `jiwa` command.

pub mod time;
pub mod text;
pub mod color;
pub mod typewriter;
pub mod pulse;
pub mod render;
pub mod reader;
pub mod numeral;
pub mod decimal;
pub mod cli;
pub mod sound;
pub mod screen;

pub use color::Rgb;
pub use pulse::{PulseHandle, PulseOpts};
pub use typewriter::{RevealHandle, RevealOpts};
