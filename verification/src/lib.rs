//! The logic of a terminal hexdump monitor for a live target memory region.
//!
//! * [`options`] turns command line options into a configuration, with [`number`] to read numbers;
//! * [`symbols`] is the table of an ELF file's symbols, which [`elf`] reads;
//! * [`reader`] is what the monitor reads through, with a synthetic region; [`jlink`] decides how a
//!   J-Link is found, connected to and read;
//! * [`app`] is the monitor's state, [`keys`] what the keys do to it;
//! * [`ui`] lays out the screen, out of [`word`]s, [`style`]d text and [`layout`] areas;
//! * [`text`] and [`time`] hold what the others share.

pub mod app;
pub mod elf;
pub mod jlink;
pub mod keys;
pub mod layout;
pub mod number;
pub mod options;
pub mod reader;
pub mod style;
pub mod symbols;
pub mod text;
pub mod time;
pub mod ui;
pub mod word;
