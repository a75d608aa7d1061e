//! What the library's operations are for, stated over what goes into them and
//! what comes out: bytes, characters and numbers.

pub mod accessors;
pub mod attaching;
pub mod binaries;
pub mod discovery;
pub mod display;
pub mod frames;
pub mod layouts;
pub mod maps;
pub mod memory;
pub mod operations;
pub mod pace;
pub mod profiles;
pub mod pushes;
pub mod requests;
pub mod sinks;
pub mod texts;
pub mod views;
