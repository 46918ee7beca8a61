//! Device discovery, mirroring presets and small device actions for an
//! Android screen-mirroring front end, with the text handling that reads
//! adb's output proved against a model of Rust's string functions.

pub mod text;
pub mod devices;
pub mod tools;
pub mod scrcpy;
pub mod actions;
pub mod settings;
