//! The settings the app remembers between sessions, and their defaults.

use vstd::prelude::*;

verus! {

/// What the app remembers: the last device address and ports, the mirroring
/// quality, the appearance, and whether to reconnect on start.
#[derive(Debug)]
pub struct Settings {
    pub ip: String,
    pub connect_port: String,
    pub pair_port: String,
    pub quality: String,
    pub theme: String,
    pub accent: String,
    pub auto_connect: bool,
}

impl Default for Settings {
    /// No remembered address, adb's usual port 5555 for connecting and
    /// pairing, Medium quality, the dark theme with the pink accent, and no
    /// automatic connection.
    fn default() -> (s: Self)
        ensures
            s.ip@ == Seq::<char>::empty(),
            s.connect_port@ == "5555"@,
            s.pair_port@ == "5555"@,
            s.quality@ == "Medium"@,
            s.theme@ == "dark"@,
            s.accent@ == "pink"@,
            !s.auto_connect,
    {
        Settings {
            ip: String::new(),
            connect_port: String::from_str("5555"),
            pair_port: String::from_str("5555"),
            quality: String::from_str("Medium"),
            theme: String::from_str("dark"),
            accent: String::from_str("pink"),
            auto_connect: false,
        }
    }
}

impl Clone for Settings {
    fn clone(&self) -> (r: Self)
        ensures
            r == *self,
    {
        Settings {
            ip: self.ip.clone(),
            connect_port: self.connect_port.clone(),
            pair_port: self.pair_port.clone(),
            quality: self.quality.clone(),
            theme: self.theme.clone(),
            accent: self.accent.clone(),
            auto_connect: self.auto_connect,
        }
    }
}

} // verus!
