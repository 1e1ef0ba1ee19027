use vstd::prelude::*;

verus! {

/// Which terminal backend drives the display.
#[derive(Clone, Copy, Debug, PartialEq, Eq, Structural)]
pub enum IOAdapter {
    Pancurses,
    Termion,
}

/// Logging configuration: the level name and whether lines carry
/// timestamps.
#[derive(Debug)]
pub struct LoggingConfig {
    pub log_level: String,
    pub use_timestamps: bool,
}

impl LoggingConfig {
    /// Whether the level names one of the recognized logging levels.
    pub fn level_valid(&self) -> (r: bool)
        ensures
            r == (self.log_level@ == "error"@ || self.log_level@ == "warn"@ || self.log_level@
                == "info"@ || self.log_level@ == "debug"@ || self.log_level@ == "trace"@),
    {
        self.log_level == String::from_str("error") || self.log_level == String::from_str("warn")
            || self.log_level == String::from_str("info") || self.log_level == String::from_str(
            "debug",
        ) || self.log_level == String::from_str("trace")
    }
}

/// Display configuration: the backend, frame timing, terminal size and
/// the cursor glyph.
#[derive(Debug)]
pub struct DisplayConfig {
    pub adapter: IOAdapter,
    pub frame_rate: u32,
    pub animation_base_time_millis: u32,
    pub width: i32,
    pub height: i32,
    pub cursor_char: char,
}

impl DisplayConfig {
    /// Whether the terminal meets the minimum display size of 80 by 24.
    pub fn size_valid(&self) -> (r: bool)
        ensures
            r == (self.width >= 80 && self.height >= 24),
    {
        self.width >= 80 && self.height >= 24
    }
}

/// Where resource definitions are read from.
#[derive(Debug)]
pub struct ResourcesConfig {
    pub directory: String,
}

} // verus!
