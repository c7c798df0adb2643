//! Command-line commands, decoded from parsed flags.
//!
//! Flag parsing itself is the caller's business; this module only maps
//! a consistent set of parsed flags and positional arguments onto the
//! command they select.

use vstd::prelude::*;

verus! {

/// A command accepted by the packager.
#[derive(Debug)]
pub enum Command {
    /// Print the version banner.
    Version,
    /// List the entries of the given tape image.
    List(String),
    /// Add the given files to the given tape image, creating it when
    /// it does not exist.
    Add(String, Vec<String>),
    /// Extract every entry of the given tape image.
    Extract(String),
    /// Export the given tape image as an audio file at the given path.
    Export(String, String),
}

/// The flags and positional arguments of one invocation, with at most
/// one mode flag meaningfully set.
pub struct Args {
    /// The version flag.
    pub flag_version: bool,
    /// The list flag.
    pub flag_list: bool,
    /// The add flag.
    pub flag_add: bool,
    /// The extract flag.
    pub flag_extract: bool,
    /// The export flag.
    pub flag_export: bool,
    /// The tape image path.
    pub arg_cas_file: String,
    /// The files to add.
    pub arg_file: Vec<String>,
    /// The audio output path.
    pub arg_wav_file: String,
}

impl Args {
    /// The command the flags select, by the first mode flag set.
    pub fn cmd(self) -> (c: Command)
        requires
            self.flag_version || self.flag_list || self.flag_add || self.flag_extract
                || self.flag_export,
        ensures
            self.flag_version ==> c == Command::Version,
            !self.flag_version && self.flag_list ==> (c matches Command::List(p) && p
                == self.arg_cas_file),
            !self.flag_version && !self.flag_list && self.flag_add ==> (c matches Command::Add(
                p,
                fs,
            ) && p == self.arg_cas_file && fs == self.arg_file),
            !self.flag_version && !self.flag_list && !self.flag_add && self.flag_extract ==> (
            c matches Command::Extract(p) && p == self.arg_cas_file),
            !self.flag_version && !self.flag_list && !self.flag_add && !self.flag_extract
                && self.flag_export ==> (c matches Command::Export(p, w) && p
                == self.arg_cas_file && w == self.arg_wav_file),
    {
        if self.flag_version {
            Command::Version
        } else if self.flag_list {
            Command::List(self.arg_cas_file)
        } else if self.flag_add {
            Command::Add(self.arg_cas_file, self.arg_file)
        } else if self.flag_extract {
            Command::Extract(self.arg_cas_file)
        } else {
            Command::Export(self.arg_cas_file, self.arg_wav_file)
        }
    }
}

} // verus!
