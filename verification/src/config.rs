//! The settings that the server is started with.

use vstd::prelude::*;
use vstd::string::*;

verus! {

/// The settings of the server.
#[derive(Clone, Debug, PartialEq, Eq)]
pub struct Config {
    /// TCP port on which player events are received.
    pub event_port: u16,
    /// TCP port on which the web interface is served.
    pub port: u16,
    /// The directory of the web interface's files, if they are to be served.
    pub webpage_folder: Option<String>,
    /// How talkative the log is: zero for warnings only, more for more.
    pub verbose: usize,
    /// The path of the player's executable.
    pub pianobar_path: String,
    /// The path of the player's configuration file.
    pub pianobar_config: String,
}

/// The name of the log level that goes with a verbosity.
pub open spec fn log_filter_text(verbose: nat) -> Seq<char> {
    if verbose == 0 {
        "warn"@
    } else if verbose == 1 {
        "info"@
    } else if verbose == 2 {
        "debug"@
    } else {
        "trace"@
    }
}

impl Config {
    /// The log level to use where none is set from outside.
    pub fn log_filter(&self) -> (filter: &'static str)
        ensures
            filter@ == log_filter_text(self.verbose as nat),
    {
        if self.verbose == 0 {
            "warn"
        } else if self.verbose == 1 {
            "info"
        } else if self.verbose == 2 {
            "debug"
        } else {
            "trace"
        }
    }
}

} // verus!
