//! Defaults shared by the programs built around the library.

use vstd::prelude::*;

verus! {

/// TCP port on which player events are received.
pub const EVENT_PORT: u16 = 12384;

/// TCP port on which the web interface is served.
pub const WEBSERVER_PORT: u16 = 3030;

/// Name of the player executable, looked up in `PATH`.
pub const PIANOBAR_COMMAND: &'static str = "pianobar";

} // verus!
