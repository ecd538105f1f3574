//! Bridge between a `pianobar` process and the programs that drive it.
//!
//! The player is a child process. It is driven by commands written to its input,
//! and it reports on its output, among ordinary text, messages in frames. This
//! library holds what such a bridge has to decide:
//!
//! - [`messages`]: the messages, and the parser that finds them in the bytes of
//!   the player's output; [`song_time`]: the argument of a `TIME` message;
//!   [`frames`]: what the parser does with whole frames, and how it finds its way
//!   back after bytes that are none.
//! - [`player_state`]: the state of the player as the messages give it.
//! - [`actions`]: the command for each action, and how the reply to an action is
//!   told from the other messages.
//! - [`actor`]: the course of writing a command to the player's input.
//! - [`player_config`]: the settings that make the player write its messages as
//!   frames; [`ui_event`]: what the player hands to its event command.
//! - [`config`], [`default_config`]: the settings of the server.
//!
//! Reading and writing the pipes, the channels between tasks and the network are
//! left to the program that uses the library.

pub mod actions;
pub mod actor;
pub mod config;
pub mod default_config;
pub mod frames;
pub mod messages;
pub mod player_config;
pub mod player_state;
pub mod song_time;
pub mod text;
pub mod ui_event;
