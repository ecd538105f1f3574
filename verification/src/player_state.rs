//! The state of the player as the last `TIME` message gave it.

use crate::messages::{MessageView, PianobarMessage};
use vstd::prelude::*;

verus! {

/// What is known of the player: how much of the current song has been played,
/// how long the song is, both in seconds, and whether the player is paused.
#[derive(Clone, Copy, Debug, PartialEq, Eq, Structural)]
pub struct PianobarPlayerState {
    pub song_time_played: u32,
    pub song_time_total: u32,
    pub paused: bool,
}

impl PianobarPlayerState {
    /// The state before any message: no song, paused.
    pub open spec fn initial() -> PianobarPlayerState {
        PianobarPlayerState { song_time_played: 0, song_time_total: 0, paused: true }
    }

    /// The state that a message brings, if it brings one: only a `TIME` message
    /// does.
    pub open spec fn brought_by(message: MessageView) -> Option<PianobarPlayerState> {
        match message {
            MessageView::SongTime { current, total, paused } => Some(
                PianobarPlayerState {
                    song_time_played: current,
                    song_time_total: total,
                    paused,
                },
            ),
            _ => None,
        }
    }

    /// The state after a message.
    pub open spec fn after(self, message: MessageView) -> PianobarPlayerState {
        match PianobarPlayerState::brought_by(message) {
            Some(state) => state,
            None => self,
        }
    }

    /// The state after a list of messages, taken in their order.
    pub open spec fn after_all(self, messages: Seq<MessageView>) -> PianobarPlayerState
        decreases messages.len(),
    {
        if messages.len() == 0 {
            self
        } else {
            self.after_all(messages.drop_last()).after(messages.last())
        }
    }

    /// The state that the latest `TIME` message of a list brings, if the list
    /// holds one.
    pub open spec fn latest(messages: Seq<MessageView>) -> Option<PianobarPlayerState>
        decreases messages.len(),
    {
        if messages.len() == 0 {
            None
        } else {
            match PianobarPlayerState::brought_by(messages.last()) {
                Some(state) => Some(state),
                None => PianobarPlayerState::latest(messages.drop_last()),
            }
        }
    }

    /// The state before any message: no song, paused.
    pub fn initial_state() -> (state: PianobarPlayerState)
        ensures
            state == PianobarPlayerState::initial(),
    {
        PianobarPlayerState { song_time_played: 0, song_time_total: 0, paused: true }
    }

    /// Takes a message in. Returns the new state, to be made known, where the
    /// message is a `TIME` message, and nothing where it is another: the state
    /// then stays as it is.
    pub fn process_message(&self, message: &PianobarMessage) -> (next: Option<PianobarPlayerState>)
        ensures
            next == PianobarPlayerState::brought_by(message@),
            self.after(message@) == (match next {
                Some(state) => state,
                None => *self,
            }),
    {
        match message {
            PianobarMessage::SongTime { current, total, paused } => Some(
                PianobarPlayerState {
                    song_time_played: *current,
                    song_time_total: *total,
                    paused: *paused,
                },
            ),
            _ => None,
        }
    }
}

/// Whatever messages have come, the state is the one that the latest `TIME`
/// message brought; it is the state from before only while there has been none.
pub proof fn lemma_state_is_latest(state: PianobarPlayerState, messages: Seq<MessageView>)
    ensures
        state.after_all(messages) == (match PianobarPlayerState::latest(messages) {
            Some(latest) => latest,
            None => state,
        }),
    decreases messages.len(),
{
    if messages.len() > 0 {
        lemma_state_is_latest(state, messages.drop_last());
    }
}

/// Once a `TIME` message has come, the state is no longer the one from before,
/// unless a message said just that.
pub proof fn lemma_state_follows_messages(
    state: PianobarPlayerState,
    messages: Seq<MessageView>,
    position: int,
)
    requires
        0 <= position < messages.len(),
        messages[position] is SongTime,
    ensures
        PianobarPlayerState::latest(messages) is Some,
        state.after_all(messages) == PianobarPlayerState::latest(messages).unwrap(),
    decreases messages.len(),
{
    lemma_state_is_latest(state, messages);
    if position < messages.len() - 1 {
        lemma_state_follows_messages(state, messages.drop_last(), position);
    }
}

} // verus!
