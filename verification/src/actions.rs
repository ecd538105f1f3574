//! What is written to the player for each action, and how the reply to an action
//! is told from the other messages that the player sends meanwhile.
//!
//! An action is sent as a command. _Explain_ and _history_ are answered in the
//! stream of messages; the caller hands over each event it sees after the
//! command: a message, a gap in the messages, the end of the messages, or the end
//! of the time it is willing to wait.

use crate::messages::{MessageView, PianobarMessage};
use crate::text::{append_decimal, decimal_text};
use vstd::prelude::*;
use vstd::string::*;

verus! {

/// How long a caller waits for the reply to an action, in milliseconds.
pub const REPLY_TIMEOUT_MS: u64 = 1000;

/// An action that the player can be asked for.
#[derive(Clone, Copy, Debug, PartialEq, Eq)]
pub enum PianobarAction {
    /// Play the station with this number.
    ChangeStation(usize),
    /// Stop playing.
    Pause,
    /// Go on playing.
    Resume,
    /// Stop if playing, go on if stopped.
    TogglePause,
    /// Go to the next song.
    Skip,
    /// Say why the current song was chosen.
    Explain,
    /// List the songs played before.
    History,
}

/// One song of the history.
#[derive(Clone, Debug, PartialEq, Eq)]
pub struct HistoryEntry {
    pub artist: String,
    pub title: String,
}

/// One song of the history, with its texts as sequences of characters.
pub struct HistoryEntryView {
    pub artist: Seq<char>,
    pub title: Seq<char>,
}

impl View for HistoryEntry {
    type V = HistoryEntryView;

    open spec fn view(&self) -> HistoryEntryView {
        HistoryEntryView { artist: self.artist@, title: self.title@ }
    }
}

/// What a caller that waits for a reply sees next.
#[derive(Clone, Debug, PartialEq, Eq)]
pub enum ReplyEvent {
    /// The player sent a message.
    Message(PianobarMessage),
    /// So many messages were missed because they came faster than they were read.
    Lagged(u64),
    /// There will be no more messages.
    Closed,
    /// The time to wait is over.
    Timeout,
}

/// An event, with its texts as sequences of characters.
pub enum ReplyEventView {
    Message(MessageView),
    Lagged(u64),
    Closed,
    Timeout,
}

impl View for ReplyEvent {
    type V = ReplyEventView;

    open spec fn view(&self) -> ReplyEventView {
        match *self {
            ReplyEvent::Message(message) => ReplyEventView::Message(message@),
            ReplyEvent::Lagged(count) => ReplyEventView::Lagged(count),
            ReplyEvent::Closed => ReplyEventView::Closed,
            ReplyEvent::Timeout => ReplyEventView::Timeout,
        }
    }
}

/// Why an action got no reply.
#[derive(Clone, Copy, Debug, PartialEq, Eq)]
pub enum ActionError {
    /// The reply did not come in time.
    Timeout,
    /// So many messages were missed while waiting; the reply may be among them.
    Lagged(u64),
    /// The messages ended before the reply came.
    Closed,
}

/// The characters that every command begins with. They end whatever input the
/// player may be waiting for.
pub open spec fn reset_text() -> Seq<char> {
    "\r\n\r\n"@
}

/// What is written to the player for an action, behind the reset.
pub open spec fn action_text(action: PianobarAction) -> Seq<char> {
    match action {
        PianobarAction::ChangeStation(station_id) => "s"@ + decimal_text(station_id as nat)
            + "\n"@,
        PianobarAction::Pause => "S"@,
        PianobarAction::Resume => "P"@,
        PianobarAction::TogglePause => "p"@,
        PianobarAction::Skip => "n"@,
        PianobarAction::Explain => "e"@,
        PianobarAction::History => "h\r\n\r\n"@,
    }
}

/// `text` begins with `prefix`.
pub open spec fn text_starts_with(text: Seq<char>, prefix: Seq<char>) -> bool {
    prefix.len() <= text.len() && text.subrange(0, prefix.len() as int) == prefix
}

/// The text of an `INFO` message that answers _explain_.
pub open spec fn is_explanation(text: Seq<char>) -> bool {
    text_starts_with(text, "We're playing this track because"@)
}

/// The text of the `INFO` message that answers _history_ where there is none.
pub open spec fn is_no_history(text: Seq<char>) -> bool {
    text == "No history yet."@
}

/// The view of what a step of waiting gave.
pub open spec fn explain_view(step: Option<Result<String, ActionError>>) -> Option<
    Result<Seq<char>, ActionError>,
> {
    match step {
        Some(Ok(text)) => Some(Ok(text@)),
        Some(Err(error)) => Some(Err(error)),
        None => None,
    }
}

/// What an event means to a caller that waits for the reply to _explain_: the
/// reply, an error, or nothing, in which case the caller waits on. The reply is
/// the text of the first `INFO` message that is an explanation.
pub open spec fn explain_decision(event: ReplyEventView) -> Option<
    Result<Seq<char>, ActionError>,
> {
    match event {
        ReplyEventView::Message(MessageView::Info { message }) => if is_explanation(message) {
            Some(Ok(message))
        } else {
            None
        },
        ReplyEventView::Message(_) => None,
        ReplyEventView::Lagged(count) => Some(Err(ActionError::Lagged(count))),
        ReplyEventView::Closed => Some(Err(ActionError::Closed)),
        ReplyEventView::Timeout => Some(Err(ActionError::Timeout)),
    }
}

/// What a list of events, taken in their order, gives a caller that waits for the
/// reply to _explain_: what the first event gives that gives anything.
pub open spec fn explain_reply(events: Seq<ReplyEventView>) -> Option<
    Result<Seq<char>, ActionError>,
>
    decreases events.len(),
{
    if events.len() == 0 {
        None
    } else {
        match explain_decision(events[0]) {
            Some(reply) => Some(reply),
            None => explain_reply(events.drop_first()),
        }
    }
}

/// Whether an event ends the wait for the reply to _history_, and how: with the
/// list as it stands, or with an error. A `QUESTION` message ends it, and so does
/// the `INFO` message that tells that there is no history.
pub open spec fn history_decision(event: ReplyEventView) -> Option<Result<(), ActionError>> {
    match event {
        ReplyEventView::Message(MessageView::Info { message }) => if is_no_history(message) {
            Some(Ok(()))
        } else {
            None
        },
        ReplyEventView::Message(MessageView::Question { .. }) => Some(Ok(())),
        ReplyEventView::Message(_) => None,
        ReplyEventView::Lagged(count) => Some(Err(ActionError::Lagged(count))),
        ReplyEventView::Closed => Some(Err(ActionError::Closed)),
        ReplyEventView::Timeout => Some(Err(ActionError::Timeout)),
    }
}

/// The list of songs after an event: a `LIST_ENTRY_SONG` message adds its song at
/// the end, nothing else changes the list.
pub open spec fn history_entries(
    entries: Seq<HistoryEntryView>,
    event: ReplyEventView,
) -> Seq<HistoryEntryView> {
    match event {
        ReplyEventView::Message(MessageView::ListEntrySong { artist, title }) => entries.push(
            HistoryEntryView { artist, title },
        ),
        _ => entries,
    }
}

/// What a list of events, taken in their order, gives a caller that waits for the
/// reply to _history_ and has `entries` so far: the songs up to the first event
/// that ends the wait, or the error that this event brings.
pub open spec fn history_reply(entries: Seq<HistoryEntryView>, events: Seq<ReplyEventView>)
    -> Option<Result<Seq<HistoryEntryView>, ActionError>>
    decreases events.len(),
{
    if events.len() == 0 {
        None
    } else {
        match history_decision(events[0]) {
            Some(Ok(())) => Some(Ok(entries)),
            Some(Err(error)) => Some(Err(error)),
            None => history_reply(history_entries(entries, events[0]), events.drop_first()),
        }
    }
}

/// The views of a list of songs.
pub open spec fn entries_view(entries: Seq<HistoryEntry>) -> Seq<HistoryEntryView> {
    Seq::new(entries.len(), |i: int| entries[i]@)
}

/// A command with the reset before it.
pub fn with_reset(msg: &str) -> (command: String)
    ensures
        command@ == reset_text() + msg@,
{
    String::from_str("\r\n\r\n").concat(msg)
}

impl PianobarAction {
    /// What is to be written to the player for this action: the reset and the
    /// action's own text.
    pub fn command(&self) -> (command: String)
        ensures
            command@ == reset_text() + action_text(*self),
    {
        match self {
            PianobarAction::ChangeStation(station_id) => {
                let mut text = with_reset("s");
                append_decimal(&mut text, *station_id);
                text.append("\n");
                assert(text@ =~= reset_text() + action_text(*self));
                text
            },
            PianobarAction::Pause => with_reset("S"),
            PianobarAction::Resume => with_reset("P"),
            PianobarAction::TogglePause => with_reset("p"),
            PianobarAction::Skip => with_reset("n"),
            PianobarAction::Explain => with_reset("e"),
            PianobarAction::History => with_reset("h\r\n\r\n"),
        }
    }

    /// Whether the caller has to wait for a reply among the player's messages.
    /// Only _explain_ and _history_ are answered there.
    pub fn awaits_reply(&self) -> (waits: bool)
        ensures
            waits == (*self == PianobarAction::Explain || *self == PianobarAction::History),
    {
        match self {
            PianobarAction::Explain => true,
            PianobarAction::History => true,
            _ => false,
        }
    }
}

/// Whether `text` begins with `prefix`.
pub fn begins_with(text: &str, prefix: &str) -> (found: bool)
    ensures
        found == text_starts_with(text@, prefix@),
{
    let length = prefix.unicode_len();
    if text.unicode_len() < length {
        return false;
    }
    let mut i: usize = 0;
    while i < length
        invariant
            i <= length,
            length == prefix@.len(),
            length <= text@.len(),
            forall|k: int| 0 <= k < i ==> text@[k] == prefix@[k],
        decreases length - i,
    {
        if text.get_char(i) != prefix.get_char(i) {
            assert(text@.subrange(0, length as int)[i as int] != prefix@[i as int]);
            return false;
        }
        i += 1;
    }
    assert(text@.subrange(0, length as int) =~= prefix@);
    true
}

/// Takes the next event while waiting for the reply to _explain_. Returns the
/// reply or the error that ends the wait, or nothing where the wait goes on.
pub fn explain_step(event: ReplyEvent) -> (step: Option<Result<String, ActionError>>)
    ensures
        explain_view(step) == explain_decision(event@),
{
    match event {
        ReplyEvent::Message(PianobarMessage::Info { message }) => {
            if begins_with(message.as_str(), "We're playing this track because") {
                Some(Ok(message))
            } else {
                None
            }
        },
        ReplyEvent::Message(_) => None,
        ReplyEvent::Lagged(count) => Some(Err(ActionError::Lagged(count))),
        ReplyEvent::Closed => Some(Err(ActionError::Closed)),
        ReplyEvent::Timeout => Some(Err(ActionError::Timeout)),
    }
}

/// Takes the next event while waiting for the reply to _history_. A song is put
/// at the end of `entries`. Returns how the wait ends, if it ends: with `entries`
/// as the reply, or with an error.
pub fn history_step(entries: &mut Vec<HistoryEntry>, event: ReplyEvent) -> (step: Option<
    Result<(), ActionError>,
>)
    ensures
        step == history_decision(event@),
        entries_view(final(entries)@) == history_entries(entries_view(old(entries)@), event@),
{
    match event {
        ReplyEvent::Message(PianobarMessage::Info { message }) => {
            if message == String::from_str("No history yet.") {
                Some(Ok(()))
            } else {
                None
            }
        },
        ReplyEvent::Message(PianobarMessage::Question { message: _ }) => Some(Ok(())),
        ReplyEvent::Message(PianobarMessage::ListEntrySong { artist, title }) => {
            entries.push(HistoryEntry { artist, title });
            assert(entries_view(entries@) =~= entries_view(old(entries)@).push(
                HistoryEntryView { artist: artist@, title: title@ },
            ));
            None
        },
        ReplyEvent::Message(_) => None,
        ReplyEvent::Lagged(count) => Some(Err(ActionError::Lagged(count))),
        ReplyEvent::Closed => Some(Err(ActionError::Closed)),
        ReplyEvent::Timeout => Some(Err(ActionError::Timeout)),
    }
}

/// As long as only messages come that are no explanation, the wait for the reply
/// to _explain_ goes on; when the time is over then, the action fails with
/// `Timeout` and with no other error.
pub proof fn lemma_explain_times_out(events: Seq<ReplyEventView>)
    requires
        forall|i: int|
            0 <= i < events.len() ==> (#[trigger] events[i] is Message) && explain_decision(
                events[i],
            ) is None,
    ensures
        explain_reply(events) is None,
        explain_reply(events.push(ReplyEventView::Timeout)) == Some(
            Err::<Seq<char>, ActionError>(ActionError::Timeout),
        ),
    decreases events.len(),
{
    let longer = events.push(ReplyEventView::Timeout);
    if events.len() > 0 {
        let rest = events.drop_first();
        assert forall|i: int| 0 <= i < rest.len() implies (#[trigger] rest[i] is Message)
            && explain_decision(rest[i]) is None by {
            assert(rest[i] == events[i + 1]);
        }
        lemma_explain_times_out(rest);
        assert(longer.drop_first() =~= rest.push(ReplyEventView::Timeout));
        assert(longer[0] == events[0]);
    } else {
        assert(longer.drop_first() =~= Seq::<ReplyEventView>::empty());
    }
}

/// The reply to _explain_ is the first explanation, whatever comes behind it.
pub proof fn lemma_explain_first(
    before: Seq<ReplyEventView>,
    text: Seq<char>,
    after: Seq<ReplyEventView>,
)
    requires
        forall|i: int| 0 <= i < before.len() ==> explain_decision(#[trigger] before[i]) is None,
        is_explanation(text),
    ensures
        explain_reply(
            before + seq![ReplyEventView::Message(MessageView::Info { message: text })] + after,
        ) == Some(Ok::<Seq<char>, ActionError>(text)),
    decreases before.len(),
{
    let found = ReplyEventView::Message(MessageView::Info { message: text });
    let all = before + seq![found] + after;
    if before.len() > 0 {
        let rest = before.drop_first();
        assert forall|i: int| 0 <= i < rest.len() implies explain_decision(
            #[trigger] rest[i],
        ) is None by {
            assert(rest[i] == before[i + 1]);
        }
        lemma_explain_first(rest, text, after);
        assert(all.drop_first() =~= rest + seq![found] + after);
        assert(all[0] == before[0]);
    } else {
        assert(all[0] == found);
    }
}

/// The events that a list of songs comes as.
pub open spec fn song_events(songs: Seq<HistoryEntryView>) -> Seq<ReplyEventView> {
    Seq::new(
        songs.len(),
        |i: int|
            ReplyEventView::Message(
                MessageView::ListEntrySong { artist: songs[i].artist, title: songs[i].title },
            ),
    )
}

/// The reply to _history_ holds the songs that came before the question, in the
/// order in which they came, behind those that were there; what comes behind the
/// question does not count.
pub proof fn lemma_history_collects(
    entries: Seq<HistoryEntryView>,
    songs: Seq<HistoryEntryView>,
    question: Seq<char>,
    after: Seq<ReplyEventView>,
)
    ensures
        history_reply(
            entries,
            song_events(songs) + seq![
                ReplyEventView::Message(MessageView::Question { message: question }),
            ] + after,
        ) == Some(Ok::<Seq<HistoryEntryView>, ActionError>(entries + songs)),
    decreases songs.len(),
{
    let end = ReplyEventView::Message(MessageView::Question { message: question });
    let all = song_events(songs) + seq![end] + after;
    if songs.len() == 0 {
        assert(all[0] == end);
        assert(entries + songs =~= entries);
    } else {
        let rest = songs.drop_first();
        assert(all[0] == song_events(songs)[0]);
        assert(all.drop_first() =~= song_events(rest) + seq![end] + after);
        lemma_history_collects(entries.push(songs[0]), rest, question, after);
        assert(entries.push(songs[0]) + rest =~= entries + songs);
    }
}

} // verus!
