use pianobar_webserver::actions::{
    begins_with, explain_step, history_step, with_reset, ActionError, HistoryEntry,
    PianobarAction, ReplyEvent,
};
use pianobar_webserver::messages::PianobarMessage;

fn info_event(text: &str) -> ReplyEvent {
    ReplyEvent::Message(PianobarMessage::Info { message: text.to_string() })
}

fn song_event(artist: &str, title: &str) -> ReplyEvent {
    ReplyEvent::Message(PianobarMessage::ListEntrySong {
        artist: artist.to_string(),
        title: title.to_string(),
    })
}

fn time_event() -> ReplyEvent {
    ReplyEvent::Message(PianobarMessage::SongTime { current: 1, total: 2, paused: false })
}

fn entry(artist: &str, title: &str) -> HistoryEntry {
    HistoryEntry { artist: artist.to_string(), title: title.to_string() }
}

fn explain(events: Vec<ReplyEvent>) -> Option<Result<String, ActionError>> {
    for event in events {
        if let Some(reply) = explain_step(event) {
            return Some(reply);
        }
    }
    None
}

fn history(events: Vec<ReplyEvent>) -> Option<Result<Vec<HistoryEntry>, ActionError>> {
    let mut entries = Vec::new();
    for event in events {
        match history_step(&mut entries, event) {
            Some(Ok(())) => return Some(Ok(entries)),
            Some(Err(error)) => return Some(Err(error)),
            None => {}
        }
    }
    None
}

#[test]
fn reset_stands_before_the_command() {
    assert_eq!(with_reset("e"), "\r\n\r\ne");
    assert_eq!(with_reset(""), "\r\n\r\n");
    assert_eq!(with_reset("s12\n"), "\r\n\r\ns12\n");
}

#[test]
fn commands_of_the_actions() {
    assert_eq!(PianobarAction::Pause.command(), "\r\n\r\nS");
    assert_eq!(PianobarAction::Resume.command(), "\r\n\r\nP");
    assert_eq!(PianobarAction::TogglePause.command(), "\r\n\r\np");
    assert_eq!(PianobarAction::Skip.command(), "\r\n\r\nn");
    assert_eq!(PianobarAction::Explain.command(), "\r\n\r\ne");
    assert_eq!(PianobarAction::History.command(), "\r\n\r\nh\r\n\r\n");
}

#[test]
fn station_is_written_in_decimal() {
    assert_eq!(PianobarAction::ChangeStation(0).command(), "\r\n\r\ns0\n");
    assert_eq!(PianobarAction::ChangeStation(7).command(), "\r\n\r\ns7\n");
    assert_eq!(PianobarAction::ChangeStation(10).command(), "\r\n\r\ns10\n");
    assert_eq!(PianobarAction::ChangeStation(12345).command(), "\r\n\r\ns12345\n");
    assert_eq!(PianobarAction::ChangeStation(9876543210).command(), "\r\n\r\ns9876543210\n");
    assert_eq!(PianobarAction::ChangeStation(100).command(), format!("\r\n\r\ns{}\n", 100));
    assert_eq!(
        PianobarAction::ChangeStation(usize::MAX).command(),
        format!("\r\n\r\ns{}\n", usize::MAX)
    );
}

#[test]
fn only_explain_and_history_await_a_reply() {
    assert!(PianobarAction::Explain.awaits_reply());
    assert!(PianobarAction::History.awaits_reply());
    assert!(!PianobarAction::Pause.awaits_reply());
    assert!(!PianobarAction::Resume.awaits_reply());
    assert!(!PianobarAction::TogglePause.awaits_reply());
    assert!(!PianobarAction::Skip.awaits_reply());
    assert!(!PianobarAction::ChangeStation(3).awaits_reply());
}

#[test]
fn text_begins_with_prefix() {
    assert!(begins_with("hello world", "hello"));
    assert!(begins_with("hello", "hello"));
    assert!(begins_with("hello", ""));
    assert!(begins_with("", ""));
    assert!(!begins_with("hell", "hello"));
    assert!(!begins_with("", "h"));
    assert!(!begins_with("jello world", "hello"));
    assert!(begins_with("\u{e9}t\u{e9} 2", "\u{e9}t\u{e9}"));
    assert!(!begins_with("\u{e9}t\u{e8} 2", "\u{e9}t\u{e9}"));
    assert!(!begins_with("\u{e9}", "\u{c3}"));
}

#[test]
fn explain_is_answered_by_the_explanation() {
    let text = "We're playing this track because it features a subtle use of vocal harmony.";
    assert_eq!(
        explain(vec![time_event(), info_event("Receiving explanation..."), info_event(text), info_event("more")]),
        Some(Ok(text.to_string()))
    );
    assert_eq!(explain_step(info_event(text)), Some(Ok(text.to_string())));
    assert_eq!(
        explain_step(info_event("We're playing this track because")),
        Some(Ok("We're playing this track because".to_string()))
    );
}

#[test]
fn explain_waits_on_other_messages() {
    assert_eq!(explain_step(time_event()), None);
    assert_eq!(explain_step(info_event("")), None);
    assert_eq!(explain_step(info_event("We're playing this track becaus")), None);
    assert_eq!(explain_step(info_event("we're playing this track because x")), None);
    assert_eq!(explain_step(info_event(" We're playing this track because x")), None);
    assert_eq!(explain_step(song_event("a", "We're playing this track because")), None);
    assert_eq!(
        explain_step(ReplyEvent::Message(PianobarMessage::Question {
            message: "We're playing this track because".to_string()
        })),
        None
    );
    assert_eq!(explain(vec![time_event(), info_event("x")]), None);
}

#[test]
fn explain_times_out_without_explanation() {
    assert_eq!(
        explain(vec![time_event(), info_event("Receiving explanation..."), time_event(), ReplyEvent::Timeout]),
        Some(Err(ActionError::Timeout))
    );
    assert_eq!(explain(vec![ReplyEvent::Timeout]), Some(Err(ActionError::Timeout)));
}

#[test]
fn explain_fails_where_messages_are_missed_or_end() {
    assert_eq!(explain_step(ReplyEvent::Lagged(3)), Some(Err(ActionError::Lagged(3))));
    assert_eq!(explain_step(ReplyEvent::Closed), Some(Err(ActionError::Closed)));
    assert_eq!(
        explain(vec![time_event(), ReplyEvent::Closed, ReplyEvent::Timeout]),
        Some(Err(ActionError::Closed))
    );
}

#[test]
fn history_collects_songs_up_to_the_question() {
    assert_eq!(
        history(vec![
            info_event("some"),
            song_event("A", "one"),
            time_event(),
            song_event("B", "two"),
            ReplyEvent::Message(PianobarMessage::Question { message: "Select song:".to_string() }),
            song_event("C", "three"),
        ]),
        Some(Ok(vec![entry("A", "one"), entry("B", "two")]))
    );
}

#[test]
fn history_is_empty_where_there_is_none() {
    assert_eq!(history(vec![time_event(), info_event("No history yet.")]), Some(Ok(vec![])));
    assert_eq!(
        history(vec![song_event("A", "one"), info_event("No history yet."), ReplyEvent::Timeout]),
        Some(Ok(vec![entry("A", "one")]))
    );
    assert_eq!(history(vec![info_event("No history yet"), info_event("no history yet.")]), None);
}

#[test]
fn history_fails_on_timeout_and_loss() {
    assert_eq!(
        history(vec![song_event("A", "one"), ReplyEvent::Timeout]),
        Some(Err(ActionError::Timeout))
    );
    assert_eq!(history(vec![ReplyEvent::Lagged(9)]), Some(Err(ActionError::Lagged(9))));
    assert_eq!(history(vec![ReplyEvent::Closed]), Some(Err(ActionError::Closed)));
}

#[test]
fn history_step_changes_the_list_only_for_songs() {
    let mut entries = vec![entry("A", "one")];
    assert_eq!(history_step(&mut entries, time_event()), None);
    assert_eq!(entries, vec![entry("A", "one")]);
    assert_eq!(history_step(&mut entries, song_event("B", "two")), None);
    assert_eq!(entries, vec![entry("A", "one"), entry("B", "two")]);
    assert_eq!(history_step(&mut entries, ReplyEvent::Timeout), Some(Err(ActionError::Timeout)));
    assert_eq!(entries, vec![entry("A", "one"), entry("B", "two")]);
    assert_eq!(history_step(&mut entries, info_event("No history yet.")), Some(Ok(())));
    assert_eq!(entries, vec![entry("A", "one"), entry("B", "two")]);
}
