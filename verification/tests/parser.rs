use pianobar_webserver::messages::{
    message_start_differs_from, split_trimmed, ParseError, PianobarMessage,
    PianobarMessageParser, BUFFER_CAP,
};
use pianobar_webserver::song_time::TimeError;

fn feed_all(parser: &mut PianobarMessageParser, bytes: &[u8]) -> Vec<PianobarMessage> {
    let mut messages = Vec::new();
    for byte in bytes {
        if let Some(message) = parser.process(*byte) {
            messages.push(message);
        }
    }
    messages
}

fn outcomes_of(bytes: &[u8]) -> Vec<Result<PianobarMessage, ParseError>> {
    PianobarMessageParser::new().process_chunk(bytes)
}

fn song_time(current: u32, total: u32, paused: bool) -> PianobarMessage {
    PianobarMessage::SongTime { current, total, paused }
}

fn info(text: &str) -> PianobarMessage {
    PianobarMessage::Info { message: text.to_string() }
}

#[test]
fn time_frame_is_decoded() {
    let mut parser = PianobarMessageParser::new();
    let messages = feed_all(&mut parser, b"\x1e\x1e[[#TIME#\x1e-1:30/3:00\x1e\x1e#]]");
    assert_eq!(messages, vec![song_time(90, 180, false)]);
    assert_eq!(parser.buffered(), 0);
}

#[test]
fn time_frame_completes_with_its_last_byte() {
    let frame = b"\x1e\x1e[[#TIME#\x1e-1:30/3:00\x1e\x1e#]]";
    let mut parser = PianobarMessageParser::new();
    for (position, byte) in frame.iter().enumerate() {
        let message = parser.process(*byte);
        if position + 1 < frame.len() {
            assert_eq!(message, None);
            assert_eq!(parser.buffered(), position + 1);
        } else {
            assert_eq!(message, Some(song_time(90, 180, false)));
            assert_eq!(parser.buffered(), 0);
        }
    }
}

#[test]
fn time_as_the_player_writes_it() {
    assert_eq!(
        outcomes_of(b"\x1e\x1e[[#TIME#\x1e-01:30/03:00\r\x1e\x1e#]]"),
        vec![Ok(song_time(90, 180, false))]
    );
}

#[test]
fn time_without_sign() {
    assert_eq!(
        outcomes_of(b"\x1e\x1e[[#TIME#\x1e0:10/4:05\x1e\x1e#]]"),
        vec![Ok(song_time(235, 245, false))]
    );
}

#[test]
fn time_with_nothing_left() {
    assert_eq!(
        outcomes_of(b"\x1e\x1e[[#TIME#\x1e-0:00/3:00\x1e\x1e#]]"),
        vec![Ok(song_time(180, 180, false))]
    );
}

#[test]
fn time_with_all_left() {
    assert_eq!(
        outcomes_of(b"\x1e\x1e[[#TIME#\x1e-3:00/3:00\x1e\x1e#]]"),
        vec![Ok(song_time(0, 180, false))]
    );
}

#[test]
fn more_left_than_the_song_is_long_is_dropped() {
    let mut parser = PianobarMessageParser::new();
    let messages = feed_all(&mut parser, b"\x1e\x1e[[#TIME#\x1e-3:01/3:00\x1e\x1e#]]");
    assert_eq!(messages, vec![]);
    assert_eq!(parser.buffered(), 0);
    assert_eq!(
        outcomes_of(b"\x1e\x1e[[#TIME#\x1e-3:01/3:00\x1e\x1e#]]"),
        vec![Err(ParseError::Time(TimeError::LeftExceedsTotal))]
    );
}

#[test]
fn time_that_is_no_time_is_dropped() {
    for argument in ["", "1:30", "-:30/3:00", "a:b/c:d", "1:30/3:00x", "--1:30/3:00", "1:30/3"] {
        let mut frame = b"\x1e\x1e[[#TIME#\x1e".to_vec();
        frame.extend_from_slice(argument.as_bytes());
        frame.extend_from_slice(b"\x1e\x1e#]]");
        assert_eq!(outcomes_of(&frame), vec![Err(ParseError::Time(TimeError::Format))]);
    }
}

#[test]
fn time_beyond_32_bits_is_dropped() {
    assert_eq!(
        outcomes_of(b"\x1e\x1e[[#TIME#\x1e0:00/71582789:00\x1e\x1e#]]"),
        vec![Err(ParseError::Time(TimeError::Overflow))]
    );
    assert_eq!(
        outcomes_of(b"\x1e\x1e[[#TIME#\x1e0:00/71582788:15\x1e\x1e#]]"),
        vec![Ok(song_time(4294967295, 4294967295, false))]
    );
}

#[test]
fn paused_after_two_repeats() {
    let frame = b"\x1e\x1e[[#TIME#\x1e-1:30/3:00\x1e\x1e#]]";
    let other = b"\x1e\x1e[[#TIME#\x1e-1:29/3:00\x1e\x1e#]]";
    let mut parser = PianobarMessageParser::new();
    assert_eq!(feed_all(&mut parser, frame), vec![song_time(90, 180, false)]);
    assert_eq!(feed_all(&mut parser, frame), vec![song_time(90, 180, false)]);
    assert_eq!(feed_all(&mut parser, frame), vec![song_time(90, 180, true)]);
    assert_eq!(feed_all(&mut parser, frame), vec![song_time(90, 180, true)]);
    assert_eq!(feed_all(&mut parser, other), vec![song_time(91, 180, false)]);
    assert_eq!(feed_all(&mut parser, other), vec![song_time(91, 180, false)]);
    assert_eq!(feed_all(&mut parser, frame), vec![song_time(90, 180, false)]);
    assert_eq!(feed_all(&mut parser, frame), vec![song_time(90, 180, false)]);
    assert_eq!(feed_all(&mut parser, frame), vec![song_time(90, 180, true)]);
}

#[test]
fn paused_stays_while_the_time_repeats() {
    let frame = b"\x1e\x1e[[#TIME#\x1e-1:30/3:00\x1e\x1e#]]";
    let mut parser = PianobarMessageParser::new();
    for round in 0..40 {
        assert_eq!(feed_all(&mut parser, frame), vec![song_time(90, 180, round >= 2)]);
    }
    let other = b"\x1e\x1e[[#TIME#\x1e-1:29/3:00\x1e\x1e#]]";
    assert_eq!(feed_all(&mut parser, other), vec![song_time(91, 180, false)]);
}

#[test]
fn first_time_of_zero_repeats_the_start() {
    let frame = b"\x1e\x1e[[#TIME#\x1e-0:00/0:00\x1e\x1e#]]";
    let mut parser = PianobarMessageParser::new();
    assert_eq!(feed_all(&mut parser, frame), vec![song_time(0, 0, false)]);
    assert_eq!(feed_all(&mut parser, frame), vec![song_time(0, 0, true)]);
}

#[test]
fn dropped_time_leaves_no_trace() {
    let frame = b"\x1e\x1e[[#TIME#\x1e-1:30/3:00\x1e\x1e#]]";
    let bad = b"\x1e\x1e[[#TIME#\x1e-9:30/3:00\x1e\x1e#]]";
    let mut parser = PianobarMessageParser::new();
    assert_eq!(feed_all(&mut parser, frame), vec![song_time(90, 180, false)]);
    assert_eq!(feed_all(&mut parser, bad), vec![]);
    assert_eq!(feed_all(&mut parser, frame), vec![song_time(90, 180, false)]);
    assert_eq!(feed_all(&mut parser, bad), vec![]);
    assert_eq!(feed_all(&mut parser, frame), vec![song_time(90, 180, true)]);
}

#[test]
fn info_is_decoded() {
    assert_eq!(
        outcomes_of(b"\x1e\x1e[[#INFO#\x1eNo history yet.\n\x1e\x1e#]]"),
        vec![Ok(info("No history yet."))]
    );
}

#[test]
fn info_keeps_blanks_inside() {
    assert_eq!(
        outcomes_of(b"\x1e\x1e[[#INFO#\x1e \t one  two\x0b\x0c\r\n\x1e\x1e#]]"),
        vec![Ok(info("one  two"))]
    );
}

#[test]
fn info_may_be_empty() {
    assert_eq!(outcomes_of(b"\x1e\x1e[[#INFO#\x1e\x1e\x1e#]]"), vec![Ok(info(""))]);
    assert_eq!(outcomes_of(b"\x1e\x1e[[#INFO#\x1e  \x1e\x1e#]]"), vec![Ok(info(""))]);
}

#[test]
fn text_is_read_as_utf8() {
    assert_eq!(
        outcomes_of("\x1e\x1e[[#INFO#\x1eCaf\u{e9} \u{1f3b5} \u{65e5}\u{672c}\x1e\x1e#]]".as_bytes()),
        vec![Ok(info("Caf\u{e9} \u{1f3b5} \u{65e5}\u{672c}"))]
    );
}

#[test]
fn text_that_is_not_utf8_is_dropped() {
    assert_eq!(
        outcomes_of(b"\x1e\x1e[[#INFO#\x1eCaf\xe9\x1e\x1e#]]"),
        vec![Err(ParseError::InvalidText)]
    );
    assert_eq!(
        outcomes_of(b"\x1e\x1e[[#LIST_ENTRY_SONG#\x1eartist\x1e\xff\x1e\x1e#]]"),
        vec![Err(ParseError::InvalidText)]
    );
    assert_eq!(
        outcomes_of(b"\x1e\x1e[[#QUESTION#\x1e\xc3\x1e\x1e#]]"),
        vec![Err(ParseError::InvalidText)]
    );
}

#[test]
fn question_is_decoded() {
    assert_eq!(
        outcomes_of(b"\x1e\x1e[[#QUESTION#\x1eSelect song: \x1e\x1e#]]"),
        vec![Ok(PianobarMessage::Question { message: "Select song:".to_string() })]
    );
}

#[test]
fn list_entry_is_decoded() {
    assert_eq!(
        outcomes_of(b"\x1e\x1e[[#LIST_ENTRY_SONG#\x1eThe Artist\x1eA Title\x1e\x1e#]]"),
        vec![Ok(PianobarMessage::ListEntrySong {
            artist: "The Artist".to_string(),
            title: "A Title".to_string(),
        })]
    );
}

#[test]
fn wrong_number_of_arguments_is_dropped() {
    for frame in [
        &b"\x1e\x1e[[#TIME#\x1e\x1e#]]"[..],
        &b"\x1e\x1e[[#TIME#\x1e-1:30/3:00\x1e-1:30/3:00\x1e\x1e#]]"[..],
        &b"\x1e\x1e[[#INFO#\x1e\x1e#]]"[..],
        &b"\x1e\x1e[[#INFO#\x1ea\x1eb\x1e\x1e#]]"[..],
        &b"\x1e\x1e[[#QUESTION#\x1e\x1e#]]"[..],
        &b"\x1e\x1e[[#QUESTION#\x1ea\x1eb\x1e\x1e#]]"[..],
        &b"\x1e\x1e[[#LIST_ENTRY_SONG#\x1eartist\x1e\x1e#]]"[..],
        &b"\x1e\x1e[[#LIST_ENTRY_SONG#\x1ea\x1eb\x1ec\x1e\x1e#]]"[..],
    ] {
        assert_eq!(outcomes_of(frame), vec![Err(ParseError::FieldCount)]);
    }
}

#[test]
fn unknown_type_is_dropped() {
    for frame in [
        &b"\x1e\x1e[[#SONG#\x1ex\x1e\x1e#]]"[..],
        &b"\x1e\x1e[[#time#\x1e-1:30/3:00\x1e\x1e#]]"[..],
        &b"\x1e\x1e[[#TIME #\x1e-1:30/3:00\x1e\x1e#]]"[..],
        &b"\x1e\x1e[[#INFOS#\x1ex\x1e\x1e#]]"[..],
    ] {
        assert_eq!(outcomes_of(frame), vec![Err(ParseError::UnknownType)]);
    }
}

#[test]
fn type_that_is_not_closed_is_dropped() {
    for frame in [
        &b"\x1e\x1e[[#TIME\x1e-1:30/3:00\x1e\x1e#]]"[..],
        &b"\x1e\x1e[[##\x1e-1:30/3:00\x1e\x1e#]]"[..],
        &b"\x1e\x1e[[#\x1e-1:30/3:00\x1e\x1e#]]"[..],
        &b"\x1e\x1e[[#\x1e\x1e#]]"[..],
    ] {
        assert_eq!(outcomes_of(frame), vec![Err(ParseError::InvalidType)]);
    }
}

#[test]
fn blanks_around_the_type_do_not_count() {
    assert_eq!(
        outcomes_of(b"\x1e\x1e[[#TIME# \r\n\x1e -1:30/3:00 \x1e\x1e#]]"),
        vec![Ok(song_time(90, 180, false))]
    );
}

#[test]
fn ordinary_output_is_passed_over() {
    let mut parser = PianobarMessageParser::new();
    let text = b"|>  \"Song\" by \"Artist\" on \"Album\"\n\x1b[2K#   -02:14/03:20\r";
    assert_eq!(feed_all(&mut parser, text), vec![]);
    assert_eq!(parser.buffered(), 0);
    let frame = b"\x1e\x1e[[#TIME#\x1e-1:30/3:00\x1e\x1e#]]";
    assert_eq!(feed_all(&mut parser, frame), vec![song_time(90, 180, false)]);
}

#[test]
fn frames_in_a_row_are_all_decoded() {
    let bytes = b"\x1e\x1e[[#TIME#\x1e-1:30/3:00\x1e\x1e#]]\n\x1e\x1e[[#INFO#\x1ehello\x1e\x1e#]]junk\x1e\x1e[[#NONE#\x1e\x1e#]]\x1e\x1e[[#TIME#\x1e-1:29/3:00\x1e\x1e#]]";
    assert_eq!(
        outcomes_of(bytes),
        vec![
            Ok(song_time(90, 180, false)),
            Ok(info("hello")),
            Err(ParseError::UnknownType),
            Ok(song_time(91, 180, false)),
        ]
    );
}

#[test]
fn malformed_frame_does_not_harm_the_next() {
    let bytes = b"\x1e\x1e[[#TIME#\x1enonsense\x1e\x1e#]]\x1e\x1e[[#TIME#\x1e-1:30/3:00\x1e\x1e#]]";
    let mut parser = PianobarMessageParser::new();
    assert_eq!(feed_all(&mut parser, bytes), vec![song_time(90, 180, false)]);
}

#[test]
fn truncated_frame_takes_the_next_with_it() {
    let mut parser = PianobarMessageParser::new();
    let bytes = b"\x1e\x1e[[#TIME#\x1e-1:3\x1e\x1e[[#TIME#\x1e-1:30/3:00\x1e\x1e#]]";
    assert_eq!(parser.process_chunk(bytes), vec![Err(ParseError::FieldCount)]);
    assert_eq!(parser.buffered(), 0);
    let frame = b"\x1e\x1e[[#TIME#\x1e-1:30/3:00\x1e\x1e#]]";
    assert_eq!(feed_all(&mut parser, frame), vec![song_time(90, 180, false)]);
}

#[test]
fn stray_separator_takes_the_next_frame_with_it() {
    let mut parser = PianobarMessageParser::new();
    let frame = b"\x1e\x1e[[#TIME#\x1e-1:30/3:00\x1e\x1e#]]";
    assert_eq!(feed_all(&mut parser, b"\x1e"), vec![]);
    assert_eq!(parser.buffered(), 1);
    assert_eq!(feed_all(&mut parser, frame), vec![]);
    assert_eq!(parser.buffered(), 0);
    assert_eq!(feed_all(&mut parser, frame), vec![song_time(90, 180, false)]);
}

#[test]
fn buffer_never_outgrows_its_cap() {
    let mut parser = PianobarMessageParser::new();
    assert_eq!(feed_all(&mut parser, b"\x1e\x1e[[#INFO#\x1e"), vec![]);
    for _ in 0..5000 {
        assert_eq!(parser.process(b'x'), None);
        assert!(parser.buffered() <= BUFFER_CAP);
    }
    let frame = b"\x1e\x1e[[#TIME#\x1e-1:30/3:00\x1e\x1e#]]";
    assert_eq!(feed_all(&mut parser, frame), vec![song_time(90, 180, false)]);
}

#[test]
fn buffer_is_cut_by_half_when_full() {
    let mut parser = PianobarMessageParser::new();
    let mut bytes = b"\x1e\x1e[[#INFO#\x1e".to_vec();
    while bytes.len() < 500 {
        bytes.push(b'x');
    }
    bytes.extend_from_slice(b"\x1e\x1e[[#INFO#\x1e");
    while bytes.len() < BUFFER_CAP {
        bytes.push(b'y');
    }
    assert_eq!(feed_all(&mut parser, &bytes), vec![]);
    assert_eq!(parser.buffered(), BUFFER_CAP);
    assert_eq!(parser.process(b'z'), None);
    assert_eq!(parser.buffered(), 501);
    assert_eq!(feed_all(&mut parser, b"\x1e\x1e#]]").len(), 1);
}

#[test]
fn frame_of_the_largest_size_is_decoded() {
    let mut frame = b"\x1e\x1e[[#INFO#\x1e".to_vec();
    let mut text = String::new();
    while frame.len() + 5 < BUFFER_CAP {
        frame.push(b'a');
        text.push('a');
    }
    frame.extend_from_slice(b"\x1e\x1e#]]");
    assert_eq!(frame.len(), BUFFER_CAP);
    assert_eq!(outcomes_of(&frame), vec![Ok(info(&text))]);
}

#[test]
fn frame_beyond_the_largest_size_is_lost() {
    let mut frame = b"\x1e\x1e[[#INFO#\x1e".to_vec();
    while frame.len() + 5 < BUFFER_CAP + 1 {
        frame.push(b'a');
    }
    frame.extend_from_slice(b"\x1e\x1e#]]");
    assert_eq!(frame.len(), BUFFER_CAP + 1);
    let mut parser = PianobarMessageParser::new();
    assert_eq!(parser.process_chunk(&frame), vec![]);
    assert_eq!(parser.buffered(), 0);
}

#[test]
fn chunks_give_what_bytes_give() {
    let bytes = b"abc\x1e\x1e[[#TIME#\x1e-1:30/3:00\x1e\x1e#]]\x1e\x1e[[#INFO#\x1ehi\x1e\x1e#]]\x1e\x1e[[#TIME#\x1e-1:30/3:00\x1e\x1e#]]\x1e\x1e[[#";
    for cut in 0..bytes.len() {
        let mut by_bytes = PianobarMessageParser::new();
        let mut expected = Vec::new();
        for byte in bytes.iter() {
            if let Some(outcome) = by_bytes.feed(*byte) {
                expected.push(outcome);
            }
        }
        let mut by_chunks = PianobarMessageParser::new();
        let mut outcomes = by_chunks.process_chunk(&bytes[..cut]);
        outcomes.extend(by_chunks.process_chunk(&bytes[cut..]));
        assert_eq!(outcomes, expected);
        assert_eq!(by_chunks.buffered(), by_bytes.buffered());
        assert_eq!(by_chunks.buffered(), 5);
    }
}

#[test]
fn empty_chunk_gives_nothing() {
    let mut parser = PianobarMessageParser::new();
    assert_eq!(parser.process_chunk(b""), vec![]);
    assert_eq!(parser.buffered(), 0);
}

#[test]
fn direct_calls_decode_as_frames_do() {
    let mut parser = PianobarMessageParser::new();
    let arguments = vec![b"-1:30/3:00".to_vec()];
    assert_eq!(parser.process_message(b"TIME", &arguments), Ok(song_time(90, 180, false)));
    assert_eq!(parser.process_message_time(&arguments), Ok(song_time(90, 180, false)));
    assert_eq!(parser.process_message_time(&arguments), Ok(song_time(90, 180, true)));
    assert_eq!(parser.process_message_time(&vec![]), Err(ParseError::FieldCount));
    assert_eq!(parser.process_message(b"", &arguments), Err(ParseError::UnknownType));
    assert_eq!(
        parser.process_message(b"INFO", &vec![b"text".to_vec()]),
        Ok(info("text"))
    );
}

#[test]
fn start_differs_where_a_byte_differs() {
    let start = b"\x1e\x1e[[#";
    assert!(!message_start_differs_from(b"", start));
    assert!(!message_start_differs_from(b"\x1e", start));
    assert!(!message_start_differs_from(b"\x1e\x1e[", start));
    assert!(!message_start_differs_from(b"\x1e\x1e[[#", start));
    assert!(!message_start_differs_from(b"\x1e\x1e[[#TIME", start));
    assert!(message_start_differs_from(b"x", start));
    assert!(message_start_differs_from(b"\x1e[", start));
    assert!(message_start_differs_from(b"\x1e\x1e[[x", start));
    assert!(message_start_differs_from(b"\x1e\x1e[[x#", start));
    assert!(!message_start_differs_from(b"abc", b""));
    assert!(!message_start_differs_from(b"", b""));
}

#[test]
fn fields_are_parted_at_separators() {
    assert_eq!(split_trimmed(b""), vec![b"".to_vec()]);
    assert_eq!(split_trimmed(b"abc"), vec![b"abc".to_vec()]);
    assert_eq!(split_trimmed(b"\x1e"), vec![b"".to_vec(), b"".to_vec()]);
    assert_eq!(
        split_trimmed(b" a \x1e\x1eb c\n\x1e"),
        vec![b"a".to_vec(), b"".to_vec(), b"b c".to_vec(), b"".to_vec()]
    );
}
