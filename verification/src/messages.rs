//! The messages that the player reports on its output, and the parser that finds
//! them in the stream of bytes.
//!
//! A message is a frame `<1e><1e>[[#TYPE#<1e>argument<1e>argument...<1e><1e>#]]`:
//! the start marker `<1e><1e>[[#`, the type in capitals closed by `#`, the
//! arguments, each preceded by the separator `<1e>`, and the end marker
//! `<1e><1e>#]]`. Blanks around the type and around each argument do not count.

use crate::song_time::{parse_song_time, song_time, TimeError};
use crate::text::{
    ascii_bytes, ends_with, has_prefix, has_suffix, literal_bytes, same_bytes, same_range,
    starts_with, trim, trimmed,
};
use vstd::prelude::*;
use vstd::slice::*;
use vstd::string::*;
use vstd::utf8::*;

verus! {

/// The parser never holds more bytes than this.
pub const BUFFER_CAP: usize = 1000;

/// The byte that stands before each argument of a message.
pub const FIELD_SEPARATOR: u8 = 0x1e;

/// How often the same time has to be reported again before the player counts as
/// paused.
pub const PAUSE_REPEATS: u8 = 2;

/// The count of repeated times goes no higher than this.
pub const MAX_REPEATS: u8 = 10;

/// A message of the player.
#[derive(Clone, Debug, PartialEq, Eq)]
pub enum PianobarMessage {
    /// The position in the current song, in seconds, with `current <= total`.
    SongTime { current: u32, total: u32, paused: bool },
    /// One song of a list that the player prints.
    ListEntrySong { artist: String, title: String },
    /// The player asks for input.
    Question { message: String },
    /// The player tells something.
    Info { message: String },
}

/// A message, with its texts as sequences of characters.
pub enum MessageView {
    SongTime { current: u32, total: u32, paused: bool },
    ListEntrySong { artist: Seq<char>, title: Seq<char> },
    Question { message: Seq<char> },
    Info { message: Seq<char> },
}

impl View for PianobarMessage {
    type V = MessageView;

    open spec fn view(&self) -> MessageView {
        match *self {
            PianobarMessage::SongTime { current, total, paused } => MessageView::SongTime {
                current,
                total,
                paused,
            },
            PianobarMessage::ListEntrySong { artist, title } => MessageView::ListEntrySong {
                artist: artist@,
                title: title@,
            },
            PianobarMessage::Question { message } => MessageView::Question { message: message@ },
            PianobarMessage::Info { message } => MessageView::Info { message: message@ },
        }
    }
}

impl MessageView {
    /// No more of a song has been played than the song is long.
    pub open spec fn well_formed(self) -> bool {
        self matches MessageView::SongTime { current, total, .. } ==> current <= total
    }
}

/// Why a complete frame gave no message.
#[derive(Clone, Copy, Debug, PartialEq, Eq)]
pub enum ParseError {
    /// The first field is not `[[#`, a type of at least one byte, and `#`.
    InvalidType,
    /// The type is none of `TIME`, `LIST_ENTRY_SONG`, `QUESTION`, `INFO`.
    UnknownType,
    /// The message has more or fewer arguments than its type takes.
    FieldCount,
    /// The argument of a `TIME` message is not accepted.
    Time(TimeError),
    /// An argument that holds text is not UTF-8.
    InvalidText,
}

/// What a complete frame gave: a message, or the reason why it was dropped.
pub open spec fn outcome_view(outcome: Result<PianobarMessage, ParseError>) -> Result<
    MessageView,
    ParseError,
> {
    match outcome {
        Ok(message) => Ok(message@),
        Err(error) => Err(error),
    }
}

/// The start marker, `<1e><1e>[[#`.
pub open spec fn message_start() -> Seq<u8> {
    ascii_bytes("\x1e\x1e[[#"@)
}

/// The end marker, `<1e><1e>#]]`.
pub open spec fn message_end() -> Seq<u8> {
    ascii_bytes("\x1e\x1e#]]"@)
}

/// The two texts differ somewhere in as many bytes as the shorter of them has.
pub open spec fn differs_at_start(message: Seq<u8>, expected: Seq<u8>) -> bool {
    let shorter = if message.len() < expected.len() {
        message.len()
    } else {
        expected.len()
    };
    message.subrange(0, shorter as int) != expected.subrange(0, shorter as int)
}

/// The fields that the separator parts `body` into. There is always one field
/// more than `body` holds separators.
pub open spec fn split_fields(body: Seq<u8>) -> Seq<Seq<u8>>
    decreases body.len(),
{
    if body.len() == 0 {
        seq![Seq::<u8>::empty()]
    } else {
        let before = split_fields(body.drop_last());
        if body.last() == FIELD_SEPARATOR {
            before.push(Seq::<u8>::empty())
        } else {
            before.update(before.len() - 1, before.last().push(body.last()))
        }
    }
}

/// Each field without the blanks around it.
pub open spec fn trim_all(fields: Seq<Seq<u8>>) -> Seq<Seq<u8>> {
    Seq::new(fields.len(), |i: int| trim(fields[i]))
}

/// The fields of a frame: what stands between the two separators that open the
/// start marker and the end marker, parted at each separator and trimmed. The
/// first field holds the type, the others are the arguments.
pub open spec fn frame_fields(frame: Seq<u8>) -> Seq<Seq<u8>> {
    trim_all(split_fields(frame.subrange(2, frame.len() - 5)))
}

/// The type that a first field names: what stands between `[[#` and `#`, if the
/// field has that form and the type is not empty.
pub open spec fn message_type(field: Seq<u8>) -> Option<Seq<u8>> {
    if field.len() >= 5 && starts_with(field, ascii_bytes("[[#"@)) && field.last() == 0x23 {
        Some(field.subrange(3, field.len() - 1))
    } else {
        None
    }
}

/// What the parser keeps between two bytes.
pub struct ParserView {
    /// The bytes of the frame that is being received.
    pub buffer: Seq<u8>,
    /// Seconds played and length of the song, as the last `TIME` message gave them.
    pub previous: (u32, u32),
    /// How many `TIME` messages in a row have repeated `previous`.
    pub repeats: nat,
}

impl ParserView {
    /// The state of a new parser.
    pub open spec fn initial() -> ParserView {
        ParserView { buffer: Seq::empty(), previous: (0, 0), repeats: 0 }
    }

    /// The count of repeats after a `TIME` message with these numbers.
    pub open spec fn repeats_with(self, current: u32, total: u32) -> nat {
        if self.previous == (current, total) {
            if self.repeats < MAX_REPEATS {
                self.repeats + 1
            } else {
                MAX_REPEATS as nat
            }
        } else {
            0
        }
    }

    /// Whether a `TIME` message with these numbers finds the player paused: the
    /// same numbers have then been seen at least twice more in a row.
    pub open spec fn paused_with(self, current: u32, total: u32) -> bool {
        self.repeats_with(current, total) >= PAUSE_REPEATS
    }

    /// The state after a `TIME` message with these numbers.
    pub open spec fn observed(self, current: u32, total: u32) -> ParserView {
        ParserView {
            buffer: self.buffer,
            previous: (current, total),
            repeats: self.repeats_with(current, total),
        }
    }

    /// The same state with another buffer.
    pub open spec fn with_buffer(self, buffer: Seq<u8>) -> ParserView {
        ParserView { buffer, previous: self.previous, repeats: self.repeats }
    }

    /// The state after a complete frame gave `outcome`: only a `TIME` message
    /// leaves a trace.
    pub open spec fn noted(self, outcome: Result<MessageView, ParseError>) -> ParserView {
        match outcome {
            Ok(MessageView::SongTime { current, total, .. }) => self.observed(current, total),
            _ => self,
        }
    }

    /// The message of type `TIME` with these arguments.
    pub open spec fn time_message(self, arguments: Seq<Seq<u8>>) -> Result<
        MessageView,
        ParseError,
    > {
        if arguments.len() != 1 {
            Err(ParseError::FieldCount)
        } else {
            match song_time(arguments[0]) {
                Ok((current, total)) => Ok(
                    MessageView::SongTime {
                        current,
                        total,
                        paused: self.paused_with(current, total),
                    },
                ),
                Err(error) => Err(ParseError::Time(error)),
            }
        }
    }

    /// The message of the given type with the given arguments.
    pub open spec fn message(self, message_type: Seq<u8>, arguments: Seq<Seq<u8>>) -> Result<
        MessageView,
        ParseError,
    > {
        if message_type == ascii_bytes("TIME"@) {
            self.time_message(arguments)
        } else if message_type == ascii_bytes("LIST_ENTRY_SONG"@) {
            if arguments.len() != 2 {
                Err(ParseError::FieldCount)
            } else if !valid_utf8(arguments[0]) || !valid_utf8(arguments[1]) {
                Err(ParseError::InvalidText)
            } else {
                Ok(
                    MessageView::ListEntrySong {
                        artist: decode_utf8(arguments[0]),
                        title: decode_utf8(arguments[1]),
                    },
                )
            }
        } else if message_type == ascii_bytes("QUESTION"@) {
            if arguments.len() != 1 {
                Err(ParseError::FieldCount)
            } else if !valid_utf8(arguments[0]) {
                Err(ParseError::InvalidText)
            } else {
                Ok(MessageView::Question { message: decode_utf8(arguments[0]) })
            }
        } else if message_type == ascii_bytes("INFO"@) {
            if arguments.len() != 1 {
                Err(ParseError::FieldCount)
            } else if !valid_utf8(arguments[0]) {
                Err(ParseError::InvalidText)
            } else {
                Ok(MessageView::Info { message: decode_utf8(arguments[0]) })
            }
        } else {
            Err(ParseError::UnknownType)
        }
    }

    /// What a complete frame gives.
    pub open spec fn frame_outcome(self, frame: Seq<u8>) -> Result<MessageView, ParseError> {
        let fields = frame_fields(frame);
        match message_type(fields[0]) {
            Some(name) => self.message(name, fields.subrange(1, fields.len() as int)),
            None => Err(ParseError::InvalidType),
        }
    }

    /// The buffer with one more byte. Beyond `BUFFER_CAP` bytes the older half
    /// is given up.
    pub open spec fn received(self, byte: u8) -> Seq<u8> {
        let longer = self.buffer.push(byte);
        if longer.len() > BUFFER_CAP {
            longer.subrange(longer.len() as int / 2, longer.len() as int)
        } else {
            longer
        }
    }

    /// Whether one more byte completes a frame.
    pub open spec fn completes(self, byte: u8) -> bool {
        !differs_at_start(self.received(byte), message_start()) && ends_with(
            self.received(byte),
            message_end(),
        )
    }

    /// What one more byte gives: nothing, or the outcome of the frame that it
    /// completes.
    pub open spec fn outcome(self, byte: u8) -> Option<Result<MessageView, ParseError>> {
        if self.completes(byte) {
            Some(self.frame_outcome(self.received(byte)))
        } else {
            None
        }
    }

    /// The state after one more byte. The buffer is emptied where it no longer
    /// begins like the start marker, and where a frame is complete.
    pub open spec fn step(self, byte: u8) -> ParserView {
        if differs_at_start(self.received(byte), message_start()) {
            self.with_buffer(Seq::empty())
        } else if !ends_with(self.received(byte), message_end()) {
            self.with_buffer(self.received(byte))
        } else {
            self.noted(self.frame_outcome(self.received(byte))).with_buffer(Seq::empty())
        }
    }

    /// The state after a string of bytes.
    pub open spec fn run(self, bytes: Seq<u8>) -> ParserView
        decreases bytes.len(),
    {
        if bytes.len() == 0 {
            self
        } else {
            self.run(bytes.drop_last()).step(bytes.last())
        }
    }

    /// The outcomes of the frames that a string of bytes completes, in their order.
    pub open spec fn run_outcomes(self, bytes: Seq<u8>) -> Seq<Result<MessageView, ParseError>>
        decreases bytes.len(),
    {
        if bytes.len() == 0 {
            Seq::empty()
        } else {
            let before = self.run_outcomes(bytes.drop_last());
            match self.run(bytes.drop_last()).outcome(bytes.last()) {
                Some(outcome) => before.push(outcome),
                None => before,
            }
        }
    }

    /// What a parser in use holds: no more than `BUFFER_CAP` bytes, which begin
    /// like the start marker, and a count of repeats within its bound.
    pub open spec fn well_formed(self) -> bool {
        &&& self.buffer.len() <= BUFFER_CAP
        &&& !differs_at_start(self.buffer, message_start())
        &&& self.repeats <= MAX_REPEATS
    }
}

/// The views of a list of fields.
pub open spec fn fields_view(fields: Seq<Vec<u8>>) -> Seq<Seq<u8>> {
    Seq::new(fields.len(), |i: int| fields[i]@)
}

/// The views of a list of outcomes.
pub open spec fn outcomes_view(outcomes: Seq<Result<PianobarMessage, ParseError>>) -> Seq<
    Result<MessageView, ParseError>,
> {
    Seq::new(outcomes.len(), |i: int| outcome_view(outcomes[i]))
}

/// The two markers, byte by byte.
pub proof fn lemma_markers()
    ensures
        message_start() == seq![0x1eu8, 0x1e, 0x5b, 0x5b, 0x23],
        message_end() == seq![0x1eu8, 0x1e, 0x23, 0x5d, 0x5d],
{
    reveal_strlit("\x1e\x1e[[#");
    reveal_strlit("\x1e\x1e#]]");
    assert(message_start() =~= seq![0x1eu8, 0x1e, 0x5b, 0x5b, 0x23]);
    assert(message_end() =~= seq![0x1eu8, 0x1e, 0x23, 0x5d, 0x5d]);
}

/// A buffer that begins like the start marker and ends with the end marker holds
/// both of them in full, one after the other.
pub proof fn lemma_frame_length(frame: Seq<u8>)
    requires
        !differs_at_start(frame, message_start()),
        ends_with(frame, message_end()),
    ensures
        frame.len() >= 10,
        starts_with(frame, message_start()),
{
    lemma_markers();
    let n = frame.len() as int;
    let head = frame.subrange(0, 5);
    let tail = frame.subrange(n - 5, n);
    assert(head == message_start());
    assert(head[0] == 0x1e && head[1] == 0x1e && head[2] == 0x5b && head[3] == 0x5b && head[4]
        == 0x23);
    assert(tail[0] == 0x1e && tail[1] == 0x1e && tail[2] == 0x23 && tail[3] == 0x5d && tail[4]
        == 0x5d);
    if n < 10 {
        if n == 5 {
            assert(tail[2] == head[2]);
        } else if n == 6 {
            assert(tail[1] == head[2]);
        } else if n == 7 {
            assert(tail[0] == head[2]);
        } else if n == 8 {
            assert(tail[0] == head[3]);
        } else {
            assert(tail[0] == head[4]);
        }
    }
}

/// A body always has a first field.
pub proof fn lemma_split_fields_len(body: Seq<u8>)
    ensures
        split_fields(body).len() >= 1,
    decreases body.len(),
{
    if body.len() > 0 {
        lemma_split_fields_len(body.drop_last());
    }
}

/// Wraps `String::from_utf8` of the standard library. Taken on trust: it gives
/// a text exactly where `bytes` are valid UTF-8, and the text is the one that
/// these bytes encode.
#[verifier::external_body]
fn text_of_utf8(bytes: Vec<u8>) -> (text: Option<String>)
    ensures
        text is Some <==> valid_utf8(bytes@),
        text matches Some(decoded) ==> decoded@ == decode_utf8(bytes@),
{
    match String::from_utf8(bytes) {
        Ok(text) => Some(text),
        Err(_) => None,
    }
}

/// Whether `message` and `expected` differ in as many bytes as the shorter of
/// them has.
pub fn message_start_differs_from(message: &[u8], expected: &[u8]) -> (differs: bool)
    ensures
        differs == differs_at_start(message@, expected@),
{
    let shorter = if message.len() < expected.len() {
        message.len()
    } else {
        expected.len()
    };
    !same_range(message, 0, expected, 0, shorter)
}

/// Parts `body` at each separator and trims the fields.
pub fn split_trimmed(body: &[u8]) -> (fields: Vec<Vec<u8>>)
    ensures
        fields_view(fields@) == trim_all(split_fields(body@)),
        fields@.len() >= 1,
{
    let len = body.len();
    let mut fields: Vec<Vec<u8>> = Vec::new();
    let ghost mut done: Seq<Seq<u8>> = Seq::empty();
    let mut start: usize = 0;
    let mut i: usize = 0;
    assert(body@.subrange(0, 0) =~= Seq::<u8>::empty());
    assert(split_fields(body@.subrange(0, 0)) =~= done.push(body@.subrange(0, 0)));
    while i < len
        invariant
            start <= i <= len,
            len == body@.len(),
            split_fields(body@.subrange(0, i as int)) == done.push(
                body@.subrange(start as int, i as int),
            ),
            fields@.len() == done.len(),
            fields_view(fields@) == trim_all(done),
        decreases len - i,
    {
        let ghost before = body@.subrange(0, i as int);
        let ghost longer = body@.subrange(0, i + 1);
        let ghost current = body@.subrange(start as int, i as int);
        assert(longer.drop_last() =~= before);
        assert(longer.last() == body@[i as int]);
        if body[i] == FIELD_SEPARATOR {
            let field = slice_to_vec(trimmed(slice_subrange(body, start, i)));
            let ghost earlier = fields@;
            fields.push(field);
            proof {
                let grown = done.push(current);
                assert(field@ == trim(current));
                assert(fields_view(fields@).len() == grown.len());
                assert forall|k: int| 0 <= k < grown.len() implies fields_view(fields@)[k]
                    == trim_all(grown)[k] by {
                    if k < done.len() {
                        assert(fields_view(earlier)[k] == trim_all(done)[k]);
                        assert(fields@[k] == earlier[k]);
                    } else {
                        assert(fields@[k] == field);
                    }
                }
                assert(fields_view(fields@) =~= trim_all(grown));
                assert(body@.subrange(i + 1, i + 1) =~= Seq::<u8>::empty());
                assert(split_fields(longer) =~= grown.push(body@.subrange(i + 1, i + 1)));
                done = grown;
            }
            start = i + 1;
        } else {
            proof {
                assert(current.push(body@[i as int]) =~= body@.subrange(start as int, i + 1));
                assert(split_fields(longer) =~= done.push(body@.subrange(start as int, i + 1)));
            }
        }
        i += 1;
    }
    assert(body@.subrange(0, len as int) =~= body@);
    let field = slice_to_vec(trimmed(slice_subrange(body, start, len)));
    let ghost earlier = fields@;
    fields.push(field);
    proof {
        let grown = done.push(body@.subrange(start as int, len as int));
        assert(field@ == trim(body@.subrange(start as int, len as int)));
        assert(fields_view(fields@).len() == grown.len());
        assert forall|k: int| 0 <= k < grown.len() implies fields_view(fields@)[k] == trim_all(
            grown,
        )[k] by {
            if k < done.len() {
                assert(fields_view(earlier)[k] == trim_all(done)[k]);
                assert(fields@[k] == earlier[k]);
            } else {
                assert(fields@[k] == field);
            }
        }
        assert(fields_view(fields@) =~= trim_all(grown));
    }
    fields
}

/// Finds the player's messages in the bytes of its output, taken one by one.
pub struct PianobarMessageParser {
    buffer: Vec<u8>,
    message_time_previous: (u32, u32),
    message_time_repeats: u8,
}

impl View for PianobarMessageParser {
    type V = ParserView;

    closed spec fn view(&self) -> ParserView {
        ParserView {
            buffer: self.buffer@,
            previous: self.message_time_previous,
            repeats: self.message_time_repeats as nat,
        }
    }
}

impl PianobarMessageParser {
    /// A parser that has seen nothing yet.
    pub fn new() -> (parser: PianobarMessageParser)
        ensures
            parser@ == ParserView::initial(),
            parser@.well_formed(),
    {
        let parser = PianobarMessageParser {
            buffer: Vec::new(),
            message_time_previous: (0, 0),
            message_time_repeats: 0,
        };
        proof {
            lemma_markers();
            assert(parser@.buffer.subrange(0, 0) =~= message_start().subrange(0, 0));
        }
        parser
    }

    /// The number of bytes that are held of a frame not yet complete.
    pub fn buffered(&self) -> (count: usize)
        ensures
            count == self@.buffer.len(),
    {
        self.buffer.len()
    }

    /// Decodes a `TIME` message. It takes one argument, the time left over the
    /// length of the song. The message counts as paused once the same numbers
    /// have been reported again twice in a row.
    pub fn process_message_time(&mut self, arguments: &Vec<Vec<u8>>) -> (outcome: Result<
        PianobarMessage,
        ParseError,
    >)
        requires
            old(self)@.well_formed(),
        ensures
            outcome_view(outcome) == old(self)@.time_message(fields_view(arguments@)),
            final(self)@ == old(self)@.noted(outcome_view(outcome)),
            final(self)@.well_formed(),
            outcome matches Ok(message) ==> message@.well_formed(),
    {
        if arguments.len() != 1 {
            return Err(ParseError::FieldCount);
        }
        match parse_song_time(arguments[0].as_slice()) {
            Ok((current, total)) => {
                let (previous_current, previous_total) = self.message_time_previous;
                let repeats: u8 = if previous_current == current && previous_total == total {
                    if self.message_time_repeats < MAX_REPEATS {
                        self.message_time_repeats + 1
                    } else {
                        MAX_REPEATS
                    }
                } else {
                    0
                };
                self.message_time_previous = (current, total);
                self.message_time_repeats = repeats;
                Ok(PianobarMessage::SongTime { current, total, paused: repeats >= PAUSE_REPEATS })
            },
            Err(error) => Err(ParseError::Time(error)),
        }
    }

    /// Decodes the message of the given type with the given arguments.
    pub fn process_message(&mut self, message_type: &[u8], arguments: &Vec<Vec<u8>>) -> (outcome:
        Result<PianobarMessage, ParseError>)
        requires
            old(self)@.well_formed(),
        ensures
            outcome_view(outcome) == old(self)@.message(message_type@, fields_view(arguments@)),
            final(self)@ == old(self)@.noted(outcome_view(outcome)),
            final(self)@.well_formed(),
            outcome matches Ok(message) ==> message@.well_formed(),
    {
        proof {
            reveal_strlit("TIME");
            reveal_strlit("LIST_ENTRY_SONG");
            reveal_strlit("QUESTION");
            reveal_strlit("INFO");
        }
        if same_bytes(message_type, literal_bytes("TIME")) {
            self.process_message_time(arguments)
        } else if same_bytes(message_type, literal_bytes("LIST_ENTRY_SONG")) {
            if arguments.len() != 2 {
                return Err(ParseError::FieldCount);
            }
            let artist = text_of_utf8(slice_to_vec(arguments[0].as_slice()));
            let title = text_of_utf8(slice_to_vec(arguments[1].as_slice()));
            match (artist, title) {
                (Some(artist), Some(title)) => Ok(PianobarMessage::ListEntrySong { artist, title }),
                _ => Err(ParseError::InvalidText),
            }
        } else if same_bytes(message_type, literal_bytes("QUESTION")) {
            if arguments.len() != 1 {
                return Err(ParseError::FieldCount);
            }
            match text_of_utf8(slice_to_vec(arguments[0].as_slice())) {
                Some(message) => Ok(PianobarMessage::Question { message }),
                None => Err(ParseError::InvalidText),
            }
        } else if same_bytes(message_type, literal_bytes("INFO")) {
            if arguments.len() != 1 {
                return Err(ParseError::FieldCount);
            }
            match text_of_utf8(slice_to_vec(arguments[0].as_slice())) {
                Some(message) => Ok(PianobarMessage::Info { message }),
                None => Err(ParseError::InvalidText),
            }
        } else {
            Err(ParseError::UnknownType)
        }
    }

    /// Takes one more byte of the player's output. Where the byte completes a
    /// frame, the result is the message, or the reason why the frame is dropped.
    pub fn feed(&mut self, byte: u8) -> (outcome: Option<Result<PianobarMessage, ParseError>>)
        requires
            old(self)@.well_formed(),
        ensures
            final(self)@ == old(self)@.step(byte),
            final(self)@.well_formed(),
            match outcome {
                Some(result) => old(self)@.outcome(byte) == Some(outcome_view(result)),
                None => old(self)@.outcome(byte) is None,
            },
            outcome matches Some(Ok(message)) ==> message@.well_formed(),
    {
        proof {
            lemma_markers();
            reveal_strlit("\x1e\x1e[[#");
            reveal_strlit("\x1e\x1e#]]");
            reveal_strlit("[[#");
        }
        self.buffer.push(byte);
        if self.buffer.len() > BUFFER_CAP {
            let half = self.buffer.len() / 2;
            let kept = self.buffer.split_off(half);
            self.buffer = kept;
        }
        assert(self.buffer@ == old(self)@.received(byte));
        if message_start_differs_from(self.buffer.as_slice(), literal_bytes("\x1e\x1e[[#")) {
            self.buffer.clear();
            assert(self@.buffer.subrange(0, 0) =~= message_start().subrange(0, 0));
            return None;
        }
        if !has_suffix(self.buffer.as_slice(), literal_bytes("\x1e\x1e#]]")) {
            return None;
        }
        proof {
            lemma_frame_length(self.buffer@);
        }
        let len = self.buffer.len();
        let mut fields = split_trimmed(slice_subrange(self.buffer.as_slice(), 2, len - 5));
        self.buffer.clear();
        assert(self@.buffer.subrange(0, 0) =~= message_start().subrange(0, 0));
        let ghost all = fields_view(fields@);
        let first = fields.remove(0);
        assert(fields_view(fields@) =~= all.subrange(1, all.len() as int));
        assert(first@ == all[0]);
        let first_len = first.len();
        if first_len < 5 || !has_prefix(first.as_slice(), literal_bytes("[[#")) || first[first_len
            - 1] != 0x23 {
            return Some(Err(ParseError::InvalidType));
        }
        let name = slice_subrange(first.as_slice(), 3, first_len - 1);
        Some(self.process_message(name, &fields))
    }

    /// Takes one more byte of the player's output, and returns the message that
    /// the byte completes, if it completes one. A frame that is not accepted is
    /// dropped.
    pub fn process(&mut self, byte: u8) -> (message: Option<PianobarMessage>)
        requires
            old(self)@.well_formed(),
        ensures
            final(self)@ == old(self)@.step(byte),
            final(self)@.well_formed(),
            match message {
                Some(found) => old(self)@.outcome(byte) == Some(
                    Ok::<MessageView, ParseError>(found@),
                ) && found@.well_formed(),
                None => !(old(self)@.outcome(byte) matches Some(Ok(_))),
            },
    {
        match self.feed(byte) {
            Some(Ok(message)) => Some(message),
            _ => None,
        }
    }

    /// Takes a piece of the player's output. Returns what each frame gave that
    /// was completed within it, in the order of the frames.
    pub fn process_chunk(&mut self, chunk: &[u8]) -> (outcomes: Vec<
        Result<PianobarMessage, ParseError>,
    >)
        requires
            old(self)@.well_formed(),
        ensures
            final(self)@ == old(self)@.run(chunk@),
            final(self)@.well_formed(),
            outcomes_view(outcomes@) == old(self)@.run_outcomes(chunk@),
    {
        let ghost initial = self@;
        let mut outcomes: Vec<Result<PianobarMessage, ParseError>> = Vec::new();
        let len = chunk.len();
        let mut i: usize = 0;
        assert(outcomes_view(outcomes@) =~= initial.run_outcomes(chunk@.subrange(0, 0)));
        while i < len
            invariant
                i <= len,
                len == chunk@.len(),
                self@.well_formed(),
                self@ == initial.run(chunk@.subrange(0, i as int)),
                outcomes_view(outcomes@) == initial.run_outcomes(chunk@.subrange(0, i as int)),
            decreases len - i,
        {
            let ghost longer = chunk@.subrange(0, i + 1);
            assert(longer.drop_last() =~= chunk@.subrange(0, i as int));
            assert(longer.last() == chunk@[i as int]);
            let ghost before = outcomes_view(outcomes@);
            match self.feed(chunk[i]) {
                Some(outcome) => {
                    outcomes.push(outcome);
                    assert(outcomes_view(outcomes@) =~= before.push(outcome_view(outcome)));
                },
                None => {},
            }
            i += 1;
        }
        assert(chunk@.subrange(0, len as int) =~= chunk@);
        outcomes
    }
}

/// A `TIME` message counts as paused exactly where it repeats the numbers of the
/// one before, which itself repeated them. So of three equal reports in a row,
/// after others, the first two are not paused and the third is; and a report
/// with other numbers is not paused and sets the count back to zero.
pub proof fn lemma_paused(state: ParserView, current: u32, total: u32)
    ensures
        state.paused_with(current, total) <==> state.previous == (current, total)
            && state.repeats >= 1,
        state.previous != (current, total) ==> state.observed(current, total).repeats == 0,
        state.previous != (current, total) ==> !state.observed(current, total).paused_with(
            current,
            total,
        ),
        state.previous != (current, total) ==> state.observed(current, total).observed(
            current,
            total,
        ).paused_with(current, total),
{
}

} // verus!
