//! Laws of the framing: what the parser does with whole frames, and how it
//! finds its way back after bytes that are none.

use crate::messages::{
    differs_at_start, frame_fields, lemma_markers, message_end, message_start, message_type,
    split_fields, trim_all, MessageView, ParseError, ParserView, BUFFER_CAP, FIELD_SEPARATOR,
};
use crate::song_time::{is_digit, lemma_song_time_of_text, TimeText};
use crate::text::{ascii_bytes, ends_with, is_blank, starts_with, trim};
use vstd::prelude::*;
use vstd::utf8::{encode_utf8, encode_utf8_decode_utf8, encode_utf8_valid_utf8};

verus! {

/// A frame: bytes that begin with the start marker, end with the end marker, hold
/// the end marker nowhere before, and fit in the parser's buffer.
pub open spec fn is_frame(frame: Seq<u8>) -> bool {
    &&& starts_with(frame, message_start())
    &&& ends_with(frame, message_end())
    &&& frame.len() <= BUFFER_CAP
    &&& forall|k: int|
        0 <= k < frame.len() ==> !ends_with(#[trigger] frame.subrange(0, k), message_end())
}

/// The buffer never outgrows its cap: one more byte leaves a parser well formed.
pub proof fn lemma_step_well_formed(state: ParserView, byte: u8)
    requires
        state.well_formed(),
    ensures
        state.step(byte).well_formed(),
        state.step(byte).buffer.len() <= BUFFER_CAP,
{
    lemma_markers();
    let empty = Seq::<u8>::empty();
    assert(empty.subrange(0, 0) =~= message_start().subrange(0, 0));
}

/// The buffer never outgrows its cap, whatever is received and however much.
pub proof fn lemma_run_well_formed(state: ParserView, bytes: Seq<u8>)
    requires
        state.well_formed(),
    ensures
        state.run(bytes).well_formed(),
        state.run(bytes).buffer.len() <= BUFFER_CAP,
    decreases bytes.len(),
{
    if bytes.len() > 0 {
        lemma_run_well_formed(state, bytes.drop_last());
        lemma_step_well_formed(state.run(bytes.drop_last()), bytes.last());
    }
}

/// Bytes received in two pieces give what they give in one.
pub proof fn lemma_run_concat(state: ParserView, first: Seq<u8>, second: Seq<u8>)
    ensures
        state.run(first + second) == state.run(first).run(second),
        state.run_outcomes(first + second) == state.run_outcomes(first) + state.run(
            first,
        ).run_outcomes(second),
    decreases second.len(),
{
    if second.len() == 0 {
        assert(first + second =~= first);
        assert(state.run_outcomes(first) + Seq::<Result<MessageView, ParseError>>::empty()
            =~= state.run_outcomes(first));
    } else {
        let whole = first + second;
        assert(whole.drop_last() =~= first + second.drop_last());
        assert(whole.last() == second.last());
        lemma_run_concat(state, first, second.drop_last());
        let middle = state.run(first);
        let before = middle.run(second.drop_last());
        match before.outcome(second.last()) {
            Some(outcome) => {
                assert(state.run_outcomes(whole) =~= state.run_outcomes(first)
                    + middle.run_outcomes(second));
            },
            None => {},
        }
    }
}

/// What a frame gives, and the trace it leaves, do not depend on what the buffer
/// held.
pub proof fn lemma_buffer_is_no_matter(state: ParserView, buffer: Seq<u8>, frame: Seq<u8>)
    ensures
        state.with_buffer(buffer).frame_outcome(frame) == state.frame_outcome(frame),
        state.with_buffer(buffer).noted(state.frame_outcome(frame)).with_buffer(Seq::empty())
            == state.noted(state.frame_outcome(frame)).with_buffer(Seq::empty()),
{
}

/// While a frame is received by a parser whose buffer was empty, the buffer
/// holds what has come of the frame, and nothing is given.
pub proof fn lemma_frame_received(state: ParserView, frame: Seq<u8>, count: int)
    requires
        state.buffer.len() == 0,
        is_frame(frame),
        0 <= count < frame.len(),
    ensures
        state.run(frame.subrange(0, count)) == state.with_buffer(frame.subrange(0, count)),
        state.run_outcomes(frame.subrange(0, count)).len() == 0,
    decreases count,
{
    if count == 0 {
        assert(frame.subrange(0, 0) =~= Seq::<u8>::empty());
        assert(state.buffer =~= Seq::<u8>::empty());
    } else {
        lemma_frame_received(state, frame, count - 1);
        let shorter = frame.subrange(0, count - 1);
        let longer = frame.subrange(0, count);
        assert(longer.drop_last() =~= shorter);
        assert(longer.last() == frame[count - 1]);
        let before = state.with_buffer(shorter);
        assert(before.received(frame[count - 1]) =~= longer);
        lemma_starts_like(frame, count);
    }
}

/// What a frame begins with begins like the start marker.
proof fn lemma_starts_like(frame: Seq<u8>, count: int)
    requires
        starts_with(frame, message_start()),
        0 <= count <= frame.len(),
    ensures
        !differs_at_start(frame.subrange(0, count), message_start()),
{
    let start = message_start();
    let part = frame.subrange(0, count);
    let shorter: int = if count < start.len() {
        count
    } else {
        start.len() as int
    };
    assert(frame.subrange(0, start.len() as int) == start);
    assert forall|i: int| 0 <= i < shorter implies part.subrange(0, shorter)[i] == start.subrange(
        0,
        shorter,
    )[i] by {
        assert(frame.subrange(0, start.len() as int)[i] == start[i]);
    }
    assert(part.subrange(0, shorter) =~= start.subrange(0, shorter));
}

/// A parser whose buffer is empty gives for a frame, received byte by byte, the
/// outcome of that frame and nothing else, and its buffer is empty again.
pub proof fn lemma_frame_decoded(state: ParserView, frame: Seq<u8>)
    requires
        state.buffer.len() == 0,
        is_frame(frame),
    ensures
        state.run_outcomes(frame) == seq![state.frame_outcome(frame)],
        state.run(frame) == state.noted(state.frame_outcome(frame)).with_buffer(Seq::empty()),
        state.run(frame).buffer.len() == 0,
{
    lemma_markers();
    let count = frame.len() - 1;
    lemma_frame_received(state, frame, count);
    let shorter = frame.subrange(0, count);
    assert(frame.drop_last() =~= shorter);
    let before = state.with_buffer(shorter);
    assert(before.received(frame.last()) =~= frame);
    lemma_starts_like(frame, frame.len() as int);
    assert(frame.subrange(0, frame.len() as int) =~= frame);
    lemma_buffer_is_no_matter(state, shorter, frame);
    assert(before.completes(frame.last()));
    assert(state.run_outcomes(frame) =~= seq![state.frame_outcome(frame)]);
}

/// After one more byte the buffer is empty, or it holds what it held and the
/// byte, begins like the start marker, and does not end with the end marker.
proof fn lemma_kept(state: ParserView, byte: u8)
    ensures
        state.step(byte).buffer.len() == 0 || (state.step(byte).buffer == state.received(byte)
            && !differs_at_start(state.received(byte), message_start()) && !ends_with(
            state.received(byte),
            message_end(),
        )),
{
}

/// What the buffer ended with, it still ends with after one more byte, that byte
/// put behind.
proof fn lemma_received_tail(state: ParserView, byte: u8, tail: Seq<u8>)
    requires
        ends_with(state.buffer, tail),
        tail.len() < 400,
    ensures
        ends_with(state.received(byte), tail.push(byte)),
{
    let longer = state.buffer.push(byte);
    let count = tail.len() + 1;
    assert(state.buffer.subrange(state.buffer.len() - tail.len(), state.buffer.len() as int)
        == tail);
    assert forall|i: int| 0 <= i < count implies longer.subrange(
        longer.len() - count,
        longer.len() as int,
    )[i] == tail.push(byte)[i] by {
        if i < tail.len() {
            assert(state.buffer.subrange(
                state.buffer.len() - tail.len(),
                state.buffer.len() as int,
            )[i] == tail[i]);
        }
    }
    assert(longer.subrange(longer.len() - count, longer.len() as int) =~= tail.push(byte));
    let kept = state.received(byte);
    assert(kept.subrange(kept.len() - count, kept.len() as int) =~= longer.subrange(
        longer.len() - count,
        longer.len() as int,
    ));
}

/// A buffer of one or two bytes that does not begin like the start marker.
proof fn lemma_short_buffers(byte: u8)
    ensures
        byte != 0x1e ==> differs_at_start(seq![byte], message_start()),
        byte != 0x1e ==> differs_at_start(seq![0x1eu8, byte], message_start()),
{
    lemma_markers();
    if byte != 0x1e {
        let one = seq![byte];
        assert(one.subrange(0, 1)[0] != message_start().subrange(0, 1)[0]);
        let two = seq![0x1eu8, byte];
        assert(two.subrange(0, 2)[1] != message_start().subrange(0, 2)[1]);
    }
}

/// Whatever a parser has received, once the bytes of an end marker have come its
/// buffer is empty: the frame that they close is given or dropped, and the next
/// frame starts afresh.
pub proof fn lemma_end_marker_empties(state: ParserView, bytes: Seq<u8>)
    requires
        ends_with(bytes, message_end()),
    ensures
        state.run(bytes).buffer.len() == 0,
{
    lemma_markers();
    let n = bytes.len() as int;
    let end = bytes.subrange(n - 5, n);
    assert(end[0] == 0x1e && end[1] == 0x1e && end[2] == 0x23 && end[3] == 0x5d && end[4]
        == 0x5d);
    let part0 = bytes.subrange(0, n - 5);
    let part1 = bytes.subrange(0, n - 4);
    let part2 = bytes.subrange(0, n - 3);
    let part3 = bytes.subrange(0, n - 2);
    let part4 = bytes.subrange(0, n - 1);
    assert(part1.drop_last() =~= part0 && part1.last() == 0x1e);
    assert(part2.drop_last() =~= part1 && part2.last() == 0x1e);
    assert(part3.drop_last() =~= part2 && part3.last() == 0x23);
    assert(part4.drop_last() =~= part3 && part4.last() == 0x5d);
    assert(bytes.drop_last() =~= part4 && bytes.last() == 0x5d);
    let state0 = state.run(part0);
    let state1 = state0.step(0x1e);
    let state2 = state1.step(0x1e);
    let state3 = state2.step(0x23);
    let state4 = state3.step(0x5d);
    let state5 = state4.step(0x5d);
    assert(state.run(part1) == state1);
    assert(state.run(part2) == state2);
    assert(state.run(part3) == state3);
    assert(state.run(part4) == state4);
    assert(state.run(bytes) == state5);
    if state5.buffer.len() > 0 {
        lemma_kept(state4, 0x5d);
        lemma_kept(state3, 0x5d);
        lemma_kept(state2, 0x23);
        lemma_kept(state1, 0x1e);
        lemma_kept(state0, 0x1e);
        lemma_short_buffers(0x5d);
        lemma_short_buffers(0x23);
        if state4.buffer.len() == 0 {
            assert(state4.received(0x5d) =~= seq![0x5du8]);
            assert(false);
        }
        if state3.buffer.len() == 0 {
            assert(state3.received(0x5d) =~= seq![0x5du8]);
            assert(false);
        }
        if state2.buffer.len() == 0 {
            assert(state2.received(0x23) =~= seq![0x23u8]);
            assert(false);
        }
        if state1.buffer.len() == 0 {
            assert(state1.received(0x1e) =~= seq![0x1eu8]);
            assert(state2.received(0x23) =~= seq![0x1eu8, 0x23]);
            assert(false);
        }
        let none = Seq::<u8>::empty();
        assert(state0.buffer.subrange(state0.buffer.len() as int, state0.buffer.len() as int) =~= none);
        lemma_received_tail(state0, 0x1e, none);
        lemma_received_tail(state1, 0x1e, none.push(0x1e));
        lemma_received_tail(state2, 0x23, none.push(0x1e).push(0x1e));
        lemma_received_tail(state3, 0x5d, none.push(0x1e).push(0x1e).push(0x23));
        lemma_received_tail(state4, 0x5d, none.push(0x1e).push(0x1e).push(0x23).push(0x5d));
        assert(none.push(0x1e).push(0x1e).push(0x23).push(0x5d).push(0x5d) =~= message_end());
        assert(false);
    }
}

/// After bytes that end with an end marker, the next frame gives its outcome and
/// nothing else, whatever came before: bytes that are no frame cost at most the
/// frame that they run into.
pub proof fn lemma_frame_after_end_marker(state: ParserView, before: Seq<u8>, frame: Seq<u8>)
    requires
        ends_with(before, message_end()),
        is_frame(frame),
    ensures
        state.run_outcomes(before + frame) == state.run_outcomes(before).push(
            state.run(before).frame_outcome(frame),
        ),
        state.run(before + frame).buffer.len() == 0,
{
    lemma_end_marker_empties(state, before);
    lemma_run_concat(state, before, frame);
    lemma_frame_decoded(state.run(before), frame);
    assert(state.run_outcomes(before) + seq![state.run(before).frame_outcome(frame)]
        =~= state.run_outcomes(before).push(state.run(before).frame_outcome(frame)));
}

/// No byte of `field` is the separator.
pub open spec fn separator_free(field: Seq<u8>) -> bool {
    forall|i: int| 0 <= i < field.len() ==> #[trigger] field[i] != FIELD_SEPARATOR
}

/// Bytes without a separator among them, such as the player's ordinary output,
/// leave a parser whose buffer is empty as it is, and give nothing.
pub proof fn lemma_plain_bytes_ignored(state: ParserView, bytes: Seq<u8>)
    requires
        state.buffer.len() == 0,
        separator_free(bytes),
    ensures
        state.run(bytes) == state,
        state.run_outcomes(bytes).len() == 0,
    decreases bytes.len(),
{
    lemma_markers();
    if bytes.len() > 0 {
        let shorter = bytes.drop_last();
        assert forall|i: int| 0 <= i < shorter.len() implies #[trigger] shorter[i]
            != FIELD_SEPARATOR by {
            assert(shorter[i] == bytes[i]);
        }
        lemma_plain_bytes_ignored(state, shorter);
        assert(bytes.last() != FIELD_SEPARATOR);
        assert(state.received(bytes.last()) =~= seq![bytes.last()]);
        lemma_short_buffers(bytes.last());
        assert(state.with_buffer(Seq::empty()) == state) by {
            assert(state.buffer =~= Seq::<u8>::empty());
        }
    }
}

/// Whatever bytes have come, and however many: of two frames that follow them,
/// the second gives its outcome and nothing else. Bytes that are no frame can
/// cost the frame that comes next, and no more than that.
pub proof fn lemma_second_frame_decoded(
    state: ParserView,
    bytes: Seq<u8>,
    first: Seq<u8>,
    second: Seq<u8>,
)
    requires
        is_frame(first),
        is_frame(second),
    ensures
        state.run_outcomes(bytes + first + second) == state.run_outcomes(bytes + first).push(
            state.run(bytes + first).frame_outcome(second),
        ),
        state.run(bytes + first + second).buffer.len() == 0,
{
    let before = bytes + first;
    let n = before.len() as int;
    assert(before.subrange(n - 5, n) =~= first.subrange(first.len() - 5, first.len() as int)) by {
        lemma_markers();
    }
    assert(ends_with(before, message_end())) by {
        lemma_markers();
    }
    lemma_frame_after_end_marker(state, before, second);
}

/// The arguments of a message as they stand in its frame: each behind a
/// separator.
pub open spec fn arguments_bytes(arguments: Seq<Seq<u8>>) -> Seq<u8>
    decreases arguments.len(),
{
    if arguments.len() == 0 {
        Seq::empty()
    } else {
        arguments_bytes(arguments.drop_last()) + seq![FIELD_SEPARATOR] + arguments.last()
    }
}

/// The frame of a message of the given type with the given arguments.
pub open spec fn frame_of(name: Seq<u8>, arguments: Seq<Seq<u8>>) -> Seq<u8> {
    message_start() + name + seq![0x23u8] + arguments_bytes(arguments) + message_end()
}

/// An argument that a frame can hold as it is: it has no separator in it and no
/// blanks around it, and it does not begin with `#`.
pub open spec fn is_plain(field: Seq<u8>) -> bool {
    &&& separator_free(field)
    &&& field.len() > 0 ==> !is_blank(field[0]) && !is_blank(field.last()) && field[0] != 0x23
}

/// At position `at` of `text` stand two separators and a `#`.
spec fn mark_at(text: Seq<u8>, at: int) -> bool {
    0 <= at && at + 2 < text.len() && text[at] == FIELD_SEPARATOR && text[at + 1]
        == FIELD_SEPARATOR && text[at + 2] == 0x23
}

/// Nowhere in `text` do two separators and a `#` follow each other.
spec fn mark_free(text: Seq<u8>) -> bool {
    forall|at: int| !#[trigger] mark_at(text, at)
}

/// A frame up to its end marker holds no two separators with a `#` behind them.
proof fn lemma_mark_free(name: Seq<u8>, arguments: Seq<Seq<u8>>)
    requires
        separator_free(name),
        forall|i: int| 0 <= i < arguments.len() ==> is_plain(#[trigger] arguments[i]),
    ensures
        mark_free(message_start() + name + seq![0x23u8] + arguments_bytes(arguments)),
    decreases arguments.len(),
{
    lemma_markers();
    let head = message_start() + name + seq![0x23u8];
    if arguments.len() == 0 {
        let text = head + arguments_bytes(arguments);
        assert(text =~= head);
        assert forall|at: int| !#[trigger] mark_at(text, at) by {
            if 5 <= at && at < 5 + name.len() {
                assert(text[at] == name[at - 5]);
            }
        }
    } else {
        let earlier = arguments.drop_last();
        assert forall|i: int| 0 <= i < earlier.len() implies is_plain(#[trigger] earlier[i]) by {
            assert(earlier[i] == arguments[i]);
        }
        lemma_mark_free(name, earlier);
        let short = head + arguments_bytes(earlier);
        let last = arguments.last();
        assert(is_plain(last));
        let text = head + arguments_bytes(arguments);
        assert(text =~= short + seq![FIELD_SEPARATOR] + last);
        let n = short.len() as int;
        assert forall|at: int| !#[trigger] mark_at(text, at) by {
            if 0 <= at && at + 2 < text.len() {
                if at + 2 < n {
                    assert(!mark_at(short, at));
                    assert(text[at] == short[at] && text[at + 1] == short[at + 1] && text[at + 2]
                        == short[at + 2]);
                } else if at + 2 == n {
                    assert(text[at + 2] == FIELD_SEPARATOR);
                } else if at + 1 == n {
                    assert(text[at + 2] == last[0]);
                } else if at == n {
                    assert(text[at + 1] == last[0]);
                } else {
                    assert(text[at] == last[at - n - 1]);
                }
            }
        }
    }
}

/// Behind bytes that hold no two separators with a `#` behind them, the end
/// marker is complete only with its last byte.
proof fn lemma_no_end_before(open: Seq<u8>, count: int)
    requires
        mark_free(open),
        0 <= count < open.len() + 5,
    ensures
        !ends_with((open + message_end()).subrange(0, count), message_end()),
{
    lemma_markers();
    let frame = open + message_end();
    let part = frame.subrange(0, count);
    if ends_with(part, message_end()) {
        let at = count - 5;
        let tail = part.subrange(at, count);
        assert(tail[0] == 0x1e && tail[1] == 0x1e && tail[2] == 0x23);
        assert(frame[at] == tail[0] && frame[at + 1] == tail[1] && frame[at + 2] == tail[2]);
        if at + 2 < open.len() {
            assert(open[at] == frame[at] && open[at + 1] == frame[at + 1] && open[at + 2]
                == frame[at + 2]);
            assert(mark_at(open, at));
        } else {
            assert(frame[at + 2] == message_end()[at + 2 - open.len()]);
        }
    }
}

/// A body that holds no separator is one field.
proof fn lemma_split_one(body: Seq<u8>)
    requires
        separator_free(body),
    ensures
        split_fields(body) == seq![body],
    decreases body.len(),
{
    if body.len() == 0 {
        assert(body =~= Seq::<u8>::empty());
    } else {
        let shorter = body.drop_last();
        assert forall|i: int| 0 <= i < shorter.len() implies #[trigger] shorter[i]
            != FIELD_SEPARATOR by {
            assert(shorter[i] == body[i]);
        }
        lemma_split_one(shorter);
        assert(shorter.push(body.last()) =~= body);
        assert(split_fields(body) =~= seq![body]);
    }
}

/// A separator and a field behind a body add that field to the body's fields.
proof fn lemma_split_push(body: Seq<u8>, field: Seq<u8>)
    requires
        separator_free(field),
    ensures
        split_fields(body + seq![FIELD_SEPARATOR] + field) == split_fields(body).push(field),
    decreases field.len(),
{
    let whole = body + seq![FIELD_SEPARATOR] + field;
    if field.len() == 0 {
        assert(whole.drop_last() =~= body);
        assert(field =~= Seq::<u8>::empty());
    } else {
        let shorter = field.drop_last();
        assert forall|i: int| 0 <= i < shorter.len() implies #[trigger] shorter[i]
            != FIELD_SEPARATOR by {
            assert(shorter[i] == field[i]);
        }
        lemma_split_push(body, shorter);
        assert(whole.drop_last() =~= body + seq![FIELD_SEPARATOR] + shorter);
        assert(whole.last() == field.last());
        assert(field.last() != FIELD_SEPARATOR);
        assert(shorter.push(field.last()) =~= field);
        assert(split_fields(whole) =~= split_fields(body).push(field));
    }
}

/// The fields of a type field with arguments behind it: the type field and the
/// arguments.
proof fn lemma_split_arguments(first: Seq<u8>, arguments: Seq<Seq<u8>>)
    requires
        separator_free(first),
        forall|i: int| 0 <= i < arguments.len() ==> is_plain(#[trigger] arguments[i]),
    ensures
        split_fields(first + arguments_bytes(arguments)) == seq![first] + arguments,
    decreases arguments.len(),
{
    if arguments.len() == 0 {
        assert(first + arguments_bytes(arguments) =~= first);
        lemma_split_one(first);
        assert(seq![first] + arguments =~= seq![first]);
    } else {
        let earlier = arguments.drop_last();
        assert forall|i: int| 0 <= i < earlier.len() implies is_plain(#[trigger] earlier[i]) by {
            assert(earlier[i] == arguments[i]);
        }
        lemma_split_arguments(first, earlier);
        assert(is_plain(arguments.last()));
        lemma_split_push(first + arguments_bytes(earlier), arguments.last());
        assert(first + arguments_bytes(arguments) =~= first + arguments_bytes(earlier)
            + seq![FIELD_SEPARATOR] + arguments.last());
        assert((seq![first] + earlier).push(arguments.last()) =~= seq![first] + arguments);
    }
}

/// A text without blanks around it is left as it is.
pub proof fn lemma_trim_plain(field: Seq<u8>)
    requires
        field.len() > 0 ==> !is_blank(field[0]) && !is_blank(field.last()),
    ensures
        trim(field) == field,
{
}

/// The first field of the frame of a message.
spec fn type_field(name: Seq<u8>) -> Seq<u8> {
    ascii_bytes("[[#"@) + name + seq![0x23u8]
}

/// The end marker stands only at the end of the frame of a message.
proof fn lemma_frame_of_is_frame(name: Seq<u8>, arguments: Seq<Seq<u8>>)
    requires
        separator_free(name),
        forall|i: int| 0 <= i < arguments.len() ==> is_plain(#[trigger] arguments[i]),
        frame_of(name, arguments).len() <= BUFFER_CAP,
    ensures
        is_frame(frame_of(name, arguments)),
{
    lemma_markers();
    let frame = frame_of(name, arguments);
    let open = message_start() + name + seq![0x23u8] + arguments_bytes(arguments);
    let n = frame.len() as int;
    assert(frame =~= open + message_end());
    assert(frame.subrange(0, 5) =~= message_start());
    assert(frame.subrange(n - 5, n) =~= message_end());
    lemma_mark_free(name, arguments);
    assert forall|k: int| 0 <= k < n implies !ends_with(
        #[trigger] frame.subrange(0, k),
        message_end(),
    ) by {
        lemma_no_end_before(open, k);
    }
}

/// The type field names its type.
proof fn lemma_type_field(name: Seq<u8>)
    requires
        name.len() > 0,
        separator_free(name),
    ensures
        separator_free(type_field(name)),
        trim(type_field(name)) == type_field(name),
        message_type(type_field(name)) == Some(name),
{
    reveal_strlit("[[#");
    let first = type_field(name);
    assert forall|i: int| 0 <= i < first.len() implies #[trigger] first[i] != FIELD_SEPARATOR by {
        if 3 <= i && i < 3 + name.len() {
            assert(first[i] == name[i - 3]);
        }
    }
    lemma_trim_plain(first);
    assert(first.subrange(0, 3) =~= ascii_bytes("[[#"@));
    assert(first.subrange(3, first.len() - 1) =~= name);
}

/// The fields of the frame of a message: the type field, and the arguments.
proof fn lemma_frame_of_fields(name: Seq<u8>, arguments: Seq<Seq<u8>>)
    requires
        name.len() > 0,
        separator_free(name),
        forall|i: int| 0 <= i < arguments.len() ==> is_plain(#[trigger] arguments[i]),
    ensures
        frame_fields(frame_of(name, arguments)) == seq![type_field(name)] + arguments,
{
    lemma_markers();
    reveal_strlit("[[#");
    let frame = frame_of(name, arguments);
    let n = frame.len() as int;
    let first = type_field(name);
    let body = frame.subrange(2, n - 5);
    assert(body =~= first + arguments_bytes(arguments));
    lemma_type_field(name);
    lemma_split_arguments(first, arguments);
    let raw = seq![first] + arguments;
    assert forall|i: int| 0 <= i < raw.len() implies trim(#[trigger] raw[i]) == raw[i] by {
        if i > 0 {
            assert(raw[i] == arguments[i - 1]);
            assert(is_plain(arguments[i - 1]));
            lemma_trim_plain(arguments[i - 1]);
        }
    }
    assert(trim_all(raw) =~= raw);
}

/// The frame of a message is a frame, and gives that message: for every type
/// that is not empty and holds no separator, and all arguments that are plain,
/// as long as the frame fits in the buffer.
pub proof fn lemma_frame_of(state: ParserView, name: Seq<u8>, arguments: Seq<Seq<u8>>)
    requires
        name.len() > 0,
        separator_free(name),
        forall|i: int| 0 <= i < arguments.len() ==> is_plain(#[trigger] arguments[i]),
        frame_of(name, arguments).len() <= BUFFER_CAP,
    ensures
        is_frame(frame_of(name, arguments)),
        state.frame_outcome(frame_of(name, arguments)) == state.message(name, arguments),
{
    lemma_frame_of_is_frame(name, arguments);
    lemma_frame_of_fields(name, arguments);
    lemma_type_field(name);
    let fields = frame_fields(frame_of(name, arguments));
    assert(fields[0] == type_field(name));
    assert(fields.subrange(1, fields.len() as int) =~= arguments);
}

/// The bytes of a well-formed time text are a plain argument.
proof fn lemma_time_text_plain(text: TimeText)
    requires
        text.well_formed(),
    ensures
        is_plain(text.bytes()),
{
    let bytes = text.bytes();
    let sign = if text.negative {
        seq![0x2du8]
    } else {
        Seq::<u8>::empty()
    };
    let a = sign.len() as int;
    let b = a + text.remaining_minutes.len();
    let c = b + 1 + text.remaining_seconds.len();
    let d = c + 1 + text.total_minutes.len();
    assert forall|i: int| 0 <= i < bytes.len() implies (is_digit(#[trigger] bytes[i]) || bytes[i]
        == 0x2d || bytes[i] == 0x3a || bytes[i] == 0x2f) by {
        if i < a {
        } else if i < b {
            assert(bytes[i] == text.remaining_minutes[i - a]);
        } else if i == b {
        } else if i < c {
            assert(bytes[i] == text.remaining_seconds[i - b - 1]);
        } else if i == c {
        } else if i < d {
            assert(bytes[i] == text.total_minutes[i - c - 1]);
        } else if i == d {
        } else {
            assert(bytes[i] == text.total_seconds[i - d - 1]);
        }
    }
    assert(bytes.len() > 0);
    assert(is_digit(bytes[0]) || bytes[0] == 0x2d || bytes[0] == 0x3a || bytes[0] == 0x2f);
    assert(is_digit(bytes.last()) || bytes.last() == 0x2d || bytes.last() == 0x3a || bytes.last()
        == 0x2f);
}

/// The frame of a `TIME` message whose argument is a well-formed time text gives,
/// where no more time is left than the song is long, a message with the time
/// played, which is the song's length minus the time left; where more time is
/// left, the frame is dropped. The song's length must fit in 32 bits.
pub proof fn lemma_time_frame(state: ParserView, text: TimeText)
    requires
        text.well_formed(),
        text.total() <= u32::MAX,
        frame_of(ascii_bytes("TIME"@), seq![text.bytes()]).len() <= BUFFER_CAP,
    ensures
        is_frame(frame_of(ascii_bytes("TIME"@), seq![text.bytes()])),
        text.remaining() <= text.total() ==> state.frame_outcome(
            frame_of(ascii_bytes("TIME"@), seq![text.bytes()]),
        ) == Ok::<MessageView, ParseError>(
            MessageView::SongTime {
                current: (text.total() - text.remaining()) as u32,
                total: text.total() as u32,
                paused: state.paused_with(
                    (text.total() - text.remaining()) as u32,
                    text.total() as u32,
                ),
            },
        ),
        text.remaining() > text.total() ==> state.frame_outcome(
            frame_of(ascii_bytes("TIME"@), seq![text.bytes()]),
        ) is Err,
{
    reveal_strlit("TIME");
    let name = ascii_bytes("TIME"@);
    let arguments = seq![text.bytes()];
    lemma_time_text_plain(text);
    lemma_frame_of(state, name, arguments);
    lemma_song_time_of_text(text);
}

/// A parser whose buffer is empty, receiving the frame of a `TIME` message whose
/// argument is a well-formed time text, gives where no more time is left than
/// the song is long that one message, with the time played, and no message
/// where more is left: the frame is dropped then.
pub proof fn lemma_time_frame_received(state: ParserView, text: TimeText)
    requires
        state.buffer.len() == 0,
        text.well_formed(),
        text.total() <= u32::MAX,
        frame_of(ascii_bytes("TIME"@), seq![text.bytes()]).len() <= BUFFER_CAP,
    ensures
        text.remaining() <= text.total() ==> state.run_outcomes(
            frame_of(ascii_bytes("TIME"@), seq![text.bytes()]),
        ) == seq![
            Ok::<MessageView, ParseError>(
                MessageView::SongTime {
                    current: (text.total() - text.remaining()) as u32,
                    total: text.total() as u32,
                    paused: state.paused_with(
                        (text.total() - text.remaining()) as u32,
                        text.total() as u32,
                    ),
                },
            ),
        ],
        text.remaining() > text.total() ==> state.run_outcomes(
            frame_of(ascii_bytes("TIME"@), seq![text.bytes()]),
        ).len() == 1 && state.run_outcomes(
            frame_of(ascii_bytes("TIME"@), seq![text.bytes()]),
        )[0] is Err,
{
    lemma_time_frame(state, text);
    lemma_frame_decoded(state, frame_of(ascii_bytes("TIME"@), seq![text.bytes()]));
}

/// The frames of the messages that hold text give that text: for every text
/// whose bytes in UTF-8 are plain, an `INFO` and a `QUESTION` frame with these
/// bytes as their argument give a message with the text, and so does a
/// `LIST_ENTRY_SONG` frame with an artist and a title.
pub proof fn lemma_text_frames(state: ParserView, text: Seq<char>, other: Seq<char>)
    requires
        is_plain(encode_utf8(text)),
        is_plain(encode_utf8(other)),
    ensures
        state.message(ascii_bytes("INFO"@), seq![encode_utf8(text)]) == Ok::<
            MessageView,
            ParseError,
        >(MessageView::Info { message: text }),
        state.message(ascii_bytes("QUESTION"@), seq![encode_utf8(text)]) == Ok::<
            MessageView,
            ParseError,
        >(MessageView::Question { message: text }),
        state.message(
            ascii_bytes("LIST_ENTRY_SONG"@),
            seq![encode_utf8(text), encode_utf8(other)],
        ) == Ok::<MessageView, ParseError>(
            MessageView::ListEntrySong { artist: text, title: other },
        ),
        frame_of(ascii_bytes("INFO"@), seq![encode_utf8(text)]).len() <= BUFFER_CAP
            ==> state.frame_outcome(frame_of(ascii_bytes("INFO"@), seq![encode_utf8(text)]))
            == Ok::<MessageView, ParseError>(MessageView::Info { message: text }),
        frame_of(ascii_bytes("QUESTION"@), seq![encode_utf8(text)]).len() <= BUFFER_CAP
            ==> state.frame_outcome(frame_of(ascii_bytes("QUESTION"@), seq![encode_utf8(text)]))
            == Ok::<MessageView, ParseError>(MessageView::Question { message: text }),
        frame_of(
            ascii_bytes("LIST_ENTRY_SONG"@),
            seq![encode_utf8(text), encode_utf8(other)],
        ).len() <= BUFFER_CAP ==> state.frame_outcome(
            frame_of(ascii_bytes("LIST_ENTRY_SONG"@), seq![encode_utf8(text), encode_utf8(other)]),
        ) == Ok::<MessageView, ParseError>(
            MessageView::ListEntrySong { artist: text, title: other },
        ),
{
    reveal_strlit("TIME");
    reveal_strlit("INFO");
    reveal_strlit("QUESTION");
    reveal_strlit("LIST_ENTRY_SONG");
    encode_utf8_valid_utf8(text);
    encode_utf8_valid_utf8(other);
    encode_utf8_decode_utf8(text);
    encode_utf8_decode_utf8(other);
    let info = ascii_bytes("INFO"@);
    let question = ascii_bytes("QUESTION"@);
    let song = ascii_bytes("LIST_ENTRY_SONG"@);
    let time = ascii_bytes("TIME"@);
    assert(info.len() == 4 && question.len() == 8 && song.len() == 15 && time.len() == 4);
    assert(info[0] != time[0]);
    let one = seq![encode_utf8(text)];
    let two = seq![encode_utf8(text), encode_utf8(other)];
    if frame_of(info, one).len() <= BUFFER_CAP {
        lemma_frame_of(state, info, one);
    }
    if frame_of(question, one).len() <= BUFFER_CAP {
        lemma_frame_of(state, question, one);
    }
    if frame_of(song, two).len() <= BUFFER_CAP {
        lemma_frame_of(state, song, two);
    }
}

/// No message of a frame tells of more time played than the song is long.
pub proof fn lemma_frame_outcome_well_formed(state: ParserView, frame: Seq<u8>)
    ensures
        state.frame_outcome(frame) matches Ok(message) ==> message.well_formed(),
{
}

/// No message that the parser gives tells of more time played than the song is
/// long, whatever bytes it receives.
pub proof fn lemma_outcomes_well_formed(state: ParserView, bytes: Seq<u8>, position: int)
    requires
        0 <= position < state.run_outcomes(bytes).len(),
    ensures
        state.run_outcomes(bytes)[position] matches Ok(message) ==> message.well_formed(),
    decreases bytes.len(),
{
    if bytes.len() > 0 {
        let before = state.run_outcomes(bytes.drop_last());
        let middle = state.run(bytes.drop_last());
        if position < before.len() {
            lemma_outcomes_well_formed(state, bytes.drop_last(), position);
        } else {
            lemma_frame_outcome_well_formed(middle, middle.received(bytes.last()));
        }
    }
}

} // verus!
