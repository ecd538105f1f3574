//! The course of writing one command to the player's input.
//!
//! The input takes as many bytes at a time as it likes. The caller offers what is
//! left until all is written, and flushes then. An input that twice in a row
//! takes nothing is given up.

use vstd::prelude::*;

verus! {

/// Why a command could not be written.
#[derive(Clone, Copy, Debug, PartialEq, Eq)]
pub enum WriteError {
    /// The player's input took no bytes twice in a row.
    Refused,
}

/// How far a command has been written.
pub struct WriteProgressView {
    /// The number of bytes that the input has taken.
    pub written: nat,
    /// The number of bytes of the command.
    pub length: nat,
    /// Whether the input took nothing when it was last offered bytes.
    pub refused: bool,
}

impl WriteProgressView {
    /// No more is written than there is.
    pub open spec fn well_formed(self) -> bool {
        self.written <= self.length
    }

    /// The progress after the input has taken `count` of the bytes it was
    /// offered: it is further by `count` bytes, or has refused once.
    pub open spec fn after(self, count: nat) -> WriteProgressView {
        WriteProgressView {
            written: self.written + count,
            length: self.length,
            refused: count == 0,
        }
    }

    /// Whether the input, taking `count` bytes, has to be given up.
    pub open spec fn gives_up(self, count: nat) -> bool {
        count == 0 && self.refused
    }

    /// The progress after the input was offered what was left, once for each
    /// item of `counts`, and took that many bytes each time.
    pub open spec fn after_all(self, counts: Seq<nat>) -> WriteProgressView
        decreases counts.len(),
    {
        if counts.len() == 0 {
            self
        } else {
            self.after_all(counts.drop_last()).after(counts.last())
        }
    }
}

/// The sum of a list of numbers.
pub open spec fn total(counts: Seq<nat>) -> nat
    decreases counts.len(),
{
    if counts.len() == 0 {
        0
    } else {
        total(counts.drop_last()) + counts.last()
    }
}

/// How far a command has been written to the player's input.
pub struct WriteProgress {
    written: usize,
    length: usize,
    refused: bool,
}

impl View for WriteProgress {
    type V = WriteProgressView;

    closed spec fn view(&self) -> WriteProgressView {
        WriteProgressView {
            written: self.written as nat,
            length: self.length as nat,
            refused: self.refused,
        }
    }
}

impl WriteProgress {
    /// The start of writing a command of `length` bytes.
    pub fn new(length: usize) -> (progress: WriteProgress)
        ensures
            progress@ == (WriteProgressView { written: 0, length: length as nat, refused: false }),
            progress@.well_formed(),
    {
        WriteProgress { written: 0, length, refused: false }
    }

    /// Where in the command the bytes begin that are still to be written, or
    /// nothing once all are written: it is time to flush then.
    pub fn pending(&self) -> (from: Option<usize>)
        ensures
            from is Some <==> self@.written < self@.length,
            from matches Some(offset) ==> offset == self@.written,
    {
        if self.written < self.length {
            Some(self.written)
        } else {
            None
        }
    }

    /// Takes note that the input has taken `count` of the bytes it was offered.
    /// Fails where it took none for the second time in a row.
    pub fn accepted(&mut self, count: usize) -> (outcome: Result<(), WriteError>)
        requires
            old(self)@.well_formed(),
            old(self)@.written + count <= old(self)@.length,
        ensures
            outcome is Err <==> old(self)@.gives_up(count as nat),
            outcome is Err ==> final(self)@ == old(self)@,
            outcome is Ok ==> final(self)@ == old(self)@.after(count as nat),
            final(self)@.well_formed(),
    {
        if count == 0 {
            if self.refused {
                return Err(WriteError::Refused);
            }
            self.refused = true;
        } else {
            self.written = self.written + count;
            self.refused = false;
        }
        Ok(())
    }
}

/// What has been written is the sum of what the input took each time.
pub proof fn lemma_written_is_total(progress: WriteProgressView, counts: Seq<nat>)
    ensures
        progress.after_all(counts).written == progress.written + total(counts),
        progress.after_all(counts).length == progress.length,
    decreases counts.len(),
{
    if counts.len() > 0 {
        lemma_written_is_total(progress, counts.drop_last());
    }
}

/// The bytes of `message` that the input has got, when it was offered each time
/// what was left of `message` and took as many bytes as `counts` tells.
pub open spec fn delivered(message: Seq<u8>, counts: Seq<nat>) -> Seq<u8>
    decreases counts.len(),
{
    if counts.len() == 0 {
        Seq::empty()
    } else {
        let before = delivered(message, counts.drop_last());
        before + message.subrange(before.len() as int, (before.len() + counts.last()) as int)
    }
}

/// What the input has got is the command as far as it is written, byte for byte
/// and in order; so once nothing is pending, the input has got the whole
/// command, and nothing else.
pub proof fn lemma_delivered_in_order(message: Seq<u8>, counts: Seq<nat>)
    requires
        total(counts) <= message.len(),
    ensures
        delivered(message, counts) == message.subrange(0, total(counts) as int),
        total(counts) == message.len() ==> delivered(message, counts) == message,
    decreases counts.len(),
{
    if counts.len() > 0 {
        lemma_delivered_in_order(message, counts.drop_last());
        assert(delivered(message, counts) =~= message.subrange(0, total(counts) as int));
    } else {
        assert(delivered(message, counts) =~= message.subrange(0, 0));
    }
    if total(counts) == message.len() {
        assert(message.subrange(0, message.len() as int) =~= message);
    }
}

/// The commands of a list, one after the other.
pub open spec fn in_a_row(messages: Seq<Seq<u8>>) -> Seq<u8>
    decreases messages.len(),
{
    if messages.len() == 0 {
        Seq::empty()
    } else {
        in_a_row(messages.drop_last()) + messages.last()
    }
}

/// What the input has got of a list of commands that were written one at a
/// time, each to its end before the next was begun, when it took of command `i`
/// as many bytes at a time as `counts[i]` tells.
pub open spec fn delivered_in_turn(messages: Seq<Seq<u8>>, counts: Seq<Seq<nat>>) -> Seq<u8>
    decreases messages.len(),
{
    if messages.len() == 0 {
        Seq::empty()
    } else {
        delivered_in_turn(messages.drop_last(), counts.drop_last()) + delivered(
            messages.last(),
            counts.last(),
        )
    }
}

/// Commands that are written one at a time, each to its end, reach the input
/// whole, one after the other and in the order in which they were written,
/// however the input takes their bytes.
pub proof fn lemma_commands_in_order(messages: Seq<Seq<u8>>, counts: Seq<Seq<nat>>)
    requires
        counts.len() == messages.len(),
        forall|i: int|
            0 <= i < messages.len() ==> total(#[trigger] counts[i]) == messages[i].len(),
    ensures
        delivered_in_turn(messages, counts) == in_a_row(messages),
    decreases messages.len(),
{
    if messages.len() > 0 {
        let last = messages.len() - 1;
        assert(total(counts[last]) == messages[last].len());
        lemma_delivered_in_order(messages.last(), counts.last());
        assert forall|i: int| 0 <= i < messages.drop_last().len() implies total(
            #[trigger] counts.drop_last()[i],
        ) == messages.drop_last()[i].len() by {
            assert(counts.drop_last()[i] == counts[i]);
            assert(messages.drop_last()[i] == messages[i]);
        }
        lemma_commands_in_order(messages.drop_last(), counts.drop_last());
    }
}

} // verus!
