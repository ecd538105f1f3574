//! The argument of a `TIME` message: `-<m>:<s>/<M>:<S>`, the time that is left of
//! a song over the song's length, the minus sign being optional.

use vstd::prelude::*;
use vstd::slice::*;

verus! {

/// An ASCII decimal digit.
pub open spec fn is_digit(byte: u8) -> bool {
    0x30 <= byte && byte <= 0x39
}

/// Every byte of `text` is a decimal digit.
pub open spec fn all_digits(text: Seq<u8>) -> bool {
    forall|i: int| 0 <= i < text.len() ==> is_digit(#[trigger] text[i])
}

/// The number of consecutive digits that `text` holds from position `from` on.
pub open spec fn digit_run(text: Seq<u8>, from: int) -> nat
    decreases text.len() - from,
{
    if 0 <= from < text.len() && is_digit(text[from]) {
        1 + digit_run(text, from + 1)
    } else {
        0
    }
}

/// The number that a string of decimal digits stands for.
pub open spec fn decimal_value(digits: Seq<u8>) -> nat
    decreases digits.len(),
{
    if digits.len() == 0 {
        0
    } else {
        10 * decimal_value(digits.drop_last()) + (digits.last() - 0x30) as nat
    }
}

/// The four numbers of a time text, as they are written.
pub struct TimeText {
    pub negative: bool,
    pub remaining_minutes: Seq<u8>,
    pub remaining_seconds: Seq<u8>,
    pub total_minutes: Seq<u8>,
    pub total_seconds: Seq<u8>,
}

impl TimeText {
    /// Each of the four numbers is a non-empty string of digits.
    pub open spec fn well_formed(self) -> bool {
        &&& self.remaining_minutes.len() > 0 && all_digits(self.remaining_minutes)
        &&& self.remaining_seconds.len() > 0 && all_digits(self.remaining_seconds)
        &&& self.total_minutes.len() > 0 && all_digits(self.total_minutes)
        &&& self.total_seconds.len() > 0 && all_digits(self.total_seconds)
    }

    /// The text as the player writes it.
    pub open spec fn bytes(self) -> Seq<u8> {
        (if self.negative {
            seq![0x2du8]
        } else {
            Seq::<u8>::empty()
        }) + self.remaining_minutes + seq![0x3au8] + self.remaining_seconds + seq![0x2fu8]
            + self.total_minutes + seq![0x3au8] + self.total_seconds
    }

    /// Seconds that are left of the song.
    pub open spec fn remaining(self) -> nat {
        decimal_value(self.remaining_minutes) * 60 + decimal_value(self.remaining_seconds)
    }

    /// Length of the song in seconds.
    pub open spec fn total(self) -> nat {
        decimal_value(self.total_minutes) * 60 + decimal_value(self.total_seconds)
    }
}

/// Why a time argument was not accepted.
#[derive(Clone, Copy, Debug, PartialEq, Eq)]
pub enum TimeError {
    /// The argument is not of the form `-<m>:<s>/<M>:<S>`.
    Format,
    /// The time left or the song's length does not fit in 32 bits.
    Overflow,
    /// More time is left than the song is long.
    LeftExceedsTotal,
}

/// Reads `arg` from left to right as a time text.
pub open spec fn read_time_text(arg: Seq<u8>) -> Option<TimeText> {
    let negative = arg.len() > 0 && arg[0] == 0x2d;
    let a: int = if negative {
        1
    } else {
        0
    };
    let b = a + digit_run(arg, a);
    let c = b + 1 + digit_run(arg, b + 1);
    let d = c + 1 + digit_run(arg, c + 1);
    let e = d + 1 + digit_run(arg, d + 1);
    if a < b && b < arg.len() && arg[b] == 0x3a && b + 1 < c && c < arg.len() && arg[c] == 0x2f
        && c + 1 < d && d < arg.len() && arg[d] == 0x3a && d + 1 < e && e == arg.len() {
        Some(
            TimeText {
                negative,
                remaining_minutes: arg.subrange(a, b),
                remaining_seconds: arg.subrange(b + 1, c),
                total_minutes: arg.subrange(c + 1, d),
                total_seconds: arg.subrange(d + 1, e),
            },
        )
    } else {
        None
    }
}

/// What a time text says of the song: seconds played and seconds in all.
pub open spec fn time_of(text: TimeText) -> Result<(u32, u32), TimeError> {
    if text.remaining() > u32::MAX || text.total() > u32::MAX {
        Err(TimeError::Overflow)
    } else if text.remaining() > text.total() {
        Err(TimeError::LeftExceedsTotal)
    } else {
        Ok(((text.total() - text.remaining()) as u32, text.total() as u32))
    }
}

/// What the argument of a `TIME` message says of the song: seconds played and
/// seconds in all, or why the argument is not accepted.
pub open spec fn song_time(arg: Seq<u8>) -> Result<(u32, u32), TimeError> {
    match read_time_text(arg) {
        Some(text) => time_of(text),
        None => Err(TimeError::Format),
    }
}

/// The digits counted by `digit_run` are digits, lie inside the text, and are
/// followed by the end of the text or by something else than a digit.
pub proof fn lemma_digit_run(text: Seq<u8>, from: int)
    requires
        0 <= from <= text.len(),
    ensures
        from + digit_run(text, from) <= text.len(),
        all_digits(text.subrange(from, from + digit_run(text, from))),
        from + digit_run(text, from) < text.len() ==> !is_digit(
            text[from + digit_run(text, from)],
        ),
    decreases text.len() - from,
{
    if from < text.len() && is_digit(text[from]) {
        lemma_digit_run(text, from + 1);
        let n = digit_run(text, from);
        let run = text.subrange(from, from + n);
        assert forall|i: int| 0 <= i < run.len() implies is_digit(#[trigger] run[i]) by {
            if i > 0 {
                assert(run[i] == text.subrange(from + 1, from + n)[i - 1]);
            }
        }
    }
}

/// A string of digits that ends where the text ends, or where something else
/// than a digit follows, is counted in full.
pub proof fn lemma_digit_run_of(text: Seq<u8>, from: int, count: nat)
    requires
        0 <= from,
        from + count <= text.len(),
        all_digits(text.subrange(from, from + count)),
        from + count < text.len() ==> !is_digit(text[from + count]),
    ensures
        digit_run(text, from) == count,
    decreases count,
{
    if count > 0 {
        let run = text.subrange(from, from + count);
        assert(is_digit(run[0]));
        assert forall|i: int| 0 <= i < count - 1 implies is_digit(
            #[trigger] text.subrange(from + 1, from + count)[i],
        ) by {
            assert(text.subrange(from + 1, from + count)[i] == run[i + 1]);
        }
        lemma_digit_run_of(text, from + 1, (count - 1) as nat);
    }
}

/// Whatever `read_time_text` accepts is a well-formed time text, and is read as
/// it is written.
pub proof fn lemma_read_time_text_sound(arg: Seq<u8>)
    requires
        read_time_text(arg) is Some,
    ensures
        read_time_text(arg).unwrap().well_formed(),
        read_time_text(arg).unwrap().bytes() == arg,
{
    let text = read_time_text(arg).unwrap();
    let a: int = if text.negative {
        1
    } else {
        0
    };
    lemma_digit_run(arg, a);
    let b = a + digit_run(arg, a);
    lemma_digit_run(arg, b + 1);
    let c = b + 1 + digit_run(arg, b + 1);
    lemma_digit_run(arg, c + 1);
    let d = c + 1 + digit_run(arg, c + 1);
    lemma_digit_run(arg, d + 1);
    assert(text.bytes() =~= arg);
}

/// Every well-formed time text is accepted by `read_time_text`, with the four
/// numbers it was written with.
pub proof fn lemma_read_time_text_complete(text: TimeText)
    requires
        text.well_formed(),
    ensures
        read_time_text(text.bytes()) == Some(text),
{
    let arg = text.bytes();
    let a: int = if text.negative {
        1
    } else {
        0
    };
    assert(is_digit(text.remaining_minutes[0]));
    assert(arg[a] == text.remaining_minutes[0]);
    let b = a + text.remaining_minutes.len();
    let c = b + 1 + text.remaining_seconds.len();
    let d = c + 1 + text.total_minutes.len();
    let e = d + 1 + text.total_seconds.len();
    assert(arg.subrange(a, b) =~= text.remaining_minutes);
    assert(arg.subrange(b + 1, c) =~= text.remaining_seconds);
    assert(arg.subrange(c + 1, d) =~= text.total_minutes);
    assert(arg.subrange(d + 1, e) =~= text.total_seconds);
    assert(arg[b] == 0x3a && arg[c] == 0x2f && arg[d] == 0x3a);
    assert(e == arg.len());
    lemma_digit_run_of(arg, a, text.remaining_minutes.len());
    lemma_digit_run_of(arg, b + 1, text.remaining_seconds.len());
    lemma_digit_run_of(arg, c + 1, text.total_minutes.len());
    lemma_digit_run_of(arg, d + 1, text.total_seconds.len());
    assert(arg.len() > 0 && (arg[0] == 0x2d) == text.negative);
    assert(read_time_text(arg).unwrap() =~= text);
}

/// A well-formed time text whose length fits in 32 bits and which leaves no more
/// than that length is decoded to the time played, the length minus what is left,
/// and the length; one that leaves more than the length is refused.
pub proof fn lemma_song_time_of_text(text: TimeText)
    requires
        text.well_formed(),
        text.total() <= u32::MAX,
    ensures
        text.remaining() <= text.total() ==> song_time(text.bytes()) == Ok::<
            (u32, u32),
            TimeError,
        >(((text.total() - text.remaining()) as u32, text.total() as u32)),
        text.remaining() > text.total() ==> song_time(text.bytes()) is Err,
{
    lemma_read_time_text_complete(text);
}

/// Reads the digits that `text` holds from `from` on. Returns where they end, and
/// the number they stand for if it fits in 32 bits.
fn scan_number(text: &[u8], from: usize) -> (r: (usize, Option<u32>))
    requires
        from <= text@.len(),
    ensures
        r.0 == from + digit_run(text@, from as int),
        r.0 <= text@.len(),
        r.1 is Some <==> decimal_value(text@.subrange(from as int, r.0 as int)) <= u32::MAX,
        r.1 matches Some(n) ==> n == decimal_value(text@.subrange(from as int, r.0 as int)),
{
    let len = text.len();
    let mut end: usize = from;
    let mut value: u64 = 0;
    let mut fits: bool = true;
    proof {
        lemma_digit_run(text@, from as int);
        assert(text@.subrange(from as int, from as int) =~= Seq::<u8>::empty());
    }
    while end < len && 0x30 <= text[end] && text[end] <= 0x39
        invariant
            from <= end <= len,
            len == text@.len(),
            end + digit_run(text@, end as int) == from + digit_run(text@, from as int),
            all_digits(text@.subrange(from as int, end as int)),
            fits ==> value == decimal_value(text@.subrange(from as int, end as int)) && value
                <= u32::MAX,
            !fits ==> decimal_value(text@.subrange(from as int, end as int)) > u32::MAX,
        decreases len - end,
    {
        let digit: u64 = (text[end] - 0x30) as u64;
        proof {
            let longer = text@.subrange(from as int, end + 1);
            assert(longer.drop_last() =~= text@.subrange(from as int, end as int));
            assert(longer.last() == text@[end as int]);
            assert forall|i: int| 0 <= i < longer.len() implies is_digit(#[trigger] longer[i]) by {
                if i < longer.len() - 1 {
                    assert(longer[i] == text@.subrange(from as int, end as int)[i]);
                }
            }
        }
        if fits {
            value = value * 10 + digit;
            if value > 0xffff_ffff {
                fits = false;
            }
        }
        end += 1;
    }
    if fits {
        (end, Some(value as u32))
    } else {
        (end, None)
    }
}

/// Decodes the argument of a `TIME` message: the seconds played and the song's
/// length in seconds.
pub fn parse_song_time(arg: &[u8]) -> (r: Result<(u32, u32), TimeError>)
    ensures
        r == song_time(arg@),
{
    let len = arg.len();
    let a: usize = if len > 0 && arg[0] == 0x2d {
        1
    } else {
        0
    };
    let (b, left_minutes) = scan_number(arg, a);
    if !(a < b && b < len && arg[b] == 0x3a) {
        return Err(TimeError::Format);
    }
    let (c, left_seconds) = scan_number(arg, b + 1);
    if !(b + 1 < c && c < len && arg[c] == 0x2f) {
        return Err(TimeError::Format);
    }
    let (d, total_minutes) = scan_number(arg, c + 1);
    if !(c + 1 < d && d < len && arg[d] == 0x3a) {
        return Err(TimeError::Format);
    }
    let (e, total_seconds) = scan_number(arg, d + 1);
    if !(d + 1 < e && e == len) {
        return Err(TimeError::Format);
    }
    let ghost text = read_time_text(arg@).unwrap();
    match (left_minutes, left_seconds, total_minutes, total_seconds) {
        (Some(lm), Some(ls), Some(tm), Some(ts)) => {
            let left: u64 = lm as u64 * 60 + ls as u64;
            let total: u64 = tm as u64 * 60 + ts as u64;
            if left > 0xffff_ffff || total > 0xffff_ffff {
                Err(TimeError::Overflow)
            } else if left > total {
                Err(TimeError::LeftExceedsTotal)
            } else {
                Ok(((total - left) as u32, total as u32))
            }
        },
        _ => Err(TimeError::Overflow),
    }
}

} // verus!
