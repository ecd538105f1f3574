//! What the player hands to its event command: the state of the player, a line
//! for each entry, the key and the value with `=` between them. The stations
//! come as entries of their own, `station0`, `station1` and so on.

use crate::text::{append_decimal, decimal_text};
use vstd::prelude::*;
use vstd::string::*;

verus! {

/// Parts a line at its first `=` into key and value. A line without `=` is no
/// entry.
pub fn split_assignment(line: &str) -> (parts: Option<(String, String)>)
    ensures
        match parts {
            Some((key, value)) => line@ == key@ + seq!['='] + value@ && !key@.contains('='),
            None => !line@.contains('='),
        },
{
    let length = line.unicode_len();
    let mut i: usize = 0;
    while i < length
        invariant
            i <= length,
            length == line@.len(),
            forall|k: int| 0 <= k < i ==> line@[k] != '=',
        decreases length - i,
    {
        if line.get_char(i) == '=' {
            let key = String::from_str(line.substring_char(0, i));
            let value = String::from_str(line.substring_char(i + 1, length));
            assert(line@ =~= key@ + seq!['='] + value@);
            return Some((key, value));
        }
        i += 1;
    }
    None
}

/// The key under which the station with this index is handed over.
pub fn station_key(index: usize) -> (key: String)
    ensures
        key@ == "station"@ + decimal_text(index as nat),
{
    let mut key = String::from_str("station");
    append_decimal(&mut key, index);
    key
}

} // verus!
