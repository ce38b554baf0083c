//! The pieces of a FEN record: its fields and its numbers.
//!
//! A record is read as bytes. Its fields are separated by single spaces;
//! two spaces in a row enclose an empty field.

use vstd::prelude::*;
use vstd::slice::slice_index_get;

verus! {

/// The byte of a space.
pub const SPACE: u8 = 32;

/// The fields of the first `n` bytes of a record.
pub open spec fn fields_upto(record: Seq<u8>, n: int) -> Seq<Seq<u8>>
    decreases n,
{
    if n <= 0 {
        seq![Seq::<u8>::empty()]
    } else {
        let before = fields_upto(record, n - 1);
        if record[n - 1] == SPACE {
            before.push(Seq::<u8>::empty())
        } else {
            before.update(before.len() - 1, before.last().push(record[n - 1]))
        }
    }
}

/// The fields of a record: the stretches of bytes between its spaces.
pub open spec fn fields_of(record: Seq<u8>) -> Seq<Seq<u8>> {
    fields_upto(record, record.len() as int)
}

/// The views of a list of byte strings.
pub open spec fn views_of(fields: Seq<Vec<u8>>) -> Seq<Seq<u8>> {
    Seq::new(fields.len(), |i: int| fields[i]@)
}

/// Splits a record into its fields.
pub fn split_fields(record: &[u8]) -> (fields: Vec<Vec<u8>>)
    ensures
        views_of(fields@) == fields_of(record@),
{
    let mut fields: Vec<Vec<u8>> = Vec::new();
    let mut current: Vec<u8> = Vec::new();
    let mut i: usize = 0;
    while i < record.len()
        invariant
            i <= record.len(),
            views_of(fields@).push(current@) == fields_upto(record@, i as int),
        decreases record.len() - i,
    {
        let byte = *slice_index_get(record, i);
        let ghost before = fields_upto(record@, i as int);
        let ghost done = views_of(fields@);
        let ghost open = current@;
        if byte == SPACE {
            fields.push(current);
            current = Vec::new();
            proof {
                assert(views_of(fields@) == done.push(open));
            }
        } else {
            current.push(byte);
            proof {
                assert(done.push(current@) == before.update(
                    before.len() - 1,
                    before.last().push(byte),
                ));
            }
        }
        i = i + 1;
    }
    let ghost done = views_of(fields@);
    let ghost open = current@;
    fields.push(current);
    proof {
        assert(views_of(fields@) == done.push(open));
    }
    fields
}

/// Whether a byte is a decimal digit.
pub open spec fn is_digit(byte: u8) -> bool {
    48 <= byte <= 57
}

/// The number that the first `n` bytes of `digits` spell, if all of them
/// are digits.
pub open spec fn decimal_upto(digits: Seq<u8>, n: int) -> int
    decreases n,
{
    if n <= 0 {
        0
    } else {
        decimal_upto(digits, n - 1) * 10 + (digits[n - 1] - 48)
    }
}

/// A field without its leading plus sign, if it has one.
pub open spec fn unsigned_part(field: Seq<u8>) -> Seq<u8> {
    if field.len() > 0 && field[0] == 43 {
        field.subrange(1, field.len() as int)
    } else {
        field
    }
}

/// Every byte is a decimal digit.
pub open spec fn all_digits(digits: Seq<u8>) -> bool {
    forall|i: int| 0 <= i < digits.len() ==> is_digit(#[trigger] digits[i])
}

/// The clock value that a field spells: one or more decimal digits, after
/// an optional plus sign, with a value of at most 65535.
pub open spec fn clock_of(field: Seq<u8>) -> Option<u16> {
    let digits = unsigned_part(field);
    if digits.len() > 0 && all_digits(digits) && decimal_upto(digits, digits.len() as int)
        <= 65535 {
        Some(decimal_upto(digits, digits.len() as int) as u16)
    } else {
        None
    }
}

/// The number spelled by digits does not shrink when digits follow.
proof fn lemma_decimal_grows(digits: Seq<u8>, m: int, n: int)
    requires
        0 <= m <= n <= digits.len(),
        all_digits(digits),
    ensures
        0 <= decimal_upto(digits, m) <= decimal_upto(digits, n),
    decreases n,
{
    if n > 0 {
        assert(is_digit(digits[n - 1]));
        if m < n {
            lemma_decimal_grows(digits, m, n - 1);
        } else {
            lemma_decimal_grows(digits, m - 1, n - 1);
        }
    }
}

/// Reads a move clock.
pub fn parse_clock(field: &[u8]) -> (clock: Option<u16>)
    ensures
        clock == clock_of(field@),
{
    let start: usize = if field.len() > 0 && *slice_index_get(field, 0) == 43 {
        1
    } else {
        0
    };
    let ghost digits = unsigned_part(field@);
    if start == field.len() {
        return None;
    }
    let mut value: u32 = 0;
    let mut i: usize = start;
    while i < field.len()
        invariant
            start <= i <= field.len(),
            start <= 1,
            digits == unsigned_part(field@),
            digits.len() == field.len() - start,
            forall|k: int| 0 <= k < digits.len() ==> digits[k] == field[k + start],
            forall|k: int| 0 <= k < i - start ==> is_digit(#[trigger] digits[k]),
            value == decimal_upto(digits, i - start),
            value <= 65535,
        decreases field.len() - i,
    {
        let byte = *slice_index_get(field, i);
        if byte < 48 || byte > 57 {
            proof {
                assert(!is_digit(digits[i - start]));
            }
            return None;
        }
        let next = value * 10 + (byte - 48) as u32;
        if next > 65535 {
            proof {
                if all_digits(digits) {
                    lemma_decimal_grows(digits, i - start + 1, digits.len() as int);
                }
            }
            return None;
        }
        value = next;
        i = i + 1;
    }
    Some(value as u16)
}

} // verus!
