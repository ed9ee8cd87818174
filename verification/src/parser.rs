//! Executable record parser: finds the delimiter, reads the fixed-point
//! reading, and checks the terminator, exactly as the grammar model demands.
//! Malformed input is a fatal error, never a silently wrong number.

use vstd::prelude::*;

use crate::records::{
    DIGIT_ZERO, DOT, MAX_ABS_TENTHS, MINUS, NEWLINE, SEMICOLON,
    is_digit, key_end, lemma_key_end_bounds, lemma_num_rest_lower, magnitude_at, num_rest,
    reading_at, rec_at,
};

verus! {

/// A record violates the input format: missing delimiter, bad numeric
/// field, missing terminator, or a reading outside the fixed-point range.
#[derive(Clone, Copy, Debug, PartialEq, Eq)]
pub enum ParseError {
    MalformedRecord,
}

/// Executable digit test.
pub fn is_digit_byte(b: u8) -> (r: bool)
    ensures
        r == is_digit(b),
{
    DIGIT_ZERO <= b && b <= DIGIT_ZERO + 9
}

/// Scans forward from `start` for the `;` that ends a key, refusing a
/// newline or the end of the buffer before it.
pub fn find_delim(input: &[u8], start: usize) -> (r: Option<usize>)
    ensures
        match r {
            Some(j) => key_end(input@, start as int) == Some(j as int),
            None => key_end(input@, start as int) is None,
        },
{
    let len = input.len();
    let mut i = start;
    while i < len
        invariant
            start <= i,
            len == input@.len(),
            key_end(input@, start as int) == key_end(input@, i as int),
        decreases len - i,
    {
        let byte = input[i];
        if byte == SEMICOLON {
            return Some(i);
        }
        if byte == NEWLINE {
            return None;
        }
        i = i + 1;
    }
    None
}

/// Parses a signed fixed-point reading `-?\d+\.\d` at `*ptr` into tenths,
/// leaving `*ptr` on the byte after the fractional digit. Fails exactly
/// when no such reading starts there or its value does not fit the
/// fixed-point range.
pub fn parse_i16(input: &[u8], ptr: &mut usize) -> (r: Result<i16, ParseError>)
    ensures
        match r {
            Ok(v) => {
                &&& reading_at(input@, *old(ptr) as int) is Some
                &&& v as int == reading_at(input@, *old(ptr) as int)->Some_0.0
                &&& *final(ptr) == reading_at(input@, *old(ptr) as int)->Some_0.1
                &&& -(MAX_ABS_TENTHS as int) <= v as int <= MAX_ABS_TENTHS as int
            },
            Err(_) => reading_at(input@, *old(ptr) as int) is Some
                ==> !(-(MAX_ABS_TENTHS as int) <= reading_at(input@, *old(ptr) as int)->Some_0.0
                    <= MAX_ABS_TENTHS as int),
        },
{
    let ghost b = input@;
    let ghost start = *ptr as int;
    let len = input.len();
    let mut i: usize = *ptr;
    if i >= len {
        return Err(ParseError::MalformedRecord);
    }
    let negative = input[i] == MINUS;
    if negative {
        i = i + 1;
    }
    let ghost dstart = i as int;
    if i >= len {
        return Err(ParseError::MalformedRecord);
    }
    let first = input[i];
    if !is_digit_byte(first) {
        return Err(ParseError::MalformedRecord);
    }
    let mut acc: u32 = (first - DIGIT_ZERO) as u32;
    i = i + 1;
    while i < len
        invariant
            b == input@,
            len == b.len(),
            start == *old(ptr) as int,
            *ptr == *old(ptr),
            dstart < i <= len,
            0 <= acc <= MAX_ABS_TENTHS as u32,
            magnitude_at(b, dstart) == num_rest(b, i as int, acc as int),
            dstart == if negative { start + 1 } else { start },
            negative ==> 0 <= start < b.len() && b[start] == MINUS,
            !negative ==> !(0 <= start && start < b.len() && b[start] == MINUS),
        decreases len - i,
    {
        let byte = input[i];
        if byte == DOT {
            if i + 1 < len && is_digit_byte(input[i + 1]) {
                let v: u32 = acc * 10 + (input[i + 1] - DIGIT_ZERO) as u32;
                if v <= MAX_ABS_TENTHS as u32 {
                    *ptr = i + 2;
                    let r: i16 = if negative {
                        -(v as i16)
                    } else {
                        v as i16
                    };
                    return Ok(r);
                } else {
                    return Err(ParseError::MalformedRecord);
                }
            } else {
                return Err(ParseError::MalformedRecord);
            }
        } else if is_digit_byte(byte) {
            proof {
                assert(num_rest(b, i as int, acc as int)
                    == num_rest(b, i + 1, acc * 10 + (byte - DIGIT_ZERO)));
            }
            acc = acc * 10 + (byte - DIGIT_ZERO) as u32;
            i = i + 1;
            if acc > MAX_ABS_TENTHS as u32 {
                proof {
                    if num_rest(b, i as int, acc as int) is Some {
                        lemma_num_rest_lower(b, i as int, acc as int);
                    }
                }
                return Err(ParseError::MalformedRecord);
            }
        } else {
            return Err(ParseError::MalformedRecord);
        }
    }
    Err(ParseError::MalformedRecord)
}

/// Parses one full record starting at `head`: returns the delimiter index
/// (the key is `input[head..j]`), the reading in tenths, and the index of
/// the first byte of the next record. Fails exactly when no well-formed,
/// in-range record starts at `head`.
pub fn parse_record(input: &[u8], head: usize) -> (r: Result<(usize, i16, usize), ParseError>)
    ensures
        match r {
            Ok((j, v, n)) => {
                &&& rec_at(input@, head as int) == Some(
                    (input@.subrange(head as int, j as int), v as int, n as int))
                &&& head < j < input@.len() && head < n <= input@.len()
                &&& -(MAX_ABS_TENTHS as int) <= v as int <= MAX_ABS_TENTHS as int
            },
            Err(_) => rec_at(input@, head as int) is None,
        },
{
    let ghost b = input@;
    let len = input.len();
    match find_delim(input, head) {
        None => Err(ParseError::MalformedRecord),
        Some(j) => {
            proof {
                lemma_key_end_bounds(b, head as int);
            }
            assert(j < len);
            if j == head {
                return Err(ParseError::MalformedRecord);
            }
            let mut ptr: usize = j + 1;
            match parse_i16(input, &mut ptr) {
                Err(e) => Err(e),
                Ok(v) => {
                    if ptr < len && input[ptr] == NEWLINE {
                        proof {
                            assert(reading_at(b, j + 1) == Some((v as int, ptr as int)));
                            assert(rec_at(b, head as int) == Some(
                                (b.subrange(head as int, j as int), v as int, ptr + 1)));
                            crate::records::lemma_rec_at_bounds(b, head as int);
                        }
                        Ok((j, v, ptr + 1))
                    } else {
                        Err(ParseError::MalformedRecord)
                    }
                },
            }
        },
    }
}

} // verus!
