//! The format itself, as mathematics: what each production reads from the
//! front of an input, and what each value is written as.

use crate::decimal::{decimal, digit_run, digits_value, int_text, is_digit, MINUS};
use crate::dictionary::dict_from_pairs;
use crate::value::{Entries, Value};
use vstd::prelude::*;

verus! {

/// `:`, which parts the length of a byte string from its bytes.
pub const COLON: u8 = 58;

/// `i`, which opens an integer.
pub const INT_MARK: u8 = 105;

/// `l`, which opens a list.
pub const LIST_MARK: u8 = 108;

/// `d`, which opens a dictionary.
pub const DICT_MARK: u8 = 100;

/// `e`, which closes an integer, a list or a dictionary.
pub const END_MARK: u8 = 101;

/// How many containers, lists and dictionaries, a document may hold inside
/// one another. A document that goes deeper is refused, so that what an input
/// can make the decoder do is bounded.
pub const MAX_DEPTH: usize = 128;

/// Why an input is no document.
#[derive(Debug, Clone, Copy, PartialEq, Eq, Structural)]
pub enum ParseErr {
    /// A byte stands where the format asks for a certain byte or for a digit.
    SyntaxError,
    /// The input ends where the format asks for more.
    DataException,
    /// An integer is well written and does not fit 32 bits.
    ParseFailure,
    /// A value starts with a byte that opens none of the four kinds.
    UnsupportedByte,
    /// Containers stand inside one another deeper than the limit.
    TooDeep,
}

/// Why a value cannot be written.
#[derive(Debug, Clone, Copy, PartialEq, Eq, Structural)]
pub enum EncodeErr {
    /// A dictionary inside the value does not hold its keys in strictly
    /// ascending order.
    InvariantViolation,
}

/// What a production reads: the thing read and the number of bytes it took.
pub type Parsed<T> = Result<(T, nat), ParseErr>;

/// The bytes of a byte string at the front of `s`: a run of digits, `:`, and
/// as many bytes as the digits say. Leading zeros in the length are accepted.
///
/// It is `DataException` where the input ends before the `:` or holds fewer
/// bytes behind it than the digits say, and `SyntaxError` where another byte
/// than `:` follows the digits or no digit stands before the `:`.
pub open spec fn read_string(s: Seq<u8>) -> Parsed<Seq<u8>> {
    let k = digit_run(s) as int;
    if k >= s.len() {
        Err(ParseErr::DataException)
    } else if s[k] != COLON {
        Err(ParseErr::SyntaxError)
    } else if k == 0 {
        Err(ParseErr::SyntaxError)
    } else {
        let n = digits_value(s.take(k)) as int;
        if k + 1 + n > s.len() {
            Err(ParseErr::DataException)
        } else {
            Ok((s.subrange(k + 1, k + 1 + n), (k + 1 + n) as nat))
        }
    }
}

/// The number of an integer at the front of `s`: `i`, an optional `-`, a run
/// of digits, `e`. Zero is written `0` and in no other way; leading zeros of
/// another number are accepted.
///
/// It is `DataException` where the input ends before the `e`, `SyntaxError`
/// where the first byte is not `i`, where another byte than `e` follows the
/// digits, where there is no digit, or where zero is written with a sign or
/// with more than one digit, and `ParseFailure` where the number is well
/// written and does not fit 32 bits.
pub open spec fn read_number(s: Seq<u8>) -> Parsed<int> {
    if s.len() == 0 {
        Err(ParseErr::DataException)
    } else if s[0] != INT_MARK {
        Err(ParseErr::SyntaxError)
    } else {
        let negative = s.len() > 1 && s[1] == MINUS;
        let start: int = if negative {
            2
        } else {
            1
        };
        let k = digit_run(s.skip(start)) as int;
        let end = start + k;
        if end >= s.len() {
            Err(ParseErr::DataException)
        } else if s[end] != END_MARK {
            Err(ParseErr::SyntaxError)
        } else if k == 0 {
            Err(ParseErr::SyntaxError)
        } else {
            let m = digits_value(s.subrange(start, end)) as int;
            if m == 0 && (negative || k != 1) {
                Err(ParseErr::SyntaxError)
            } else if negative && m > 0x8000_0000 {
                Err(ParseErr::ParseFailure)
            } else if !negative && m > 0x7fff_ffff {
                Err(ParseErr::ParseFailure)
            } else {
                Ok(
                    (
                        if negative {
                            -m
                        } else {
                            m
                        },
                        (end + 1) as nat,
                    ),
                )
            }
        }
    }
}

/// A byte string at the front of `s`.
pub open spec fn decode_string(s: Seq<u8>) -> Parsed<Value> {
    match read_string(s) {
        Ok((b, n)) => Ok((Value::Bytes(b), n)),
        Err(e) => Err(e),
    }
}

/// An integer at the front of `s`.
pub open spec fn decode_number(s: Seq<u8>) -> Parsed<Value> {
    match read_number(s) {
        Ok((i, n)) => Ok((Value::Int(i), n)),
        Err(e) => Err(e),
    }
}

/// A list at the front of `s`: `l`, the elements, `e`. `depth` says how many
/// containers may still be opened, this one included; where it is 0 the list
/// is `TooDeep`.
pub open spec fn decode_list(s: Seq<u8>, depth: nat) -> Parsed<Value>
    decreases s.len(), 0nat,
{
    if s.len() == 0 {
        Err(ParseErr::DataException)
    } else if s[0] != LIST_MARK {
        Err(ParseErr::SyntaxError)
    } else if depth == 0 {
        Err(ParseErr::TooDeep)
    } else {
        match decode_items(s.skip(1), (depth - 1) as nat) {
            Ok((items, n)) => Ok((Value::List(items), n + 1)),
            Err(e) => Err(e),
        }
    }
}

/// The elements of a list up to and with the closing `e`. The first element
/// that fails makes the list fail in the same way, and it is `DataException`
/// where the input ends before the `e`.
pub open spec fn decode_items(s: Seq<u8>, depth: nat) -> Parsed<Seq<Value>>
    decreases s.len(), 2nat,
{
    if s.len() == 0 {
        Err(ParseErr::DataException)
    } else if s[0] == END_MARK {
        Ok((Seq::empty(), 1))
    } else {
        match decode_value(s, depth) {
            Err(e) => Err(e),
            Ok((v, n)) => if 0 < n <= s.len() {
                match decode_items(s.skip(n as int), depth) {
                    Err(e) => Err(e),
                    Ok((rest, m)) => Ok((seq![v] + rest, n + m)),
                }
            } else {
                // never so: what is read takes at least one byte and no more than there are
                Err(ParseErr::DataException)
            },
        }
    }
}

/// A dictionary at the front of `s`: `d`, the pairs of key and value, `e`.
/// The pairs may stand in any order. What is read is the dictionary that they
/// make in the order in which they stand: of two pairs with one key the later
/// one stays.
pub open spec fn decode_dict(s: Seq<u8>, depth: nat) -> Parsed<Value>
    decreases s.len(), 0nat,
{
    if s.len() == 0 {
        Err(ParseErr::DataException)
    } else if s[0] != DICT_MARK {
        Err(ParseErr::SyntaxError)
    } else if depth == 0 {
        Err(ParseErr::TooDeep)
    } else {
        match decode_pairs(s.skip(1), (depth - 1) as nat) {
            Ok((pairs, n)) => Ok((Value::Dict(dict_from_pairs(pairs)), n + 1)),
            Err(e) => Err(e),
        }
    }
}

/// The pairs of a dictionary, as they stand, up to and with the closing `e`.
/// A key is a byte string and its value follows it at once. It is
/// `SyntaxError` where a key does not start with a digit, and `DataException`
/// where the input ends before the `e`; a key or a value that fails makes the
/// dictionary fail in the same way.
pub open spec fn decode_pairs(s: Seq<u8>, depth: nat) -> Parsed<Entries>
    decreases s.len(), 2nat,
{
    if s.len() == 0 {
        Err(ParseErr::DataException)
    } else if s[0] == END_MARK {
        Ok((Seq::empty(), 1))
    } else if !is_digit(s[0]) {
        Err(ParseErr::SyntaxError)
    } else {
        match read_string(s) {
            Err(e) => Err(e),
            Ok((key, n)) => match decode_value(s.skip(n as int), depth) {
                Err(e) => Err(e),
                Ok((v, m)) => if n + m <= s.len() {
                    match decode_pairs(s.skip((n + m) as int), depth) {
                        Err(e) => Err(e),
                        Ok((rest, r)) => Ok((seq![(key, v)] + rest, n + m + r)),
                    }
                } else {
                    // never so: what is read takes no more bytes than there are
                    Err(ParseErr::DataException)
                },
            },
        }
    }
}

/// A value at the front of `s`; its first byte says of which kind: a digit
/// starts a byte string, `i` an integer, `l` a list and `d` a dictionary. It
/// is `DataException` where nothing is left to read and `UnsupportedByte`
/// where the first byte is none of these.
pub open spec fn decode_value(s: Seq<u8>, depth: nat) -> Parsed<Value>
    decreases s.len(), 1nat,
{
    if s.len() == 0 {
        Err(ParseErr::DataException)
    } else if is_digit(s[0]) {
        decode_string(s)
    } else if s[0] == INT_MARK {
        decode_number(s)
    } else if s[0] == LIST_MARK {
        decode_list(s, depth)
    } else if s[0] == DICT_MARK {
        decode_dict(s, depth)
    } else {
        Err(ParseErr::UnsupportedByte)
    }
}

/// The document at the front of `s`, and how many bytes it takes. Bytes
/// behind it are left alone. No more than `MAX_DEPTH` containers may stand
/// inside one another.
pub open spec fn decode(s: Seq<u8>) -> Parsed<Value> {
    decode_value(s, MAX_DEPTH as nat)
}

/// A byte string as it is written: its length in base ten, `:`, its bytes.
pub open spec fn encode_string(b: Seq<u8>) -> Seq<u8> {
    decimal(b.len()) + seq![COLON] + b
}

/// An integer as it is written: `i`, the number in base ten, `e`.
pub open spec fn encode_number(i: int) -> Seq<u8> {
    seq![INT_MARK] + int_text(i) + seq![END_MARK]
}

/// The elements of a list as they are written, one after the other.
pub open spec fn encode_items(l: Seq<Value>) -> Seq<u8>
    decreases l, 0nat,
{
    if l.len() == 0 {
        Seq::empty()
    } else {
        encode_items(l.drop_last()) + encode(l.last())
    }
}

/// The entries of a dictionary as they are written: each key as a byte string
/// with its value behind it, in the order of the entries.
pub open spec fn encode_pairs(es: Entries) -> Seq<u8>
    decreases es, 0nat,
{
    if es.len() == 0 {
        Seq::empty()
    } else {
        encode_pairs(es.drop_last()) + encode_string(es.last().0) + encode(es.last().1)
    }
}

/// A list as it is written: `l`, its elements, `e`.
pub open spec fn encode_list(l: Seq<Value>) -> Seq<u8>
    decreases l, 1nat,
{
    seq![LIST_MARK] + encode_items(l) + seq![END_MARK]
}

/// A dictionary as it is written: `d`, its entries, `e`.
pub open spec fn encode_dict(es: Entries) -> Seq<u8>
    decreases es, 1nat,
{
    seq![DICT_MARK] + encode_pairs(es) + seq![END_MARK]
}

/// A value as it is written.
pub open spec fn encode(v: Value) -> Seq<u8>
    decreases v, 0nat,
{
    match v {
        Value::Bytes(b) => encode_string(b),
        Value::Int(i) => encode_number(i),
        Value::List(l) => encode_list(l),
        Value::Dict(es) => encode_dict(es),
    }
}

} // verus!
