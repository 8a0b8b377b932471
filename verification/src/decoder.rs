//! The decoder: reads a document from bytes, one production after the other,
//! with a read position that only moves forward.

use crate::decimal::{read_digits, scan_digits, MINUS, NINE, ZERO};
use crate::dictionary::dict_from_pairs;
use crate::grammar::{
    decode, decode_dict, decode_items, decode_list, decode_number, decode_pairs, decode_string,
    decode_value, read_number, read_string, ParseErr, Parsed, COLON, DICT_MARK, END_MARK, INT_MARK,
    LIST_MARK, MAX_DEPTH,
};
use crate::value::{list_view, BData, BDict, Entries, Value};
use vstd::prelude::*;

verus! {

/// What is left of the input from `pos` on; nothing is left from a position
/// behind the end.
pub open spec fn rest(src: Seq<u8>, pos: usize) -> Seq<u8> {
    if pos <= src.len() {
        src.skip(pos as int)
    } else {
        Seq::empty()
    }
}

/// What a step that started at `pos` has read, as the grammar counts it: the
/// value behind the tree, and the bytes taken from `pos` to the new position.
pub open spec fn outcome(r: Result<(BData, usize), ParseErr>, pos: usize) -> Parsed<Value> {
    match r {
        Ok((v, next)) => Ok((v@, (next - pos) as nat)),
        Err(e) => Err(e),
    }
}

/// The elements read so far put in front of what the rest of a list gives.
pub open spec fn items_after(front: Seq<Value>, n: nat, rest: Parsed<Seq<Value>>) -> Parsed<
    Seq<Value>,
> {
    match rest {
        Ok((l, m)) => Ok((front + l, n + m)),
        Err(e) => Err(e),
    }
}

/// The pairs read so far put in front of what the rest of a dictionary gives.
pub open spec fn pairs_after(front: Entries, n: nat, rest: Parsed<Entries>) -> Parsed<Entries> {
    match rest {
        Ok((l, m)) => Ok((front + l, n + m)),
        Err(e) => Err(e),
    }
}

/// Reads the bytes of the byte string that starts at `pos`.
pub fn read_bytes(src: &Vec<u8>, pos: usize) -> (r: Result<(Vec<u8>, usize), ParseErr>)
    ensures
        match r {
            Ok((b, next)) => pos < next <= src.len() && read_string(rest(src@, pos)) == Ok::<
                (Seq<u8>, nat),
                ParseErr,
            >((b@, (next - pos) as nat)),
            Err(e) => read_string(rest(src@, pos)) == Err::<(Seq<u8>, nat), ParseErr>(e),
        },
{
    if pos > src.len() {
        return Err(ParseErr::DataException);
    }
    let ghost s = src@.skip(pos as int);
    let colon = scan_digits(src, pos);
    if colon >= src.len() {
        return Err(ParseErr::DataException);
    }
    assert(s[colon - pos] == src@[colon as int]);
    if src[colon] != COLON {
        return Err(ParseErr::SyntaxError);
    }
    if colon == pos {
        return Err(ParseErr::SyntaxError);
    }
    let room: usize = src.len() - colon - 1;
    assert(s.take(colon - pos) =~= src@.subrange(pos as int, colon as int));
    match read_digits(src, pos, colon, room as u64) {
        None => Err(ParseErr::DataException),
        Some(n) => {
            let first: usize = colon + 1;
            let last: usize = first + n as usize;
            let mut bytes: Vec<u8> = Vec::new();
            let mut i: usize = first;
            while i < last
                invariant
                    first <= i <= last <= src.len(),
                    bytes@ == src@.subrange(first as int, i as int),
                decreases last - i,
            {
                bytes.push(src[i]);
                i += 1;
            }
            assert(bytes@ =~= s.subrange(first - pos, last - pos));
            Ok((bytes, last))
        },
    }
}

/// Reads the number of the integer that starts at `pos`.
pub fn read_int(src: &Vec<u8>, pos: usize) -> (r: Result<(i32, usize), ParseErr>)
    ensures
        match r {
            Ok((i, next)) => pos < next <= src.len() && read_number(rest(src@, pos)) == Ok::<
                (int, nat),
                ParseErr,
            >((i as int, (next - pos) as nat)),
            Err(e) => read_number(rest(src@, pos)) == Err::<(int, nat), ParseErr>(e),
        },
{
    if pos >= src.len() {
        return Err(ParseErr::DataException);
    }
    let ghost s = src@.skip(pos as int);
    assert(s[0] == src@[pos as int]);
    if src[pos] != INT_MARK {
        return Err(ParseErr::SyntaxError);
    }
    let negative = pos + 1 < src.len() && src[pos + 1] == MINUS;
    assert(s.len() > 1 ==> s[1] == src@[pos + 1]);
    let start: usize = if negative {
        pos + 2
    } else {
        pos + 1
    };
    let end = scan_digits(src, start);
    assert(s.skip(start - pos) =~= src@.skip(start as int));
    if end >= src.len() {
        return Err(ParseErr::DataException);
    }
    assert(s[end - pos] == src@[end as int]);
    if src[end] != END_MARK {
        return Err(ParseErr::SyntaxError);
    }
    if end == start {
        return Err(ParseErr::SyntaxError);
    }
    assert(s.subrange(start - pos, end - pos) =~= src@.subrange(start as int, end as int));
    match read_digits(src, start, end, 0x8000_0000) {
        None => Err(ParseErr::ParseFailure),
        Some(m) => {
            if m == 0 && (negative || end - start != 1) {
                Err(ParseErr::SyntaxError)
            } else if negative {
                Ok(((-(m as i64)) as i32, end + 1))
            } else if m > 0x7fff_ffff {
                Err(ParseErr::ParseFailure)
            } else {
                Ok((m as i32, end + 1))
            }
        },
    }
}

/// Reads the byte string that starts at `pos`.
pub fn parse_string(src: &Vec<u8>, pos: usize) -> (r: Result<(BData, usize), ParseErr>)
    ensures
        outcome(r, pos) == decode_string(rest(src@, pos)),
        r matches Ok((_, next)) ==> pos < next <= src.len(),
{
    match read_bytes(src, pos) {
        Ok((bytes, next)) => Ok((BData::BString(bytes), next)),
        Err(e) => Err(e),
    }
}

/// Reads the integer that starts at `pos`.
pub fn parse_number(src: &Vec<u8>, pos: usize) -> (r: Result<(BData, usize), ParseErr>)
    ensures
        outcome(r, pos) == decode_number(rest(src@, pos)),
        r matches Ok((_, next)) ==> pos < next <= src.len(),
{
    match read_int(src, pos) {
        Ok((i, next)) => Ok((BData::Number(i), next)),
        Err(e) => Err(e),
    }
}

/// Reads the list that starts at `pos`. `depth` says how many containers may
/// still be opened, this one included.
pub fn parse_list(src: &Vec<u8>, pos: usize, depth: usize) -> (r: Result<(BData, usize), ParseErr>)
    ensures
        outcome(r, pos) == decode_list(rest(src@, pos), depth as nat),
        r matches Ok((_, next)) ==> pos < next <= src.len(),
    decreases depth, 0nat,
{
    if pos >= src.len() {
        return Err(ParseErr::DataException);
    }
    let ghost s = src@.skip(pos as int);
    assert(s[0] == src@[pos as int]);
    if src[pos] != LIST_MARK {
        return Err(ParseErr::SyntaxError);
    }
    if depth == 0 {
        return Err(ParseErr::TooDeep);
    }
    let inner: usize = depth - 1;
    let mut list: Vec<BData> = Vec::new();
    let mut p: usize = pos + 1;
    let ghost whole = decode_items(src@.skip(pos + 1), inner as nat);
    let ghost mut front: Seq<Value> = Seq::empty();
    proof {
        assert(s.skip(1) =~= src@.skip(pos + 1));
        assert(front + Seq::<Value>::empty() =~= Seq::<Value>::empty());
        match decode_items(src@.skip(p as int), inner as nat) {
            Ok((l, m)) => {
                assert(front + l =~= l);
            },
            Err(_) => {},
        }
    }
    loop
        invariant
            pos < p <= src.len(),
            inner == depth - 1,
            whole == decode_items(src@.skip(pos + 1), inner as nat),
            decode_list(src@.skip(pos as int), depth as nat) == match whole {
                Ok((items, n)) => Ok::<(Value, nat), ParseErr>((Value::List(items), n + 1)),
                Err(e) => Err(e),
            },
            front == list_view(list@),
            whole == items_after(
                front,
                (p - pos - 1) as nat,
                decode_items(src@.skip(p as int), inner as nat),
            ),
        decreases src.len() - p,
    {
        let ghost t = src@.skip(p as int);
        if p >= src.len() {
            return Err(ParseErr::DataException);
        }
        assert(t[0] == src@[p as int]);
        if src[p] == END_MARK {
            assert(front + Seq::<Value>::empty() =~= front);
            return Ok((BData::List(list), p + 1));
        }
        match parse_data(src, p, inner) {
            Err(e) => {
                return Err(e);
            },
            Ok((v, next)) => {
                proof {
                    assert(t.skip(next - p) =~= src@.skip(next as int));
                    let grown = front.push(v@);
                    match decode_items(src@.skip(next as int), inner as nat) {
                        Ok((l, m)) => {
                            assert(front + (seq![v@] + l) =~= grown + l);
                        },
                        Err(_) => {},
                    }
                    front = grown;
                }
                list.push(v);
                p = next;
                assert(front =~= list_view(list@));
            },
        }
    }
}

/// Reads the dictionary that starts at `pos`. Of two entries with one key the
/// later one stays. `depth` says how many containers may still be opened, this
/// one included.
pub fn parse_dict(src: &Vec<u8>, pos: usize, depth: usize) -> (r: Result<(BData, usize), ParseErr>)
    ensures
        outcome(r, pos) == decode_dict(rest(src@, pos), depth as nat),
        r matches Ok((_, next)) ==> pos < next <= src.len(),
    decreases depth, 0nat,
{
    if pos >= src.len() {
        return Err(ParseErr::DataException);
    }
    let ghost s = src@.skip(pos as int);
    assert(s[0] == src@[pos as int]);
    if src[pos] != DICT_MARK {
        return Err(ParseErr::SyntaxError);
    }
    if depth == 0 {
        return Err(ParseErr::TooDeep);
    }
    let inner: usize = depth - 1;
    let mut dict = BDict::new();
    let mut p: usize = pos + 1;
    let ghost whole = decode_pairs(src@.skip(pos + 1), inner as nat);
    let ghost mut front: Entries = Seq::empty();
    proof {
        assert(s.skip(1) =~= src@.skip(pos + 1));
        match decode_pairs(src@.skip(p as int), inner as nat) {
            Ok((l, m)) => {
                assert(front + l =~= l);
            },
            Err(_) => {},
        }
    }
    loop
        invariant
            pos < p <= src.len(),
            inner == depth - 1,
            whole == decode_pairs(src@.skip(pos + 1), inner as nat),
            decode_dict(src@.skip(pos as int), depth as nat) == match whole {
                Ok((pairs, n)) => Ok::<(Value, nat), ParseErr>(
                    (Value::Dict(dict_from_pairs(pairs)), n + 1),
                ),
                Err(e) => Err(e),
            },
            dict@ == dict_from_pairs(front),
            whole == pairs_after(
                front,
                (p - pos - 1) as nat,
                decode_pairs(src@.skip(p as int), inner as nat),
            ),
        decreases src.len() - p,
    {
        let ghost t = src@.skip(p as int);
        if p >= src.len() {
            return Err(ParseErr::DataException);
        }
        assert(t[0] == src@[p as int]);
        if src[p] == END_MARK {
            assert(front + Seq::<(Seq<u8>, Value)>::empty() =~= front);
            return Ok((BData::Dict(dict), p + 1));
        }
        if src[p] < ZERO || src[p] > NINE {
            return Err(ParseErr::SyntaxError);
        }
        let (key, at) = match read_bytes(src, p) {
            Err(e) => {
                return Err(e);
            },
            Ok(found) => found,
        };
        assert(t.skip(at - p) =~= src@.skip(at as int));
        match parse_data(src, at, inner) {
            Err(e) => {
                return Err(e);
            },
            Ok((v, next)) => {
                proof {
                    assert(t.skip(next - p) =~= src@.skip(next as int));
                    let grown = front.push((key@, v@));
                    match decode_pairs(src@.skip(next as int), inner as nat) {
                        Ok((l, m)) => {
                            assert(front + (seq![(key@, v@)] + l) =~= grown + l);
                        },
                        Err(_) => {},
                    }
                    assert(grown.drop_last() =~= front);
                    front = grown;
                }
                dict.insert(key, v);
                p = next;
            },
        }
    }
}

/// Reads the value that starts at `pos`, of whichever kind its first byte
/// says. `depth` says how many containers may be opened inside one another.
pub fn parse_data(src: &Vec<u8>, pos: usize, depth: usize) -> (r: Result<(BData, usize), ParseErr>)
    ensures
        outcome(r, pos) == decode_value(rest(src@, pos), depth as nat),
        r matches Ok((_, next)) ==> pos < next <= src.len(),
    decreases depth, 1nat,
{
    if pos >= src.len() {
        return Err(ParseErr::DataException);
    }
    assert(src@.skip(pos as int)[0] == src@[pos as int]);
    let b = src[pos];
    if b >= ZERO && b <= NINE {
        parse_string(src, pos)
    } else if b == INT_MARK {
        parse_number(src, pos)
    } else if b == LIST_MARK {
        parse_list(src, pos, depth)
    } else if b == DICT_MARK {
        parse_dict(src, pos, depth)
    } else {
        Err(ParseErr::UnsupportedByte)
    }
}

/// Decodes the document at the front of `src` and says how many bytes it
/// takes. Bytes behind the document are not read and are no error: a caller
/// that wants none compares the count with the length of `src`. A document
/// that holds more than `MAX_DEPTH` containers inside one another is refused
/// as `TooDeep`.
pub fn parse(src: &Vec<u8>) -> (r: Result<(BData, usize), ParseErr>)
    ensures
        outcome(r, 0) == decode(src@),
        r matches Ok((_, taken)) ==> 0 < taken <= src.len(),
{
    assert(src@.skip(0) =~= src@);
    parse_data(src, 0, MAX_DEPTH)
}

} // verus!
