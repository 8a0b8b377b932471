//! The encoder: writes a tree as the one canonical document of its value.

use crate::decimal::{write_decimal, MINUS};
use crate::dictionary::lemma_neighbours_ascending;
use crate::grammar::{
    encode, encode_items, encode_number, encode_pairs, encode_string, EncodeErr, COLON, DICT_MARK,
    END_MARK, INT_MARK, LIST_MARK,
};
use crate::order::{bytes_lt, key_lt};
use crate::value::{lemma_dict_wf, lemma_list_wf, list_view, BData, BDict, Value};
use vstd::prelude::*;

verus! {

/// Writes an integer: `i`, the number in base ten, `e`.
pub fn stringify_number(data: &i32) -> (r: Result<Vec<u8>, EncodeErr>)
    ensures
        r matches Ok(bytes) && bytes@ == encode_number(*data as int),
{
    let mut content: Vec<u8> = Vec::new();
    content.push(INT_MARK);
    let n: i64 = *data as i64;
    if n < 0 {
        content.push(MINUS);
        write_decimal((-n) as u64, &mut content);
    } else {
        write_decimal(n as u64, &mut content);
    }
    content.push(END_MARK);
    assert(content@ =~= encode_number(*data as int));
    Ok(content)
}

/// Writes a byte string: its length in base ten, `:`, its bytes.
pub fn stringify_string(data: &Vec<u8>) -> (r: Result<Vec<u8>, EncodeErr>)
    ensures
        r matches Ok(bytes) && bytes@ == encode_string(data@),
{
    let mut content: Vec<u8> = Vec::new();
    write_decimal(data.len() as u64, &mut content);
    content.push(COLON);
    let ghost head = content@;
    let mut i: usize = 0;
    while i < data.len()
        invariant
            i <= data.len(),
            content@ == head + data@.take(i as int),
        decreases data.len() - i,
    {
        content.push(data[i]);
        i += 1;
        assert(content@ =~= head + data@.take(i as int));
    }
    assert(content@ =~= encode_string(data@));
    Ok(content)
}

/// Writes a list: `l`, its elements in their order, `e`. Fails where an
/// element cannot be written.
pub fn stringify_list(data: &Vec<BData>) -> (r: Result<Vec<u8>, EncodeErr>)
    ensures
        match r {
            Ok(bytes) => Value::List(list_view(data@)).wf() && bytes@ == encode(
                Value::List(list_view(data@)),
            ),
            Err(e) => !Value::List(list_view(data@)).wf(),
        },
    decreases data,
{
    let ghost l = list_view(data@);
    let mut content: Vec<u8> = Vec::new();
    content.push(LIST_MARK);
    let mut i: usize = 0;
    assert(l.take(0) =~= Seq::<Value>::empty());
    while i < data.len()
        invariant
            i <= data.len(),
            l == list_view(data@),
            content@ == seq![LIST_MARK] + encode_items(l.take(i as int)),
            forall|j: int| 0 <= j < i ==> (#[trigger] l[j]).wf(),
        decreases data.len() - i,
    {
        match stringify(&data[i]) {
            Ok(mut s) => {
                proof {
                    assert(l.take(i + 1).drop_last() =~= l.take(i as int));
                    assert(l.take(i + 1).last() == data@[i as int]@);
                }
                content.append(&mut s);
                assert(content@ =~= seq![LIST_MARK] + encode_items(l.take(i + 1)));
            },
            Err(e) => {
                proof {
                    lemma_list_wf(l);
                    assert(!l[i as int].wf());
                }
                return Err(e);
            },
        }
        i += 1;
    }
    content.push(END_MARK);
    proof {
        assert(l.take(data.len() as int) =~= l);
        lemma_list_wf(l);
    }
    Ok(content)
}

/// Writes a dictionary: `d`, each key as a byte string with its value behind
/// it, in ascending key order, `e`. Fails where the keys are not held in
/// strictly ascending order, or where a value cannot be written.
pub fn stringify_dict(data: &BDict) -> (r: Result<Vec<u8>, EncodeErr>)
    ensures
        match r {
            Ok(bytes) => Value::Dict(data@).wf() && bytes@ == encode(Value::Dict(data@)),
            Err(e) => !Value::Dict(data@).wf(),
        },
    decreases data,
{
    let ghost es = data@;
    let mut content: Vec<u8> = Vec::new();
    content.push(DICT_MARK);
    let mut i: usize = 0;
    assert(es.take(0) =~= Seq::<(Seq<u8>, Value)>::empty());
    while i < data.len()
        invariant
            i <= es.len(),
            es == data@,
            content@ == seq![DICT_MARK] + encode_pairs(es.take(i as int)),
            forall|j: int| 0 <= j < i ==> (#[trigger] es[j]).1.wf(),
            forall|j: int| 0 < j < i ==> bytes_lt(es[j - 1].0, #[trigger] es[j].0),
        decreases es.len() - i,
    {
        if i > 0 && !key_lt(data.key_at(i - 1), data.key_at(i)) {
            proof {
                lemma_dict_wf(es);
                assert(!bytes_lt(es[i - 1].0, es[i as int].0));
            }
            return Err(EncodeErr::InvariantViolation);
        }
        let mut key = match stringify_string(data.key_at(i)) {
            Ok(s) => s,
            Err(e) => {
                return Err(e);
            },
        };
        match stringify(data.value_at(i)) {
            Ok(mut s) => {
                proof {
                    assert(es.take(i + 1).drop_last() =~= es.take(i as int));
                    assert(es.take(i + 1).last() == es[i as int]);
                }
                content.append(&mut key);
                content.append(&mut s);
                assert(content@ =~= seq![DICT_MARK] + encode_pairs(es.take(i + 1)));
            },
            Err(e) => {
                proof {
                    lemma_dict_wf(es);
                    assert(!es[i as int].1.wf());
                }
                return Err(e);
            },
        }
        i += 1;
    }
    content.push(END_MARK);
    proof {
        assert(es.take(es.len() as int) =~= es);
        lemma_neighbours_ascending(es);
        lemma_dict_wf(es);
    }
    Ok(content)
}

/// Encodes a value as its canonical document. Fails only on a value that
/// holds a dictionary whose keys are not in strictly ascending order; the
/// dictionaries that `BDict` makes are.
pub fn stringify(data: &BData) -> (r: Result<Vec<u8>, EncodeErr>)
    ensures
        match r {
            Ok(bytes) => data@.wf() && bytes@ == encode(data@),
            Err(e) => !data@.wf(),
        },
    decreases data,
{
    match data {
        BData::BString(s) => stringify_string(s),
        BData::Number(num) => stringify_number(num),
        BData::List(vec) => stringify_list(vec),
        BData::Dict(dict) => stringify_dict(dict),
    }
}

} // verus!
