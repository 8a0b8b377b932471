//! Theorems about the format: what decoding gives is a well-formed value,
//! and writing a value and reading it back gives the value again.

use crate::decimal::{
    decimal, is_digit, lemma_decimal_digits, lemma_decimal_value, lemma_digit_run_unique, MINUS,
};
use crate::dictionary::{
    dict_from_pairs, dict_map, dict_rank, keys_ascending, lemma_from_pairs_ascending,
    lemma_from_pairs_map, lemma_from_pairs_sorted, lemma_rank_bounds, pairs_map,
};
use crate::grammar::{
    decode, decode_items, decode_pairs, decode_value, encode, encode_dict, encode_items,
    encode_number, encode_pairs, encode_string, read_number, read_string, ParseErr, COLON,
    DICT_MARK, END_MARK, INT_MARK, LIST_MARK, MAX_DEPTH,
};
use crate::value::{
    lemma_dict_fits, lemma_dict_wf, lemma_fits_more, lemma_list_fits, lemma_list_wf,
    lemma_value_fits, Entries, Value,
};
use vstd::prelude::*;

verus! {

/// Every entry of a dictionary made pair by pair is one of the pairs.
pub proof fn lemma_from_pairs_members(pairs: Entries)
    ensures
        forall|j: int|
            0 <= j < dict_from_pairs(pairs).len() ==> pairs.contains(
                #[trigger] dict_from_pairs(pairs)[j],
            ),
    decreases pairs.len(),
{
    if pairs.len() > 0 {
        let front = pairs.drop_last();
        let es = dict_from_pairs(front);
        let out = dict_from_pairs(pairs);
        lemma_from_pairs_members(front);
        lemma_rank_bounds(es, pairs.last().0);
        let r = dict_rank(es, pairs.last().0) as int;
        assert forall|j: int| 0 <= j < out.len() implies pairs.contains(#[trigger] out[j]) by {
            if j == r {
                assert(out[j] == pairs[pairs.len() - 1]);
            } else {
                let i = if r < es.len() && es[r].0 == pairs.last().0 || j < r {
                    j
                } else {
                    j - 1
                };
                assert(out[j] == es[i]);
                assert(front.contains(es[i]));
                let w = choose|w: int| 0 <= w < front.len() && front[w] == es[i];
                assert(pairs[w] == out[j]);
            }
        }
    }
}

/// What a list's elements read are: well-formed values that fit the depth,
/// taken from at least one byte and from no more bytes than there are.
pub proof fn lemma_items_sound(s: Seq<u8>, depth: nat)
    ensures
        decode_items(s, depth) matches Ok((l, n)) ==> 0 < n <= s.len() && forall|i: int|
            0 <= i < l.len() ==> (#[trigger] l[i]).wf() && l[i].fits(depth),
    decreases s.len(), 2nat,
{
    if s.len() > 0 && s[0] != END_MARK {
        lemma_value_sound(s, depth);
        if let Ok((v, n)) = decode_value(s, depth) {
            lemma_items_sound(s.skip(n as int), depth);
        }
    }
}

/// What a dictionary's pairs read are: values as in `lemma_items_sound`.
pub proof fn lemma_pairs_sound(s: Seq<u8>, depth: nat)
    ensures
        decode_pairs(s, depth) matches Ok((l, n)) ==> 0 < n <= s.len() && forall|i: int|
            0 <= i < l.len() ==> (#[trigger] l[i]).1.wf() && l[i].1.fits(depth),
    decreases s.len(), 2nat,
{
    if s.len() > 0 && s[0] != END_MARK && is_digit(s[0]) {
        if let Ok((key, n)) = read_string(s) {
            lemma_value_sound(s.skip(n as int), depth);
            if let Ok((v, m)) = decode_value(s.skip(n as int), depth) {
                lemma_pairs_sound(s.skip((n + m) as int), depth);
            }
        }
    }
}

/// What decoding reads is a well-formed value that fits the depth, taken from
/// at least one byte and from no more bytes than there are.
pub proof fn lemma_value_sound(s: Seq<u8>, depth: nat)
    ensures
        decode_value(s, depth) matches Ok((v, n)) ==> 0 < n <= s.len() && v.wf() && v.fits(depth),
    decreases s.len(), 1nat,
{
    if s.len() == 0 {
    } else if is_digit(s[0]) {
    } else if s[0] == INT_MARK {
    } else if s[0] == LIST_MARK {
        if depth > 0 {
            lemma_items_sound(s.skip(1), (depth - 1) as nat);
            if let Ok((l, n)) = decode_items(s.skip(1), (depth - 1) as nat) {
                lemma_list_wf(l);
                lemma_list_fits(l, depth);
            }
        }
    } else if s[0] == DICT_MARK {
        if depth > 0 {
            lemma_pairs_sound(s.skip(1), (depth - 1) as nat);
            if let Ok((pairs, n)) = decode_pairs(s.skip(1), (depth - 1) as nat) {
                let es = dict_from_pairs(pairs);
                lemma_from_pairs_ascending(pairs);
                lemma_from_pairs_members(pairs);
                lemma_dict_wf(es);
                lemma_dict_fits(es, depth);
                assert forall|j: int| 0 <= j < es.len() implies (#[trigger] es[j]).1.wf()
                    && es[j].1.fits((depth - 1) as nat) by {
                    assert(pairs.contains(es[j]));
                    let w = choose|w: int| 0 <= w < pairs.len() && pairs[w] == es[j];
                    assert(pairs[w].1.wf());
                }
            }
        }
    }
}

/// A written value is not empty, and its first byte says of which kind it is.
pub proof fn lemma_encode_head(v: Value)
    ensures
        encode(v).len() > 0,
        v is Bytes ==> is_digit(encode(v)[0]),
        v is Int ==> encode(v)[0] == INT_MARK,
        v is List ==> encode(v)[0] == LIST_MARK,
        v is Dict ==> encode(v)[0] == DICT_MARK,
{
    match v {
        Value::Bytes(b) => {
            lemma_decimal_digits(b.len());
            assert(encode_string(b)[0] == decimal(b.len())[0]);
        },
        _ => {},
    }
}

/// A written byte string is read back as it was, whatever follows it.
pub proof fn lemma_string_written(b: Seq<u8>, rest: Seq<u8>)
    ensures
        read_string(encode_string(b) + rest) == Ok::<(Seq<u8>, nat), ParseErr>(
            (b, encode_string(b).len()),
        ),
{
    let digits = decimal(b.len());
    let s = encode_string(b) + rest;
    let k = digits.len() as int;
    lemma_decimal_digits(b.len());
    lemma_decimal_value(b.len());
    assert forall|j: int| 0 <= j < k implies is_digit(#[trigger] s[j]) by {
        assert(s[j] == digits[j]);
    }
    assert(s[k] == COLON);
    lemma_digit_run_unique(s, k);
    assert(s.take(k) =~= digits);
    assert(s.subrange(k + 1, k + 1 + b.len()) =~= b);
}

/// A written integer is read back as it was, whatever follows it.
pub proof fn lemma_number_written(i: int, rest: Seq<u8>)
    requires
        i32::MIN <= i <= i32::MAX,
    ensures
        read_number(encode_number(i) + rest) == Ok::<(int, nat), ParseErr>(
            (i, encode_number(i).len()),
        ),
{
    let s = encode_number(i) + rest;
    let m: nat = if i < 0 {
        (-i) as nat
    } else {
        i as nat
    };
    let digits = decimal(m);
    let start: int = if i < 0 {
        2
    } else {
        1
    };
    let k = digits.len() as int;
    lemma_decimal_digits(m);
    lemma_decimal_value(m);
    assert(s[0] == INT_MARK);
    if i < 0 {
        assert(s[1] == MINUS);
    } else {
        assert(s[1] == digits[0]);
    }
    let t = s.skip(start);
    assert forall|j: int| 0 <= j < k implies is_digit(#[trigger] t[j]) by {
        assert(t[j] == digits[j]);
    }
    assert(t[k] == END_MARK);
    lemma_digit_run_unique(t, k);
    assert(s[start + k] == END_MARK);
    assert(s.subrange(start, start + k) =~= digits);
}

/// The elements of a list are written as the first of them and then the others.
pub proof fn lemma_items_front(l: Seq<Value>)
    requires
        l.len() > 0,
    ensures
        encode_items(l) == encode(l[0]) + encode_items(l.skip(1)),
    decreases l.len(),
{
    let front = l.drop_last();
    if l.len() == 1 {
        assert(front =~= Seq::<Value>::empty());
        assert(l.skip(1) =~= Seq::<Value>::empty());
        assert(encode_items(l) =~= encode(l[0]) + encode_items(l.skip(1)));
    } else {
        lemma_items_front(front);
        assert(l.skip(1).drop_last() =~= front.skip(1));
        assert(l.skip(1).last() == l.last());
        assert(encode_items(l) =~= encode(l[0]) + encode_items(l.skip(1)));
    }
}

/// The entries of a dictionary are written as the first of them and then the
/// others.
pub proof fn lemma_pairs_front(es: Entries)
    requires
        es.len() > 0,
    ensures
        encode_pairs(es) == encode_string(es[0].0) + encode(es[0].1) + encode_pairs(es.skip(1)),
    decreases es.len(),
{
    let front = es.drop_last();
    if es.len() == 1 {
        assert(front =~= Seq::<(Seq<u8>, Value)>::empty());
        assert(es.skip(1) =~= Seq::<(Seq<u8>, Value)>::empty());
        assert(encode_pairs(es) =~= encode_string(es[0].0) + encode(es[0].1) + encode_pairs(
            es.skip(1),
        ));
    } else {
        lemma_pairs_front(front);
        assert(es.skip(1).drop_last() =~= front.skip(1));
        assert(es.skip(1).last() == es.last());
        assert(encode_pairs(es) =~= encode_string(es[0].0) + encode(es[0].1) + encode_pairs(
            es.skip(1),
        ));
    }
}

/// Written elements with the closing `e` behind them are read back as they
/// were, whatever follows.
pub proof fn lemma_items_written(l: Seq<Value>, rest: Seq<u8>, depth: nat)
    requires
        forall|i: int| 0 <= i < l.len() ==> (#[trigger] l[i]).wf() && l[i].fits(depth),
    ensures
        decode_items(encode_items(l) + seq![END_MARK] + rest, depth) == Ok::<
            (Seq<Value>, nat),
            ParseErr,
        >((l, encode_items(l).len() + 1)),
    decreases l,
{
    let s = encode_items(l) + seq![END_MARK] + rest;
    if l.len() == 0 {
        assert(s[0] == END_MARK);
        assert(l =~= Seq::<Value>::empty());
    } else {
        let tail = l.skip(1);
        let after = encode_items(tail) + seq![END_MARK] + rest;
        lemma_items_front(l);
        lemma_encode_head(l[0]);
        assert(s =~= encode(l[0]) + after);
        assert(s[0] == encode(l[0])[0]);
        theorem_value_written(l[0], after, depth);
        let n = encode(l[0]).len();
        assert(s.skip(n as int) =~= after);
        assert forall|i: int| 0 <= i < tail.len() implies (#[trigger] tail[i]).wf()
            && tail[i].fits(depth) by {
            assert(tail[i] == l[i + 1]);
        }
        lemma_items_written(tail, rest, depth);
        assert(seq![l[0]] + tail =~= l);
    }
}

/// Written entries with the closing `e` behind them are read back as they
/// were and in their order, whatever follows.
pub proof fn lemma_pairs_written(es: Entries, rest: Seq<u8>, depth: nat)
    requires
        forall|i: int| 0 <= i < es.len() ==> (#[trigger] es[i]).1.wf() && es[i].1.fits(depth),
    ensures
        decode_pairs(encode_pairs(es) + seq![END_MARK] + rest, depth) == Ok::<
            (Entries, nat),
            ParseErr,
        >((es, encode_pairs(es).len() + 1)),
    decreases es,
{
    let s = encode_pairs(es) + seq![END_MARK] + rest;
    if es.len() == 0 {
        assert(s[0] == END_MARK);
        assert(es =~= Seq::<(Seq<u8>, Value)>::empty());
    } else {
        let tail = es.skip(1);
        let after = encode_pairs(tail) + seq![END_MARK] + rest;
        let key = encode_string(es[0].0);
        let val = encode(es[0].1);
        lemma_pairs_front(es);
        lemma_encode_head(Value::Bytes(es[0].0));
        assert(s =~= key + (val + after));
        assert(s[0] == key[0]);
        lemma_string_written(es[0].0, val + after);
        assert(s.skip(key.len() as int) =~= val + after);
        assert(es[0].1.wf() && es[0].1.fits(depth));
        theorem_value_written(es[0].1, after, depth);
        assert(s.skip((key.len() + val.len()) as int) =~= after);
        assert forall|i: int| 0 <= i < tail.len() implies (#[trigger] tail[i]).1.wf()
            && tail[i].1.fits(depth) by {
            assert(tail[i] == es[i + 1]);
        }
        lemma_pairs_written(tail, rest, depth);
        assert(seq![(es[0].0, es[0].1)] + tail =~= es);
    }
}

/// A written value is read back as it was, from exactly the bytes that were
/// written, whatever follows them.
pub proof fn theorem_value_written(v: Value, rest: Seq<u8>, depth: nat)
    requires
        v.wf(),
        v.fits(depth),
    ensures
        decode_value(encode(v) + rest, depth) == Ok::<(Value, nat), ParseErr>(
            (v, encode(v).len()),
        ),
    decreases v,
{
    let s = encode(v) + rest;
    lemma_encode_head(v);
    assert(s[0] == encode(v)[0]);
    match v {
        Value::Bytes(b) => {
            lemma_string_written(b, rest);
        },
        Value::Int(i) => {
            lemma_number_written(i, rest);
        },
        Value::List(l) => {
            lemma_list_wf(l);
            lemma_list_fits(l, depth);
            lemma_items_written(l, rest, (depth - 1) as nat);
            assert(s.skip(1) =~= encode_items(l) + seq![END_MARK] + rest);
        },
        Value::Dict(es) => {
            lemma_dict_wf(es);
            lemma_dict_fits(es, depth);
            lemma_pairs_written(es, rest, (depth - 1) as nat);
            lemma_from_pairs_sorted(es);
            assert(s.skip(1) =~= encode_pairs(es) + seq![END_MARK] + rest);
        },
    }
}

/// No key occurs in two of the pairs.
pub open spec fn keys_distinct(pairs: Entries) -> bool {
    forall|i: int, j: int| 0 <= i < j < pairs.len() ==> #[trigger] pairs[i].0 != #[trigger] pairs[j].0
}

/// Pairs with different keys make a dictionary that holds just these pairs,
/// each once: the dictionary is the pairs put in ascending key order.
pub proof fn lemma_from_pairs_permutes(pairs: Entries)
    requires
        keys_distinct(pairs),
    ensures
        dict_from_pairs(pairs).to_multiset() == pairs.to_multiset(),
        dict_from_pairs(pairs).len() == pairs.len(),
    decreases pairs.len(),
{
    if pairs.len() == 0 {
        assert(pairs =~= Seq::<(Seq<u8>, Value)>::empty());
    } else {
        let front = pairs.drop_last();
        let es = dict_from_pairs(front);
        let k = pairs.last().0;
        let r = dict_rank(es, k) as int;
        lemma_from_pairs_permutes(front);
        lemma_from_pairs_members(front);
        lemma_rank_bounds(es, k);
        if r < es.len() && es[r].0 == k {
            assert(front.contains(es[r]));
            let w = choose|w: int| 0 <= w < front.len() && front[w] == es[r];
            assert(pairs[w].0 != pairs[pairs.len() - 1].0);
        }
        vstd::seq_lib::to_multiset_insert(es, r, pairs.last());
        vstd::seq_lib::to_multiset_build(front, pairs.last());
        assert(front.push(pairs.last()) =~= pairs);
    }
}

/// Whatever decoding accepts is a well-formed value within the depth limit,
/// read from at least one byte and from no more bytes than the input has.
pub proof fn theorem_decode_sound(s: Seq<u8>)
    ensures
        decode(s) matches Ok((v, n)) ==> 0 < n <= s.len() && v.wf() && v.fits(MAX_DEPTH as nat),
{
    lemma_value_sound(s, MAX_DEPTH as nat);
}

/// Encoding a value and decoding the result gives the value back and takes
/// every byte; so encoding what was decoded from an encoding gives the same
/// bytes again. This holds of each well-formed value that holds no more
/// containers inside one another than the depth limit allows.
pub proof fn theorem_encode_decode(v: Value)
    requires
        v.wf(),
        v.fits(MAX_DEPTH as nat),
    ensures
        decode(encode(v)) == Ok::<(Value, nat), ParseErr>((v, encode(v).len())),
        decode(encode(v)) matches Ok((w, _)) && encode(w) == encode(v),
{
    theorem_value_written(v, Seq::empty(), MAX_DEPTH as nat);
    assert(encode(v) + Seq::<u8>::empty() =~= encode(v));
}

/// A value is written in one way and no two values are written alike: the
/// canonical document of a well-formed value is its own.
pub proof fn theorem_encode_injective(a: Value, b: Value)
    requires
        a.wf(),
        b.wf(),
        encode(a) == encode(b),
    ensures
        a == b,
{
    let da = lemma_value_fits(a);
    let db = lemma_value_fits(b);
    let depth = if da < db {
        db
    } else {
        da
    };
    lemma_fits_more(a, da, depth);
    lemma_fits_more(b, db, depth);
    theorem_value_written(a, Seq::empty(), depth);
    theorem_value_written(b, Seq::empty(), depth);
}

/// Encoding a decoded value gives a document of the same value: decoding
/// that document gives the value again.
pub proof fn theorem_reencode(s: Seq<u8>)
    ensures
        decode(s) matches Ok((v, _)) ==> decode(encode(v)) == Ok::<(Value, nat), ParseErr>(
            (v, encode(v).len()),
        ),
{
    theorem_decode_sound(s);
    if let Ok((v, _)) = decode(s) {
        theorem_encode_decode(v);
    }
}

/// A dictionary document whose entries are written canonically but stand in
/// any order decodes to the dictionary of these entries, whatever follows the
/// document. That dictionary holds its keys in ascending order and gives each
/// key the value of the last entry with that key. Where no key occurs twice
/// it holds just the entries of the document, each once, so encoding it gives
/// the document with its entries put in ascending key order and every entry
/// written as it was; where the keys were in ascending order already, that is
/// the document itself.
pub proof fn theorem_canonicalization(pairs: Entries, rest: Seq<u8>)
    requires
        forall|i: int|
            0 <= i < pairs.len() ==> (#[trigger] pairs[i]).1.wf() && pairs[i].1.fits(
                (MAX_DEPTH - 1) as nat,
            ),
    ensures
        decode(encode_dict(pairs) + rest) == Ok::<(Value, nat), ParseErr>(
            (Value::Dict(dict_from_pairs(pairs)), encode_dict(pairs).len()),
        ),
        keys_ascending(dict_from_pairs(pairs)),
        dict_map(dict_from_pairs(pairs)) == pairs_map(pairs),
        encode(Value::Dict(dict_from_pairs(pairs))) == encode_dict(dict_from_pairs(pairs)),
        keys_distinct(pairs) ==> dict_from_pairs(pairs).to_multiset() == pairs.to_multiset(),
        keys_ascending(pairs) ==> dict_from_pairs(pairs) == pairs,
{
    let s = encode_dict(pairs) + rest;
    lemma_pairs_written(pairs, rest, (MAX_DEPTH - 1) as nat);
    assert(s[0] == DICT_MARK);
    assert(s.skip(1) =~= encode_pairs(pairs) + seq![END_MARK] + rest);
    lemma_from_pairs_ascending(pairs);
    lemma_from_pairs_map(pairs);
    if keys_distinct(pairs) {
        lemma_from_pairs_permutes(pairs);
    }
    if keys_ascending(pairs) {
        lemma_from_pairs_sorted(pairs);
    }
}

} // verus!
