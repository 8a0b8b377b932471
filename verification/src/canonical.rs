//! Canonical documents: which bytes are the one way of writing their value.

use crate::decimal::{
    decimal, digit_run, digits_value, is_digit, lemma_decimal_digits, lemma_decimal_of_value,
    lemma_digit_run_bounds, lemma_digit_run_unique, MINUS, ZERO,
};
use crate::dictionary::{keys_ascending, lemma_from_pairs_sorted};
use crate::grammar::{
    decode, decode_items, decode_pairs, decode_value, encode, encode_items, encode_number,
    encode_pairs, encode_string, read_number, read_string, COLON, DICT_MARK, END_MARK, INT_MARK,
    LIST_MARK, MAX_DEPTH,
};
use crate::roundtrip::{
    lemma_encode_head, lemma_items_front, lemma_number_written, lemma_pairs_front,
    lemma_pairs_written, lemma_string_written, theorem_decode_sound, theorem_value_written,
};
use crate::value::{lemma_dict_fits, lemma_dict_wf, lemma_list_fits, lemma_list_wf, Entries, Value};
use vstd::prelude::*;

verus! {

/// The digits at the front of `s` are a number without leading zeros: one
/// digit, or more that do not start with `0`.
pub open spec fn plain_digits(s: Seq<u8>) -> bool {
    digit_run(s) == 1 || (digit_run(s) > 1 && s[0] != ZERO)
}

/// A byte string stands at the front of `s`, its length without leading zeros.
pub open spec fn canonical_string(s: Seq<u8>) -> bool {
    read_string(s) is Ok && plain_digits(s)
}

/// An integer stands at the front of `s`, its digits without leading zeros.
pub open spec fn canonical_number(s: Seq<u8>) -> bool {
    read_number(s) is Ok && plain_digits(
        s.skip(
            if s[1] == MINUS {
                2
            } else {
                1
            },
        ),
    )
}

/// The elements of a list up to the closing `e` are canonical each.
pub open spec fn canonical_items(s: Seq<u8>, depth: nat) -> bool
    decreases s.len(), 2nat,
{
    if s.len() == 0 {
        false
    } else if s[0] == END_MARK {
        true
    } else {
        canonical_value(s, depth) && match decode_value(s, depth) {
            Ok((_, n)) => 0 < n <= s.len() && canonical_items(s.skip(n as int), depth),
            Err(_) => false,
        }
    }
}

/// The pairs of a dictionary up to the closing `e` are canonical each, key and
/// value.
pub open spec fn canonical_pairs(s: Seq<u8>, depth: nat) -> bool
    decreases s.len(), 2nat,
{
    if s.len() == 0 {
        false
    } else if s[0] == END_MARK {
        true
    } else {
        is_digit(s[0]) && canonical_string(s) && match read_string(s) {
            Ok((_, n)) => canonical_value(s.skip(n as int), depth) && match decode_value(
                s.skip(n as int),
                depth,
            ) {
                Ok((_, m)) => n + m <= s.len() && canonical_pairs(s.skip((n + m) as int), depth),
                Err(_) => false,
            },
            Err(_) => false,
        }
    }
}

/// A canonical value stands at the front of `s`: every length and every
/// integer is written without leading zeros, every dictionary lists its keys
/// in strictly ascending order, and no more than `depth` containers stand
/// inside one another.
pub open spec fn canonical_value(s: Seq<u8>, depth: nat) -> bool
    decreases s.len(), 1nat,
{
    if s.len() == 0 {
        false
    } else if is_digit(s[0]) {
        canonical_string(s)
    } else if s[0] == INT_MARK {
        canonical_number(s)
    } else if s[0] == LIST_MARK {
        depth > 0 && canonical_items(s.skip(1), (depth - 1) as nat)
    } else if s[0] == DICT_MARK {
        depth > 0 && canonical_pairs(s.skip(1), (depth - 1) as nat) && match decode_pairs(
            s.skip(1),
            (depth - 1) as nat,
        ) {
            Ok((pairs, _)) => keys_ascending(pairs),
            Err(_) => false,
        }
    } else {
        false
    }
}

/// A canonical document: one canonical value and nothing behind it.
pub open spec fn is_canonical(doc: Seq<u8>) -> bool {
    &&& canonical_value(doc, MAX_DEPTH as nat)
    &&& decode(doc) matches Ok((_, n)) && n == doc.len()
}

/// A canonical byte string is read as bytes that are written as it stands.
pub proof fn lemma_canonical_string(s: Seq<u8>)
    requires
        canonical_string(s),
    ensures
        read_string(s) matches Ok((b, n)) && n <= s.len() && encode_string(b) == s.take(n as int),
{
    let k = digit_run(s) as int;
    lemma_digit_run_bounds(s);
    let t = s.take(k);
    assert forall|j: int| 0 <= j < t.len() implies is_digit(#[trigger] t[j]) by {
        assert(t[j] == s[j]);
    }
    lemma_decimal_of_value(t);
    let n = digits_value(t) as int;
    let b = s.subrange(k + 1, k + 1 + n);
    assert(encode_string(b) =~= s.take(k + 1 + n));
}

/// A canonical integer is read as a number that is written as it stands.
pub proof fn lemma_canonical_number(s: Seq<u8>)
    requires
        canonical_number(s),
    ensures
        read_number(s) matches Ok((i, n)) && n <= s.len() && encode_number(i) == s.take(n as int),
{
    let negative = s.len() > 1 && s[1] == MINUS;
    let start: int = if negative {
        2
    } else {
        1
    };
    let u = s.skip(start);
    let k = digit_run(u) as int;
    lemma_digit_run_bounds(u);
    let t = s.subrange(start, start + k);
    assert forall|j: int| 0 <= j < t.len() implies is_digit(#[trigger] t[j]) by {
        assert(t[j] == u[j]);
    }
    assert(t[0] == u[0]);
    lemma_decimal_of_value(t);
    let m = digits_value(t);
    let i: int = if negative {
        -m
    } else {
        m as int
    };
    assert(encode_number(i) =~= s.take(start + k + 1));
}

/// Canonical elements are read as a list that is written as they stand.
pub proof fn lemma_canonical_items(s: Seq<u8>, depth: nat)
    requires
        canonical_items(s, depth),
    ensures
        decode_items(s, depth) matches Ok((l, n)) && n <= s.len() && encode_items(l) + seq![
            END_MARK,
        ] == s.take(n as int),
    decreases s.len(), 2nat,
{
    if s[0] == END_MARK {
        assert(Seq::<u8>::empty() + seq![END_MARK] =~= s.take(1));
    } else {
        lemma_canonical_value(s, depth);
        let (v, n) = decode_value(s, depth)->Ok_0;
        let t = s.skip(n as int);
        lemma_canonical_items(t, depth);
        let (rest, m) = decode_items(t, depth)->Ok_0;
        let l = seq![v] + rest;
        lemma_items_front(l);
        assert(l.skip(1) =~= rest);
        assert(s.take((n + m) as int) =~= s.take(n as int) + t.take(m as int));
        assert(encode_items(l) + seq![END_MARK] =~= encode(v) + (encode_items(rest) + seq![
            END_MARK,
        ]));
    }
}

/// Canonical pairs are read as entries that are written as they stand.
pub proof fn lemma_canonical_pairs(s: Seq<u8>, depth: nat)
    requires
        canonical_pairs(s, depth),
    ensures
        decode_pairs(s, depth) matches Ok((l, n)) && n <= s.len() && encode_pairs(l) + seq![
            END_MARK,
        ] == s.take(n as int),
    decreases s.len(), 2nat,
{
    if s[0] == END_MARK {
        assert(Seq::<u8>::empty() + seq![END_MARK] =~= s.take(1));
    } else {
        lemma_canonical_string(s);
        let (key, n) = read_string(s)->Ok_0;
        let t = s.skip(n as int);
        lemma_canonical_value(t, depth);
        let (v, m) = decode_value(t, depth)->Ok_0;
        let u = s.skip((n + m) as int);
        lemma_canonical_pairs(u, depth);
        let (rest, r) = decode_pairs(u, depth)->Ok_0;
        let l = seq![(key, v)] + rest;
        lemma_pairs_front(l);
        assert(l.skip(1) =~= rest);
        assert(t.skip(m as int) =~= u);
        assert(s.take((n + m + r) as int) =~= s.take(n as int) + t.take(m as int) + u.take(
            r as int,
        ));
        assert(encode_pairs(l) + seq![END_MARK] =~= encode_string(key) + encode(v) + (encode_pairs(
            rest,
        ) + seq![END_MARK]));
    }
}

/// A canonical value is read as a value that is written as it stands.
pub proof fn lemma_canonical_value(s: Seq<u8>, depth: nat)
    requires
        canonical_value(s, depth),
    ensures
        decode_value(s, depth) matches Ok((v, n)) && n <= s.len() && encode(v) == s.take(n as int),
    decreases s.len(), 1nat,
{
    if is_digit(s[0]) {
        lemma_canonical_string(s);
    } else if s[0] == INT_MARK {
        lemma_canonical_number(s);
    } else if s[0] == LIST_MARK {
        let t = s.skip(1);
        lemma_canonical_items(t, (depth - 1) as nat);
        let (l, n) = decode_items(t, (depth - 1) as nat)->Ok_0;
        assert(s.take((n + 1) as int) =~= seq![LIST_MARK] + t.take(n as int));
        assert(encode(Value::List(l)) =~= seq![LIST_MARK] + (encode_items(l) + seq![END_MARK]));
    } else {
        let t = s.skip(1);
        lemma_canonical_pairs(t, (depth - 1) as nat);
        let (pairs, n) = decode_pairs(t, (depth - 1) as nat)->Ok_0;
        lemma_from_pairs_sorted(pairs);
        assert(s.take((n + 1) as int) =~= seq![DICT_MARK] + t.take(n as int));
        assert(encode(Value::Dict(pairs)) =~= seq![DICT_MARK] + (encode_pairs(pairs) + seq![
            END_MARK,
        ]));
    }
}

/// `decimal` writes plain digits, whatever byte that is no digit follows.
pub proof fn lemma_decimal_plain(n: nat, rest: Seq<u8>)
    requires
        rest.len() > 0,
        !is_digit(rest[0]),
    ensures
        digit_run(decimal(n) + rest) == decimal(n).len(),
        plain_digits(decimal(n) + rest),
{
    let s = decimal(n) + rest;
    let k = decimal(n).len() as int;
    lemma_decimal_digits(n);
    assert forall|j: int| 0 <= j < k implies is_digit(#[trigger] s[j]) by {
        assert(s[j] == decimal(n)[j]);
    }
    assert(s[k] == rest[0]);
    lemma_digit_run_unique(s, k);
    assert(s[0] == decimal(n)[0]);
}

/// A written byte string is canonical, whatever follows it.
pub proof fn lemma_written_string(b: Seq<u8>, rest: Seq<u8>)
    ensures
        canonical_string(encode_string(b) + rest),
{
    lemma_string_written(b, rest);
    lemma_decimal_plain(b.len(), seq![COLON] + b + rest);
    assert(encode_string(b) + rest =~= decimal(b.len()) + (seq![COLON] + b + rest));
}

/// A written integer is canonical, whatever follows it.
pub proof fn lemma_written_number(i: int, rest: Seq<u8>)
    requires
        i32::MIN <= i <= i32::MAX,
    ensures
        canonical_number(encode_number(i) + rest),
{
    let s = encode_number(i) + rest;
    lemma_number_written(i, rest);
    let m: nat = if i < 0 {
        (-i) as nat
    } else {
        i as nat
    };
    let start: int = if i < 0 {
        2
    } else {
        1
    };
    lemma_decimal_digits(m);
    lemma_decimal_plain(m, seq![END_MARK] + rest);
    if i < 0 {
        assert(s[1] == MINUS);
    } else {
        assert(s[1] == decimal(m)[0]);
    }
    assert(s.skip(start) =~= decimal(m) + (seq![END_MARK] + rest));
}

/// Written elements with the closing `e` are canonical, whatever follows.
pub proof fn lemma_written_items(l: Seq<Value>, rest: Seq<u8>, depth: nat)
    requires
        forall|i: int| 0 <= i < l.len() ==> (#[trigger] l[i]).wf() && l[i].fits(depth),
    ensures
        canonical_items(encode_items(l) + seq![END_MARK] + rest, depth),
    decreases l,
{
    let s = encode_items(l) + seq![END_MARK] + rest;
    if l.len() == 0 {
        assert(s[0] == END_MARK);
    } else {
        let tail = l.skip(1);
        let after = encode_items(tail) + seq![END_MARK] + rest;
        lemma_items_front(l);
        lemma_encode_head(l[0]);
        assert(s =~= encode(l[0]) + after);
        assert(s[0] == encode(l[0])[0]);
        theorem_value_written(l[0], after, depth);
        lemma_written_value(l[0], after, depth);
        assert(s.skip(encode(l[0]).len() as int) =~= after);
        assert forall|i: int| 0 <= i < tail.len() implies (#[trigger] tail[i]).wf()
            && tail[i].fits(depth) by {
            assert(tail[i] == l[i + 1]);
        }
        lemma_written_items(tail, rest, depth);
    }
}

/// Written entries with the closing `e` are canonical, whatever follows.
pub proof fn lemma_written_pairs(es: Entries, rest: Seq<u8>, depth: nat)
    requires
        forall|i: int| 0 <= i < es.len() ==> (#[trigger] es[i]).1.wf() && es[i].1.fits(depth),
    ensures
        canonical_pairs(encode_pairs(es) + seq![END_MARK] + rest, depth),
    decreases es,
{
    let s = encode_pairs(es) + seq![END_MARK] + rest;
    if es.len() == 0 {
        assert(s[0] == END_MARK);
    } else {
        let tail = es.skip(1);
        let after = encode_pairs(tail) + seq![END_MARK] + rest;
        let key = encode_string(es[0].0);
        let val = encode(es[0].1);
        lemma_pairs_front(es);
        lemma_encode_head(Value::Bytes(es[0].0));
        assert(s =~= key + (val + after));
        assert(s[0] == key[0]);
        lemma_string_written(es[0].0, val + after);
        lemma_written_string(es[0].0, val + after);
        assert(s.skip(key.len() as int) =~= val + after);
        assert(es[0].1.wf() && es[0].1.fits(depth));
        theorem_value_written(es[0].1, after, depth);
        lemma_written_value(es[0].1, after, depth);
        assert(s.skip((key.len() + val.len()) as int) =~= after);
        assert forall|i: int| 0 <= i < tail.len() implies (#[trigger] tail[i]).1.wf()
            && tail[i].1.fits(depth) by {
            assert(tail[i] == es[i + 1]);
        }
        lemma_written_pairs(tail, rest, depth);
    }
}

/// A written value is canonical, whatever follows it.
pub proof fn lemma_written_value(v: Value, rest: Seq<u8>, depth: nat)
    requires
        v.wf(),
        v.fits(depth),
    ensures
        canonical_value(encode(v) + rest, depth),
    decreases v,
{
    let s = encode(v) + rest;
    lemma_encode_head(v);
    assert(s[0] == encode(v)[0]);
    match v {
        Value::Bytes(b) => {
            lemma_written_string(b, rest);
        },
        Value::Int(i) => {
            lemma_written_number(i, rest);
        },
        Value::List(l) => {
            lemma_list_wf(l);
            lemma_list_fits(l, depth);
            lemma_written_items(l, rest, (depth - 1) as nat);
            assert(s.skip(1) =~= encode_items(l) + seq![END_MARK] + rest);
        },
        Value::Dict(es) => {
            lemma_dict_wf(es);
            lemma_dict_fits(es, depth);
            lemma_written_pairs(es, rest, (depth - 1) as nat);
            lemma_pairs_written(es, rest, (depth - 1) as nat);
            assert(s.skip(1) =~= encode_pairs(es) + seq![END_MARK] + rest);
        },
    }
}

/// Decoding a canonical document takes every byte of it, and encoding the
/// value that was decoded gives the document back.
pub proof fn theorem_canonical_roundtrip(doc: Seq<u8>)
    requires
        is_canonical(doc),
    ensures
        decode(doc) matches Ok((v, n)) && n == doc.len() && encode(v) == doc,
{
    lemma_canonical_value(doc, MAX_DEPTH as nat);
    assert(doc.take(doc.len() as int) =~= doc);
}

/// The canonical documents are just what encoding writes for the well-formed
/// values within the depth limit.
pub proof fn theorem_canonical_written(doc: Seq<u8>)
    ensures
        is_canonical(doc) <==> exists|v: Value|
            v.wf() && v.fits(MAX_DEPTH as nat) && #[trigger] encode(v) == doc,
{
    if is_canonical(doc) {
        theorem_canonical_roundtrip(doc);
        theorem_decode_sound(doc);
        let v = decode(doc)->Ok_0.0;
        assert(v.wf() && v.fits(MAX_DEPTH as nat) && encode(v) == doc);
    }
    if exists|v: Value| v.wf() && v.fits(MAX_DEPTH as nat) && #[trigger] encode(v) == doc {
        let v = choose|v: Value| v.wf() && v.fits(MAX_DEPTH as nat) && #[trigger] encode(v) == doc;
        theorem_encoding_canonical(v);
    }
}

/// What encoding writes for a well-formed value within the depth limit is a
/// canonical document.
pub proof fn theorem_encoding_canonical(v: Value)
    requires
        v.wf(),
        v.fits(MAX_DEPTH as nat),
    ensures
        is_canonical(encode(v)),
{
    lemma_written_value(v, Seq::empty(), MAX_DEPTH as nat);
    theorem_value_written(v, Seq::empty(), MAX_DEPTH as nat);
    assert(encode(v) + Seq::<u8>::empty() =~= encode(v));
}

} // verus!
