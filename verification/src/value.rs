//! The value model: what a document means, and the tree that holds it.

use crate::dictionary::{
    dict_get, dict_insert, dict_map, dict_rank, keys_ascending, lemma_insert_ascending,
    lemma_map_insert, lemma_rank_unique,
};
use crate::order::{bytes_lt, key_eq, key_lt};
use vstd::prelude::*;

verus! {

/// The entries of a dictionary, in the order in which they are written out.
pub type Entries = Seq<(Seq<u8>, Value)>;

/// What a document means: the mathematical value behind a `BData`.
///
/// A dictionary is the sequence of its entries in the order in which they are
/// written out; `dict_map` gives the mapping from keys to values that it
/// stands for.
pub enum Value {
    /// A byte string: any bytes, of any length.
    Bytes(Seq<u8>),
    /// An integer.
    Int(int),
    /// A list: its elements in their order.
    List(Seq<Value>),
    /// A dictionary: its entries.
    Dict(Entries),
}

/// A document held in memory: a tree that owns its parts.
#[derive(Debug, Eq)]
pub enum BData {
    /// A byte string.
    BString(Vec<u8>),
    /// An integer of 32 bits.
    Number(i32),
    /// A list.
    List(Vec<BData>),
    /// A dictionary.
    Dict(BDict),
}

/// A dictionary from byte strings to values. Its entries are kept in
/// ascending key order and no key occurs twice: `new` and `insert` see to it,
/// and nothing else makes or changes a dictionary.
#[derive(Debug, Eq)]
pub struct BDict {
    entries: Vec<(Vec<u8>, BData)>,
}

impl View for BData {
    type V = Value;

    open spec fn view(&self) -> Value
        decreases self,
    {
        match self {
            BData::BString(b) => Value::Bytes(b@),
            BData::Number(n) => Value::Int(*n as int),
            BData::List(l) => Value::List(list_view(l@)),
            BData::Dict(d) => Value::Dict(d@),
        }
    }
}

/// The values behind the elements of a list, in their order.
pub open spec fn list_view(l: Seq<BData>) -> Seq<Value>
    decreases l,
{
    Seq::new(
        l.len(),
        |i: int|
            if 0 <= i < l.len() {
                l[i]@
            } else {
                Value::Int(0)
            },
    )
}

impl View for BDict {
    type V = Entries;

    closed spec fn view(&self) -> Entries
        decreases self,
    {
        Seq::new(
            self.entries@.len(),
            |i: int|
                if 0 <= i < self.entries@.len() {
                    (self.entries@[i].0@, self.entries@[i].1@)
                } else {
                    (Seq::empty(), Value::Int(0))
                },
        )
    }
}

impl BDict {
    /// The entries are in ascending key order and no key occurs twice.
    pub open spec fn wf(&self) -> bool {
        keys_ascending(self@)
    }

    /// The mapping from keys to values that the dictionary stands for.
    pub open spec fn mapping(&self) -> Map<Seq<u8>, Value> {
        dict_map(self@)
    }

    /// Where an entry with the given key belongs.
    fn rank(&self, key: &Vec<u8>) -> (r: usize)
        ensures
            r == dict_rank(self@, key@),
            r <= self@.len(),
    {
        let mut i: usize = self.entries.len();
        while i > 0 && !key_lt(&self.entries[i - 1].0, key)
            invariant
                i <= self.entries@.len(),
                self@.len() == self.entries@.len(),
                forall|j: int| i <= j < self@.len() ==> !bytes_lt(#[trigger] self@[j].0, key@),
            decreases i,
        {
            i -= 1;
        }
        proof {
            lemma_rank_unique(self@, key@, i as int);
        }
        i
    }

    /// A dictionary without entries.
    pub fn new() -> (d: BDict)
        ensures
            d@ == Seq::<(Seq<u8>, Value)>::empty(),
            d.wf(),
    {
        let d = BDict { entries: Vec::new() };
        assert(d@ =~= Seq::<(Seq<u8>, Value)>::empty());
        d
    }

    /// The number of entries.
    pub fn len(&self) -> (n: usize)
        ensures
            n == self@.len(),
    {
        self.entries.len()
    }

    /// The key of the entry at place `i`, counted from 0 in ascending key order.
    pub fn key_at(&self, i: usize) -> (k: &Vec<u8>)
        requires
            i < self@.len(),
        ensures
            k@ == self@[i as int].0,
    {
        &self.entries[i].0
    }

    /// The value of the entry at place `i`, counted from 0 in ascending key order.
    pub fn value_at(&self, i: usize) -> (v: &BData)
        requires
            i < self@.len(),
        ensures
            v@ == self@[i as int].1,
            decreases_to!(self => v),
    {
        &self.entries[i].1
    }

    /// Gives `key` the value `value` and hands back the value it had before, if
    /// it had one. Every other key keeps its value. A key behind all others is
    /// put in at once; otherwise the entries behind its place are moved.
    pub fn insert(&mut self, key: Vec<u8>, value: BData) -> (prev: Option<BData>)
        ensures
            final(self)@ == dict_insert(old(self)@, key@, value@),
            old(self).wf() ==> final(self).wf() && final(self).mapping() == old(
                self,
            ).mapping().insert(key@, value@),
            match prev {
                Some(p) => dict_get(old(self)@, key@) == Some(p@),
                None => dict_get(old(self)@, key@) is None,
            },
    {
        let i = self.rank(&key);
        proof {
            if keys_ascending(self@) {
                lemma_insert_ascending(self@, key@, value@);
                lemma_map_insert(self@, key@, value@);
            }
        }
        if i < self.entries.len() && key_eq(&self.entries[i].0, &key) {
            let gone = self.entries.remove(i);
            self.entries.insert(i, (key, value));
            assert(self@ =~= old(self)@.update(i as int, (key@, value@)));
            Some(gone.1)
        } else {
            self.entries.insert(i, (key, value));
            assert(self@ =~= old(self)@.insert(i as int, (key@, value@)));
            None
        }
    }

    /// The value that `key` has, if it has one.
    pub fn get(&self, key: &Vec<u8>) -> (r: Option<&BData>)
        ensures
            match r {
                Some(v) => dict_get(self@, key@) == Some(v@),
                None => dict_get(self@, key@) is None,
            },
    {
        let i = self.rank(key);
        if i < self.entries.len() && key_eq(&self.entries[i].0, key) {
            Some(&self.entries[i].1)
        } else {
            None
        }
    }

    /// Tells whether `key` has a value.
    pub fn contains_key(&self, key: &Vec<u8>) -> (r: bool)
        ensures
            r == dict_get(self@, key@) is Some,
    {
        self.get(key).is_some()
    }
}

impl Value {
    /// A value that a `BData` can hold and the encoder accepts: integers fit 32
    /// bits, and dictionaries list their keys in strictly ascending order.
    pub open spec fn wf(self) -> bool
        decreases self,
    {
        match self {
            Value::Bytes(_) => true,
            Value::Int(n) => i32::MIN <= n <= i32::MAX,
            Value::List(l) => forall|i: int| 0 <= i < l.len() ==> (#[trigger] l[i]).wf(),
            Value::Dict(es) => keys_ascending(es) && forall|i: int|
                0 <= i < es.len() ==> (#[trigger] es[i]).1.wf(),
        }
    }

    /// The value holds no more than `depth` containers inside one another.
    pub open spec fn fits(self, depth: nat) -> bool
        decreases self,
    {
        match self {
            Value::Bytes(_) => true,
            Value::Int(_) => true,
            Value::List(l) => depth > 0 && forall|i: int|
                0 <= i < l.len() ==> (#[trigger] l[i]).fits((depth - 1) as nat),
            Value::Dict(es) => depth > 0 && forall|i: int|
                0 <= i < es.len() ==> (#[trigger] es[i]).1.fits((depth - 1) as nat),
        }
    }
}

/// A list is well formed when each of its elements is.
pub proof fn lemma_list_wf(l: Seq<Value>)
    ensures
        Value::List(l).wf() <==> forall|i: int| 0 <= i < l.len() ==> (#[trigger] l[i]).wf(),
{
    assert(Value::List(l)->List_0 == l);
}

/// A dictionary is well formed when its keys are in ascending order and each
/// of its values is well formed.
pub proof fn lemma_dict_wf(es: Entries)
    ensures
        Value::Dict(es).wf() <==> keys_ascending(es) && forall|i: int|
            0 <= i < es.len() ==> (#[trigger] es[i]).1.wf(),
{
    assert(Value::Dict(es)->Dict_0 == es);
}

/// A list fits a depth when one container may still be opened and each
/// element fits what is left.
pub proof fn lemma_list_fits(l: Seq<Value>, depth: nat)
    ensures
        Value::List(l).fits(depth) <==> depth > 0 && forall|i: int|
            0 <= i < l.len() ==> (#[trigger] l[i]).fits((depth - 1) as nat),
{
    assert(Value::List(l)->List_0 == l);
}

/// A dictionary fits a depth when one container may still be opened and each
/// value fits what is left.
pub proof fn lemma_dict_fits(es: Entries, depth: nat)
    ensures
        Value::Dict(es).fits(depth) <==> depth > 0 && forall|i: int|
            0 <= i < es.len() ==> (#[trigger] es[i]).1.fits((depth - 1) as nat),
{
    assert(Value::Dict(es)->Dict_0 == es);
}

/// What fits a depth fits every greater depth.
pub proof fn lemma_fits_more(v: Value, depth: nat, more: nat)
    requires
        v.fits(depth),
        depth <= more,
    ensures
        v.fits(more),
    decreases v,
{
    match v {
        Value::List(l) => {
            lemma_list_fits(l, depth);
            lemma_list_fits(l, more);
            assert forall|i: int| 0 <= i < l.len() implies (#[trigger] l[i]).fits(
                (more - 1) as nat,
            ) by {
                lemma_fits_more(l[i], (depth - 1) as nat, (more - 1) as nat);
            }
        },
        Value::Dict(es) => {
            lemma_dict_fits(es, depth);
            lemma_dict_fits(es, more);
            assert forall|i: int| 0 <= i < es.len() implies (#[trigger] es[i]).1.fits(
                (more - 1) as nat,
            ) by {
                lemma_fits_more(es[i].1, (depth - 1) as nat, (more - 1) as nat);
            }
        },
        _ => {},
    }
}

/// The elements of a list all fit one depth.
pub proof fn lemma_items_fit(l: Seq<Value>) -> (depth: nat)
    ensures
        forall|i: int| 0 <= i < l.len() ==> (#[trigger] l[i]).fits(depth),
    decreases l, 0nat,
{
    if l.len() == 0 {
        0
    } else {
        let front = l.drop_last();
        let a = lemma_items_fit(front);
        let b = lemma_value_fits(l.last());
        let depth = if a < b {
            b
        } else {
            a
        };
        assert forall|i: int| 0 <= i < l.len() implies (#[trigger] l[i]).fits(depth) by {
            if i < front.len() {
                assert(front[i] == l[i]);
                lemma_fits_more(l[i], a, depth);
            } else {
                lemma_fits_more(l[i], b, depth);
            }
        }
        depth
    }
}

/// The values of a dictionary all fit one depth.
pub proof fn lemma_entries_fit(es: Entries) -> (depth: nat)
    ensures
        forall|i: int| 0 <= i < es.len() ==> (#[trigger] es[i]).1.fits(depth),
    decreases es, 0nat,
{
    if es.len() == 0 {
        0
    } else {
        let front = es.drop_last();
        let a = lemma_entries_fit(front);
        let b = lemma_value_fits(es.last().1);
        let depth = if a < b {
            b
        } else {
            a
        };
        assert forall|i: int| 0 <= i < es.len() implies (#[trigger] es[i]).1.fits(depth) by {
            if i < front.len() {
                assert(front[i] == es[i]);
                lemma_fits_more(es[i].1, a, depth);
            } else {
                lemma_fits_more(es[i].1, b, depth);
            }
        }
        depth
    }
}

/// Every value fits some depth.
pub proof fn lemma_value_fits(v: Value) -> (depth: nat)
    ensures
        v.fits(depth),
    decreases v, 1nat,
{
    match v {
        Value::List(l) => {
            let d = lemma_items_fit(l);
            lemma_list_fits(l, d + 1);
            d + 1
        },
        Value::Dict(es) => {
            let d = lemma_entries_fit(es);
            lemma_dict_fits(es, d + 1);
            d + 1
        },
        _ => 0,
    }
}

} // verus!
