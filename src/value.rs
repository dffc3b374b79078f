//! The value tree: what a parsed configuration source holds, and its
//! mathematical model.
use vstd::prelude::*;

verus! {

/// The kind of a configuration value, as named in type errors.
#[derive(Clone, Copy, Debug, PartialEq, Eq, Structural)]
pub enum Kind {
    Str,
    Int,
    Float,
    Bool,
    Array,
    Table,
}

/// Mathematical model of a configuration value.
pub enum Tree {
    Str(Seq<char>),
    Int(int),
    Float(u64),
    Bool(bool),
    Array(Seq<Tree>),
    Table(Seq<(Seq<char>, Tree)>),
}

/// A configuration value. A floating-point number is held as its IEEE-754
/// bit pattern; a table is a list of entries, looked up by the first entry
/// whose key matches.
#[derive(Debug)]
pub enum Value {
    Str(String),
    Int(i64),
    Float(u64),
    Bool(bool),
    Array(Vec<Value>),
    Table(Vec<(String, Value)>),
}

pub open spec fn kind_of(t: Tree) -> Kind {
    match t {
        Tree::Str(_) => Kind::Str,
        Tree::Int(_) => Kind::Int,
        Tree::Float(_) => Kind::Float,
        Tree::Bool(_) => Kind::Bool,
        Tree::Array(_) => Kind::Array,
        Tree::Table(_) => Kind::Table,
    }
}

pub open spec fn tree_of(v: Value) -> Tree
    decreases v,
    via tree_of_decreases
{
    match v {
        Value::Str(s) => Tree::Str(s@),
        Value::Int(i) => Tree::Int(i as int),
        Value::Float(b) => Tree::Float(b),
        Value::Bool(b) => Tree::Bool(b),
        Value::Array(items) => Tree::Array(
            Seq::new(
                items.len() as nat,
                |i: int|
                    if 0 <= i < items.len() {
                        tree_of(items[i])
                    } else {
                        Tree::Bool(false)
                    },
            ),
        ),
        Value::Table(es) => Tree::Table(
            Seq::new(
                es.len() as nat,
                |i: int|
                    if 0 <= i < es.len() {
                        (es[i].0@, tree_of(es[i].1))
                    } else {
                        (Seq::empty(), Tree::Bool(false))
                    },
            ),
        ),
    }
}

#[via_fn]
proof fn tree_of_decreases(v: Value) {
    broadcast use vstd::std_specs::vec::axiom_vec_index_decreases;

    match v {
        Value::Array(items) => {
            assert forall|i: int| 0 <= i < items.len() implies decreases_to!(v => items[i]) by {
                assert(decreases_to!(items => items[i]));
            }
        },
        Value::Table(es) => {
            assert forall|i: int| 0 <= i < es.len() implies decreases_to!(v => es[i].1) by {
                assert(decreases_to!(es => es[i]));
            }
        },
        _ => {},
    }
}

impl View for Value {
    type V = Tree;

    open spec fn view(&self) -> Tree {
        tree_of(*self)
    }
}

pub proof fn lemma_table_model(es: Vec<(String, Value)>)
    ensures
        Value::Table(es)@ == Tree::Table(table_view(es@)),
{
    assert(Value::Table(es)@->Table_0 =~= table_view(es@));
}

pub proof fn lemma_array_model(items: Vec<Value>)
    ensures
        Value::Array(items)@ == Tree::Array(items@.map_values(|v: Value| v@)),
{
    assert(Value::Array(items)@->Array_0 =~= items@.map_values(|v: Value| v@));
}

/// Model of a table's entries.
pub open spec fn table_view(es: Seq<(String, Value)>) -> Seq<(Seq<char>, Tree)> {
    Seq::new(es.len(), |i: int| (es[i].0@, es[i].1@))
}

pub open spec fn opt_view(r: Option<&Value>) -> Option<Tree> {
    match r {
        Some(v) => Some(v@),
        None => None,
    }
}

/// Entry `i` is the first one of the table whose key is `key`.
pub open spec fn is_first(es: Seq<(Seq<char>, Tree)>, key: Seq<char>, i: int) -> bool {
    &&& 0 <= i < es.len()
    &&& es[i].0 == key
    &&& forall|j: int| 0 <= j < i ==> es[j].0 != key
}

/// No two entries of the table have the same key.
pub open spec fn keys_unique(es: Seq<(Seq<char>, Tree)>) -> bool {
    forall|i: int, j: int| 0 <= i < j < es.len() ==> es[i].0 != es[j].0
}

/// The value that a table holds under `key`: that of its first entry with
/// this key.
pub open spec fn table_get(es: Seq<(Seq<char>, Tree)>, key: Seq<char>) -> Option<Tree> {
    if exists|i: int| is_first(es, key, i) {
        Some(es[choose|i: int| is_first(es, key, i)].1)
    } else {
        None
    }
}

pub proof fn lemma_first_unique(es: Seq<(Seq<char>, Tree)>, key: Seq<char>, i: int)
    requires
        is_first(es, key, i),
    ensures
        table_get(es, key) == Some(es[i].1),
{
    let c = choose|c: int| is_first(es, key, c);
    assert(c == i) by {
        if c < i {
            assert(es[c].0 == key);
        } else if i < c {
            assert(es[i].0 == key);
        }
    }
}

pub proof fn lemma_absent(es: Seq<(Seq<char>, Tree)>, key: Seq<char>)
    requires
        forall|j: int| 0 <= j < es.len() ==> es[j].0 != key,
    ensures
        table_get(es, key) is None,
{
}

impl Value {
    pub fn kind(&self) -> (k: Kind)
        ensures
            k == kind_of(self@),
    {
        match self {
            Value::Str(_) => Kind::Str,
            Value::Int(_) => Kind::Int,
            Value::Float(_) => Kind::Float,
            Value::Bool(_) => Kind::Bool,
            Value::Array(_) => Kind::Array,
            Value::Table(_) => Kind::Table,
        }
    }

    /// A deep copy, independent of `self`.
    pub fn duplicate(&self) -> (r: Value)
        ensures
            r@ == self@,
        decreases self,
    {
        match self {
            Value::Str(s) => Value::Str(s.clone()),
            Value::Int(i) => Value::Int(*i),
            Value::Float(b) => Value::Float(*b),
            Value::Bool(b) => Value::Bool(*b),
            Value::Array(items) => {
                let out = duplicate_items(items);
                let r = Value::Array(out);
                assert(r@->Array_0 =~= self@->Array_0);
                r
            },
            Value::Table(es) => {
                let out = duplicate_entries(es);
                proof {
                    lemma_table_model(out);
                    lemma_table_model(*es);
                }
                Value::Table(out)
            },
        }
    }
}

fn duplicate_items(items: &Vec<Value>) -> (out: Vec<Value>)
    ensures
        out@.len() == items@.len(),
        forall|j: int| 0 <= j < items@.len() ==> (#[trigger] out@[j])@ == items@[j]@,
    decreases items,
{
    let mut out: Vec<Value> = Vec::new();
    let mut i: usize = 0;
    while i < items.len()
        invariant
            i <= items.len(),
            out@.len() == i,
            forall|j: int| 0 <= j < i ==> (#[trigger] out@[j])@ == items@[j]@,
        decreases items.len() - i,
    {
        proof {
            broadcast use vstd::std_specs::vec::axiom_vec_index_decreases;

            assert(decreases_to!(*items => items[i as int]));
        }
        let c = items[i].duplicate();
        out.push(c);
        i = i + 1;
    }
    out
}

/// A deep copy of a table's entries, in the same order.
pub fn duplicate_entries(es: &Vec<(String, Value)>) -> (out: Vec<(String, Value)>)
    ensures
        table_view(out@) == table_view(es@),
    decreases es,
{
    let mut out: Vec<(String, Value)> = Vec::new();
    let mut i: usize = 0;
    while i < es.len()
        invariant
            i <= es.len(),
            out@.len() == i,
            forall|j: int|
                0 <= j < i ==> (#[trigger] out@[j]).0@ == es@[j].0@ && out@[j].1@ == es@[j].1@,
        decreases es.len() - i,
    {
        proof {
            broadcast use vstd::std_specs::vec::axiom_vec_index_decreases;

            assert(decreases_to!(*es => es[i as int]));
        }
        let c = es[i].1.duplicate();
        out.push((es[i].0.clone(), c));
        i = i + 1;
    }
    assert(table_view(out@) =~= table_view(es@));
    out
}

/// The value of the first entry of `es` whose key is `key`.
pub fn find_entry<'a>(es: &'a Vec<(String, Value)>, key: &String) -> (r: Option<&'a Value>)
    ensures
        opt_view(r) == table_get(table_view(es@), key@),
{
    let ghost t = table_view(es@);
    let mut i: usize = 0;
    while i < es.len()
        invariant
            i <= es.len(),
            t == table_view(es@),
            forall|j: int| 0 <= j < i ==> t[j].0 != key@,
        decreases es.len() - i,
    {
        if es[i].0 == *key {
            proof {
                assert(is_first(t, key@, i as int));
                lemma_first_unique(t, key@, i as int);
            }
            return Some(&es[i].1);
        }
        i = i + 1;
    }
    proof {
        lemma_absent(t, key@);
    }
    None
}

/// Sets `key` to `v`: the first entry with this key gets the new value, or
/// a new entry is appended.
pub fn insert_entry(es: &mut Vec<(String, Value)>, key: String, v: Value)
    ensures
        keys_unique(table_view(old(es)@)) ==> keys_unique(table_view(final(es)@)),
        forall|k: Seq<char>|
            #[trigger] table_get(table_view(final(es)@), k) == if k == key@ {
                Some(v@)
            } else {
                table_get(table_view(old(es)@), k)
            },
{
    let ghost t0 = table_view(es@);
    let ghost kv = key@;
    let ghost vv = v@;
    let mut i: usize = 0;
    while i < es.len()
        invariant
            i <= es.len(),
            t0 == table_view(es@),
            es@ == old(es)@,
            kv == key@,
            vv == v@,
            forall|j: int| 0 <= j < i ==> t0[j].0 != kv,
        decreases es.len() - i,
    {
        let same = es[i].0 == key;
        if same {
            let ghost before = es@;
            es.set(i, (key, v));
            proof {
                let t1 = table_view(es@);
                assert(es@ == before.update(i as int, (key, v)));
                assert(forall|j: int| 0 <= j < t1.len() ==> t1[j].0 == #[trigger] t0[j].0);
                assert(keys_unique(t0) ==> keys_unique(t1)) by {
                    if keys_unique(t0) {
                        assert forall|a: int, b: int| 0 <= a < b < t1.len() implies t1[a].0 != t1[b].0 by {
                            assert(t0[a].0 != t0[b].0);
                        }
                    }
                }
                assert forall|j: int| 0 <= j < t1.len() implies t1[j] == t0.update(i as int, (kv, vv))[j] by {
                    if j == i {
                        assert(es@[j] == (key, v));
                    }
                }
                assert(t1 =~= t0.update(i as int, (kv, vv)));
                assert forall|k: Seq<char>|
                    #[trigger] table_get(t1, k) == if k == kv {
                        Some(vv)
                    } else {
                        table_get(t0, k)
                    } by {
                    if k == kv {
                        assert(is_first(t1, k, i as int));
                        lemma_first_unique(t1, k, i as int);
                    } else if exists|c: int| is_first(t0, k, c) {
                        let c = choose|c: int| is_first(t0, k, c);
                        assert(c != i);
                        assert(is_first(t1, k, c));
                        lemma_first_unique(t1, k, c);
                        lemma_first_unique(t0, k, c);
                    } else {
                        assert forall|j: int| 0 <= j < t1.len() implies t1[j].0 != k by {
                            if t1[j].0 == k {
                                assert(t0[j].0 == k);
                                if !is_first(t0, k, j) {
                                    let m = choose|m: int| 0 <= m < j && t0[m].0 == k;
                                    assert(false) by {
                                        lemma_min_match(t0, k, j);
                                    }
                                }
                            }
                        }
                    }
                }
            }
            return ;
        }
        assert(t0[i as int].0 == es@[i as int].0@);
        i = i + 1;
    }
    es.push((key, v));
    proof {
        let t1 = table_view(es@);
        assert(t1 =~= t0.push((kv, vv)));
        assert(keys_unique(t0) ==> keys_unique(t1)) by {
            assert(forall|j: int| 0 <= j < t0.len() ==> t1[j] == #[trigger] t0[j]);
        }
        assert forall|k: Seq<char>|
            #[trigger] table_get(t1, k) == if k == kv {
                Some(vv)
            } else {
                table_get(t0, k)
            } by {
            if k == kv {
                assert(is_first(t1, k, t0.len() as int));
                lemma_first_unique(t1, k, t0.len() as int);
            } else if exists|c: int| is_first(t0, k, c) {
                let c = choose|c: int| is_first(t0, k, c);
                assert(is_first(t1, k, c));
                lemma_first_unique(t1, k, c);
                lemma_first_unique(t0, k, c);
            } else {
                assert forall|j: int| 0 <= j < t1.len() implies t1[j].0 != k by {
                    if j < t0.len() && t1[j].0 == k {
                        lemma_min_match(t0, k, j);
                    }
                }
            }
        }
    }
}

/// A table that has an entry with `key` at `j` has a first such entry.
pub proof fn lemma_min_match(es: Seq<(Seq<char>, Tree)>, key: Seq<char>, j: int)
    requires
        0 <= j < es.len(),
        es[j].0 == key,
    ensures
        exists|i: int| is_first(es, key, i),
    decreases j,
{
    if !is_first(es, key, j) {
        let m = choose|m: int| 0 <= m < j && es[m].0 == key;
        lemma_min_match(es, key, m);
    }
}

} // verus!
