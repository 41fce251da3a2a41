//! Dynamic key/value context threaded through a chain.
//!
//! Two ownership disciplines share one semantics: [`Context`] is
//! value-oriented (`insert` consumes the context and returns the updated
//! one), [`ContextMutable`] updates in place through `&mut self`. Both are
//! modeled as a `Map<Seq<char>, Value>`; keys are unique, and `get` makes no
//! distinction between a missing key and a value of another shape.

use vstd::prelude::*;

verus! {

/// Self-describing dynamic value stored under a key: booleans, integers,
/// floating-point numbers (carried as IEEE-754 bit patterns, since the core
/// never computes with them), text, and nested arrays and objects.
#[derive(Debug, PartialEq)]
pub enum Value {
    Null,
    Bool(bool),
    Int(i64),
    /// Bit pattern of an IEEE-754 double; adapters convert at the boundary.
    Float(u64),
    Text(String),
    Arr(Vec<Value>),
    Obj(Vec<(String, Value)>),
}

/// The mapping that a sequence of entries denotes; a later entry for a key
/// shadows an earlier one (with unique keys nothing is ever shadowed).
spec fn entries_map(s: Seq<(String, Value)>) -> Map<Seq<char>, Value>
    decreases s.len(),
{
    if s.len() == 0 {
        Map::empty()
    } else {
        entries_map(s.drop_last()).insert(s.last().0@, s.last().1)
    }
}

spec fn unique_keys(s: Seq<(String, Value)>) -> bool {
    forall|i: int, j: int| 0 <= i < j < s.len() ==> s[i].0@ != s[j].0@
}

proof fn lemma_entries_map_contains(s: Seq<(String, Value)>, k: Seq<char>)
    ensures
        entries_map(s).contains_key(k) <==> exists|i: int| 0 <= i < s.len() && s[i].0@ == k,
    decreases s.len(),
{
    if s.len() > 0 {
        lemma_entries_map_contains(s.drop_last(), k);
        if s.last().0@ == k {
            assert(s[s.len() - 1].0@ == k);
        } else if entries_map(s).contains_key(k) {
            let i = choose|i: int| 0 <= i < s.drop_last().len() && s.drop_last()[i].0@ == k;
            assert(s[i].0@ == k);
        } else if exists|i: int| 0 <= i < s.len() && s[i].0@ == k {
            let i = choose|i: int| 0 <= i < s.len() && s[i].0@ == k;
            assert(s.drop_last()[i].0@ == k);
        }
    }
}

proof fn lemma_entries_map_at(s: Seq<(String, Value)>, i: int)
    requires
        unique_keys(s),
        0 <= i < s.len(),
    ensures
        entries_map(s).contains_key(s[i].0@),
        entries_map(s)[s[i].0@] == s[i].1,
    decreases s.len(),
{
    if i < s.len() - 1 {
        lemma_entries_map_at(s.drop_last(), i);
        assert(s.drop_last()[i] == s[i]);
        assert(s.last().0@ != s[i].0@);
    }
}

proof fn lemma_entries_map_remove(s: Seq<(String, Value)>, i: int)
    requires
        unique_keys(s),
        0 <= i < s.len(),
    ensures
        entries_map(s.remove(i)) == entries_map(s).remove(s[i].0@),
    decreases s.len(),
{
    let k = s[i].0@;
    if i == s.len() - 1 {
        assert(s.remove(i) =~= s.drop_last());
        lemma_entries_map_contains(s.drop_last(), k);
        assert forall|j: int| 0 <= j < s.drop_last().len() implies s.drop_last()[j].0@ != k by {
            assert(s[j].0@ != s[i].0@);
        }
        assert(!entries_map(s.drop_last()).contains_key(k));
        assert(entries_map(s.remove(i)) =~= entries_map(s).remove(k));
    } else {
        lemma_entries_map_remove(s.drop_last(), i);
        assert(s.remove(i).drop_last() =~= s.drop_last().remove(i));
        assert(s.remove(i).last() == s.last());
        assert(s.last().0@ != k);
        assert(entries_map(s.remove(i)) =~= entries_map(s).remove(k));
    }
}

/// Index of the entry holding `key`, if one exists.
fn table_lookup(entries: &Vec<(String, Value)>, key: &String) -> (r: Option<usize>)
    ensures
        match r {
            Some(i) => i < entries@.len() && entries@[i as int].0@ == key@,
            None => forall|j: int| 0 <= j < entries@.len() ==> entries@[j].0@ != key@,
        },
{
    let mut i: usize = 0;
    while i < entries.len()
        invariant
            i <= entries@.len(),
            forall|j: int| 0 <= j < i ==> entries@[j].0@ != key@,
        decreases entries@.len() - i,
    {
        if entries[i].0 == *key {
            return Some(i);
        }
        i += 1;
    }
    None
}

/// Stores `value` under `key`, overwriting any entry already holding `key`.
fn table_insert(entries: &mut Vec<(String, Value)>, key: String, value: Value)
    requires
        unique_keys(old(entries)@),
    ensures
        unique_keys(final(entries)@),
        entries_map(final(entries)@) == entries_map(old(entries)@).insert(key@, value),
{
    let ghost s0 = entries@;
    match table_lookup(entries, &key) {
        Some(i) => {
            proof {
                lemma_entries_map_remove(s0, i as int);
            }
            entries.remove(i);
            proof {
                assert forall|a: int, b: int|
                    0 <= a < b < entries@.len() implies entries@[a].0@ != entries@[b].0@ by {
                    if b < i as int {
                        assert(s0[a].0@ != s0[b].0@);
                    } else if a < i as int {
                        assert(s0[a].0@ != s0[b + 1].0@);
                    } else {
                        assert(s0[a + 1].0@ != s0[b + 1].0@);
                    }
                }
                assert forall|j: int| 0 <= j < entries@.len() implies entries@[j].0@ != key@ by {
                    if j < i as int {
                        assert(s0[j].0@ != s0[i as int].0@);
                    } else {
                        assert(s0[i as int].0@ != s0[j + 1].0@);
                    }
                }
            }
            let ghost s1 = entries@;
            entries.push((key, value));
            proof {
                assert(entries@.drop_last() =~= s1);
                assert(entries_map(entries@) =~= entries_map(s0).insert(entries@.last().0@, value));
            }
        },
        None => {
            entries.push((key, value));
            proof {
                assert(entries@.drop_last() =~= s0);
            }
        },
    }
}

/// The value stored under `key`, if any.
fn table_get<'a>(entries: &'a Vec<(String, Value)>, key: &String) -> (r: Option<&'a Value>)
    requires
        unique_keys(entries@),
    ensures
        match r {
            Some(v) => entries_map(entries@).contains_key(key@) && *v == entries_map(entries@)[key@],
            None => !entries_map(entries@).contains_key(key@),
        },
{
    match table_lookup(entries, key) {
        Some(i) => {
            proof {
                lemma_entries_map_at(entries@, i as int);
            }
            Some(&entries[i].1)
        },
        None => {
            proof {
                lemma_entries_map_contains(entries@, key@);
            }
            None
        },
    }
}

/// What a typed boolean lookup observes: absent keys and values of another
/// shape are the same `None`.
pub open spec fn spec_get_bool(m: Map<Seq<char>, Value>, k: Seq<char>) -> Option<bool> {
    if m.contains_key(k) {
        match m[k] {
            Value::Bool(b) => Some(b),
            _ => None,
        }
    } else {
        None
    }
}

/// What a typed integer lookup observes.
pub open spec fn spec_get_i64(m: Map<Seq<char>, Value>, k: Seq<char>) -> Option<i64> {
    if m.contains_key(k) {
        match m[k] {
            Value::Int(x) => Some(x),
            _ => None,
        }
    } else {
        None
    }
}

/// What a typed text lookup observes.
pub open spec fn spec_get_text(m: Map<Seq<char>, Value>, k: Seq<char>) -> Option<Seq<char>> {
    if m.contains_key(k) {
        match m[k] {
            Value::Text(t) => Some(t@),
            _ => None,
        }
    } else {
        None
    }
}

/// A typed lookup cannot tell a missing key from a key holding a value of
/// another shape: both observe the same `None`, for every context, every
/// missing key, and every key whose value does not have the requested shape.
pub proof fn lemma_miss_absent_equivalence(
    m: Map<Seq<char>, Value>,
    missing: Seq<char>,
    other: Seq<char>,
)
    requires
        !m.contains_key(missing),
        m.contains_key(other),
    ensures
        spec_get_i64(m, missing) is None,
        spec_get_bool(m, missing) is None,
        spec_get_text(m, missing) is None,
        !(m[other] is Int) ==> spec_get_i64(m, other) == spec_get_i64(m, missing),
        !(m[other] is Bool) ==> spec_get_bool(m, other) == spec_get_bool(m, missing),
        !(m[other] is Text) ==> spec_get_text(m, other) == spec_get_text(m, missing),
{
}

/// Value-semantics context: `insert` returns a new context and leaves the
/// original untouched.
#[derive(Debug)]
pub struct Context {
    entries: Vec<(String, Value)>,
}

impl View for Context {
    type V = Map<Seq<char>, Value>;

    closed spec fn view(&self) -> Map<Seq<char>, Value> {
        entries_map(self.entries@)
    }
}

impl Context {
    #[verifier::type_invariant]
    spec fn inv(self) -> bool {
        unique_keys(self.entries@)
    }

    /// An empty context.
    pub fn new() -> (c: Context)
        ensures
            c@ == Map::<Seq<char>, Value>::empty(),
    {
        Context { entries: Vec::new() }
    }

    /// Stores `value` under `key`, overwriting any prior value, and returns
    /// the updated context.
    pub fn insert(self, key: &str, value: Value) -> (r: Context)
        ensures
            r@ == self@.insert(key@, value),
    {
        proof {
            use_type_invariant(&self);
        }
        let Context { mut entries } = self;
        table_insert(&mut entries, key.to_owned(), value);
        Context { entries }
    }

    /// The value stored under `key`, if any.
    pub fn get<'a>(&'a self, key: &str) -> (r: Option<&'a Value>)
        ensures
            match r {
                Some(v) => self@.contains_key(key@) && *v == self@[key@],
                None => !self@.contains_key(key@),
            },
    {
        proof {
            use_type_invariant(&*self);
        }
        table_get(&self.entries, &key.to_owned())
    }

    /// The boolean stored under `key`; `None` both when the key is absent and
    /// when it holds a value of another shape.
    pub fn get_bool(&self, key: &str) -> (r: Option<bool>)
        ensures
            r == spec_get_bool(self@, key@),
    {
        match self.get(key) {
            Some(Value::Bool(b)) => Some(*b),
            _ => None,
        }
    }

    /// The integer stored under `key`; `None` both when the key is absent and
    /// when it holds a value of another shape.
    pub fn get_i64(&self, key: &str) -> (r: Option<i64>)
        ensures
            r == spec_get_i64(self@, key@),
    {
        match self.get(key) {
            Some(Value::Int(x)) => Some(*x),
            _ => None,
        }
    }

    /// The text stored under `key`; `None` both when the key is absent and
    /// when it holds a value of another shape.
    pub fn get_str<'a>(&'a self, key: &str) -> (r: Option<&'a str>)
        ensures
            match r {
                Some(s) => spec_get_text(self@, key@) == Some(s@),
                None => spec_get_text(self@, key@) is None,
            },
    {
        match self.get(key) {
            Some(Value::Text(t)) => Some(t.as_str()),
            _ => None,
        }
    }

    /// The stored pairs, one per key, in no significant order: every listed
    /// pair is in the mapping, keys are not repeated, and every key of the
    /// mapping is listed.
    pub fn entries(&self) -> (r: &Vec<(String, Value)>)
        ensures
            forall|i: int|
                0 <= i < r@.len() ==> self@.contains_key((#[trigger] r@[i]).0@) && self@[r@[i].0@]
                    == r@[i].1,
            forall|i: int, j: int| 0 <= i < j < r@.len() ==> r@[i].0@ != r@[j].0@,
            forall|k: Seq<char>|
                #[trigger] self@.contains_key(k) ==> exists|i: int|
                    0 <= i < r@.len() && (#[trigger] r@[i]).0@ == k,
    {
        proof {
            use_type_invariant(&*self);
            assert forall|i: int| 0 <= i < self.entries@.len() implies entries_map(
                self.entries@,
            ).contains_key((#[trigger] self.entries@[i]).0@) && entries_map(self.entries@)[self.entries@[i].0@]
                == self.entries@[i].1 by {
                lemma_entries_map_at(self.entries@, i);
            }
            assert forall|k: Seq<char>| #[trigger] entries_map(self.entries@).contains_key(k)
                implies exists|i: int|
                0 <= i < self.entries@.len() && (#[trigger] self.entries@[i]).0@ == k by {
                lemma_entries_map_contains(self.entries@, k);
            }
        }
        &self.entries
    }
}

impl Default for Context {
    fn default() -> (c: Context)
        ensures
            c@ == Map::<Seq<char>, Value>::empty(),
    {
        Context::new()
    }
}

/// Reference-semantics context: `insert` mutates in place through an
/// exclusive borrow; the caller owns the single live copy.
#[derive(Debug)]
pub struct ContextMutable {
    entries: Vec<(String, Value)>,
}

impl View for ContextMutable {
    type V = Map<Seq<char>, Value>;

    closed spec fn view(&self) -> Map<Seq<char>, Value> {
        entries_map(self.entries@)
    }
}

impl ContextMutable {
    #[verifier::type_invariant]
    spec fn inv(self) -> bool {
        unique_keys(self.entries@)
    }

    /// An empty context.
    pub fn new() -> (c: ContextMutable)
        ensures
            c@ == Map::<Seq<char>, Value>::empty(),
    {
        ContextMutable { entries: Vec::new() }
    }

    /// Stores `value` under `key` in place, overwriting any prior value.
    pub fn insert(&mut self, key: &str, value: Value)
        ensures
            final(self)@ == old(self)@.insert(key@, value),
    {
        proof {
            use_type_invariant(&*self);
        }
        let mut entries = Vec::new();
        std::mem::swap(&mut entries, &mut self.entries);
        table_insert(&mut entries, key.to_owned(), value);
        std::mem::swap(&mut entries, &mut self.entries);
    }

    /// The value stored under `key`, if any.
    pub fn get<'a>(&'a self, key: &str) -> (r: Option<&'a Value>)
        ensures
            match r {
                Some(v) => self@.contains_key(key@) && *v == self@[key@],
                None => !self@.contains_key(key@),
            },
    {
        proof {
            use_type_invariant(&*self);
        }
        table_get(&self.entries, &key.to_owned())
    }

    /// The boolean stored under `key`; `None` both when the key is absent and
    /// when it holds a value of another shape.
    pub fn get_bool(&self, key: &str) -> (r: Option<bool>)
        ensures
            r == spec_get_bool(self@, key@),
    {
        match self.get(key) {
            Some(Value::Bool(b)) => Some(*b),
            _ => None,
        }
    }

    /// The integer stored under `key`; `None` both when the key is absent and
    /// when it holds a value of another shape.
    pub fn get_i64(&self, key: &str) -> (r: Option<i64>)
        ensures
            r == spec_get_i64(self@, key@),
    {
        match self.get(key) {
            Some(Value::Int(x)) => Some(*x),
            _ => None,
        }
    }

    /// The text stored under `key`; `None` both when the key is absent and
    /// when it holds a value of another shape.
    pub fn get_str<'a>(&'a self, key: &str) -> (r: Option<&'a str>)
        ensures
            match r {
                Some(s) => spec_get_text(self@, key@) == Some(s@),
                None => spec_get_text(self@, key@) is None,
            },
    {
        match self.get(key) {
            Some(Value::Text(t)) => Some(t.as_str()),
            _ => None,
        }
    }

    /// The stored pairs, one per key, in no significant order: every listed
    /// pair is in the mapping, keys are not repeated, and every key of the
    /// mapping is listed.
    pub fn entries(&self) -> (r: &Vec<(String, Value)>)
        ensures
            forall|i: int|
                0 <= i < r@.len() ==> self@.contains_key((#[trigger] r@[i]).0@) && self@[r@[i].0@]
                    == r@[i].1,
            forall|i: int, j: int| 0 <= i < j < r@.len() ==> r@[i].0@ != r@[j].0@,
            forall|k: Seq<char>|
                #[trigger] self@.contains_key(k) ==> exists|i: int|
                    0 <= i < r@.len() && (#[trigger] r@[i]).0@ == k,
    {
        proof {
            use_type_invariant(&*self);
            assert forall|i: int| 0 <= i < self.entries@.len() implies entries_map(
                self.entries@,
            ).contains_key((#[trigger] self.entries@[i]).0@) && entries_map(self.entries@)[self.entries@[i].0@]
                == self.entries@[i].1 by {
                lemma_entries_map_at(self.entries@, i);
            }
            assert forall|k: Seq<char>| #[trigger] entries_map(self.entries@).contains_key(k)
                implies exists|i: int|
                0 <= i < self.entries@.len() && (#[trigger] self.entries@[i]).0@ == k by {
                lemma_entries_map_contains(self.entries@, k);
            }
        }
        &self.entries
    }
}

impl Default for ContextMutable {
    fn default() -> (c: ContextMutable)
        ensures
            c@ == Map::<Seq<char>, Value>::empty(),
    {
        ContextMutable::new()
    }
}

} // verus!
