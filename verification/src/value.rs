//! The document model: JSON values, the objects inside them, and the
//! mathematical view that every contract in this crate is stated over.

use crate::rank::{
    float_rank, integer_rank, rank_of_float, rank_of_integer, rank_of_natural,
};
use vstd::prelude::*;
use vstd::std_specs::cmp::PartialEqSpecImpl;

verus! {

/// Mathematical view of a number: an integer, or a floating value by its
/// bits.
pub enum NumberView {
    Integer { value: int },
    Float { bits: u64 },
}

impl NumberView {
    /// The integer that the number stands for, if it is written as one.
    pub open spec fn exact(self) -> Option<int> {
        match self {
            NumberView::Integer { value } => Some(value),
            NumberView::Float { .. } => None,
        }
    }

    /// The rank of the number's floating value: two numbers' floating values
    /// compare as their ranks do. For an integer it is the rank of the
    /// floating value nearest to it.
    pub open spec fn rank(self) -> int {
        match self {
            NumberView::Integer { value } => integer_rank(value),
            NumberView::Float { bits } => float_rank(bits),
        }
    }

    /// The number as a signed 64-bit integer, where it is one.
    pub open spec fn as_i64(self) -> Option<i64> {
        match self {
            NumberView::Integer { value } => if i64::MIN <= value <= i64::MAX {
                Some(value as i64)
            } else {
                None
            },
            NumberView::Float { .. } => None,
        }
    }
}

/// Mathematical view of a document: a tree of the six kinds of JSON value.
/// An object is a map from keys to values, so the order of its keys does not
/// take part in equality.
#[verifier::ext_equal]
pub enum Json {
    Null,
    Bool(bool),
    Number(NumberView),
    String(Seq<char>),
    Array(Seq<Json>),
    Object(Map<Seq<char>, Json>),
}

impl Json {
    /// The value under `key`, where `self` is an object that holds the key.
    pub open spec fn get(self, key: Seq<char>) -> Option<Json> {
        match self {
            Json::Object(m) => if m.contains_key(key) {
                Some(m[key])
            } else {
                None
            },
            _ => None,
        }
    }

    /// The value as a signed 64-bit integer, where it is a number that is one.
    pub open spec fn as_i64(self) -> Option<i64> {
        match self {
            Json::Number(n) => n.as_i64(),
            _ => None,
        }
    }
}

/// The ordered fields of an object: key and value, in insertion order.
pub type Fields = Seq<(Seq<char>, Json)>;

/// No key occurs twice among the fields.
pub open spec fn distinct_keys(f: Fields) -> bool {
    forall|i: int, j: int| 0 <= i < j < f.len() ==> f[i].0 != f[j].0
}

/// `i` is a position of `key` among the fields.
pub open spec fn is_key_at(f: Fields, key: Seq<char>, i: int) -> bool {
    0 <= i < f.len() && f[i].0 == key
}

/// The map that a list of fields stands for. A later field overrides an
/// earlier one with the same key.
pub open spec fn fields_map(f: Fields) -> Map<Seq<char>, Json>
    decreases f.len(),
{
    if f.len() == 0 {
        Map::empty()
    } else {
        fields_map(f.drop_last()).insert(f.last().0, f.last().1)
    }
}

/// What `fields_map` holds: its keys are the keys of the fields, and where no
/// key occurs twice each field's value is found under its key.
pub proof fn lemma_fields_map(f: Fields)
    ensures
        fields_map(f).dom().finite(),
        forall|k: Seq<char>| #[trigger]
            fields_map(f).contains_key(k) <==> exists|i: int| is_key_at(f, k, i),
        distinct_keys(f) ==> fields_map(f).dom().len() == f.len(),
        distinct_keys(f) ==> forall|i: int|
            0 <= i < f.len() ==> #[trigger] fields_map(f)[f[i].0] == f[i].1,
    decreases f.len(),
{
    if f.len() > 0 {
        let p = f.drop_last();
        let last = f.last();
        lemma_fields_map(p);
        assert forall|k: Seq<char>| #[trigger] fields_map(f).contains_key(k) implies exists|i: int|
            is_key_at(f, k, i) by {
            if k == last.0 {
                assert(is_key_at(f, k, f.len() - 1));
            } else {
                assert(fields_map(p).contains_key(k));
                let i = choose|i: int| is_key_at(p, k, i);
                assert(is_key_at(f, k, i));
            }
        }
        assert forall|k: Seq<char>| (exists|i: int| is_key_at(f, k, i)) implies #[trigger]
            fields_map(f).contains_key(k) by {
            let i = choose|i: int| is_key_at(f, k, i);
            if i < f.len() - 1 {
                assert(is_key_at(p, k, i));
            }
        }
        if distinct_keys(f) {
            assert(distinct_keys(p));
            if fields_map(p).contains_key(last.0) {
                let i = choose|i: int| is_key_at(p, last.0, i);
                assert(f[i].0 == f[f.len() - 1].0);
            }
            assert forall|i: int| 0 <= i < f.len() implies #[trigger] fields_map(f)[f[i].0]
                == f[i].1 by {
                if i < f.len() - 1 {
                    assert(p[i] == f[i]);
                    assert(f[i].0 != f[f.len() - 1].0);
                }
            }
        }
    }
}

/// Appending a field inserts it into the map.
pub proof fn lemma_fields_map_push(f: Fields, key: Seq<char>, value: Json)
    ensures
        fields_map(f.push((key, value))) == fields_map(f).insert(key, value),
{
    assert(f.push((key, value)).drop_last() == f);
}

/// Replacing the value of the field at `i` inserts it into the map, where no
/// key occurs twice.
pub proof fn lemma_fields_map_update(f: Fields, i: int, value: Json)
    requires
        distinct_keys(f),
        0 <= i < f.len(),
    ensures
        distinct_keys(f.update(i, (f[i].0, value))),
        fields_map(f.update(i, (f[i].0, value))) == fields_map(f).insert(f[i].0, value),
{
    let g = f.update(i, (f[i].0, value));
    assert(distinct_keys(g)) by {
        assert forall|a: int, b: int| 0 <= a < b < g.len() implies g[a].0 != g[b].0 by {
            assert(g[a].0 == f[a].0);
            assert(g[b].0 == f[b].0);
        }
    }
    lemma_fields_map(f);
    lemma_fields_map(g);
    let lhs = fields_map(g);
    let rhs = fields_map(f).insert(f[i].0, value);
    assert forall|k: Seq<char>| lhs.contains_key(k) == rhs.contains_key(k) by {
        if lhs.contains_key(k) {
            let j = choose|j: int| is_key_at(g, k, j);
            assert(is_key_at(f, k, j));
        }
        if rhs.contains_key(k) {
            if k == f[i].0 {
                assert(is_key_at(g, k, i));
            } else {
                let j = choose|j: int| is_key_at(f, k, j);
                assert(is_key_at(g, k, j));
            }
        }
    }
    assert forall|k: Seq<char>| lhs.contains_key(k) implies lhs[k] == rhs[k] by {
        let j = choose|j: int| is_key_at(g, k, j);
        assert(lhs[g[j].0] == g[j].1);
        if j != i {
            assert(f[j].0 != f[i].0);
            assert(fields_map(f)[f[j].0] == f[j].1);
        }
    }
    assert(lhs =~= rhs);
}

/// A JSON number: an integer, or a floating value kept as the 64 bits of its
/// binary encoding.
///
/// This crate does no floating-point arithmetic. Numbers that are not both
/// signed 64-bit integers are ordered by the ranks of their floating values:
/// the rank of a floating value is read from its bits, and the rank of an
/// integer is that of the floating value nearest to it.
#[derive(Clone, Copy, Debug)]
pub enum Number {
    /// An integer that is not negative.
    PosInt(u64),
    /// An integer, negative as a rule.
    NegInt(i64),
    /// A floating value, by its bits.
    Float(u64),
}

impl View for Number {
    type V = NumberView;

    open spec fn view(&self) -> NumberView {
        match self {
            Number::PosInt(value) => NumberView::Integer { value: *value as int },
            Number::NegInt(value) => NumberView::Integer { value: *value as int },
            Number::Float(bits) => NumberView::Float { bits: *bits },
        }
    }
}

impl Number {
    /// The integer `value`.
    pub fn unsigned(value: u64) -> (r: Number)
        ensures
            r@ == (NumberView::Integer { value: value as int }),
    {
        Number::PosInt(value)
    }

    /// The integer `value`.
    pub fn signed(value: i64) -> (r: Number)
        ensures
            r@ == (NumberView::Integer { value: value as int }),
    {
        if value >= 0 {
            Number::PosInt(value as u64)
        } else {
            Number::NegInt(value)
        }
    }

    /// The floating value with these bits.
    pub fn float(bits: u64) -> (r: Number)
        ensures
            r@ == (NumberView::Float { bits }),
    {
        Number::Float(bits)
    }

    /// The rank of the number's floating value.
    pub fn rank(&self) -> (r: i64)
        ensures
            r == self@.rank(),
    {
        match self {
            Number::PosInt(value) => rank_of_natural(*value),
            Number::NegInt(value) => rank_of_integer(*value),
            Number::Float(bits) => rank_of_float(*bits),
        }
    }

    /// The number as a signed 64-bit integer, where it is one.
    pub fn as_i64(&self) -> (r: Option<i64>)
        ensures
            r == self@.as_i64(),
    {
        match self {
            Number::PosInt(value) => {
                if *value <= 0x7fff_ffff_ffff_ffff {
                    Some(*value as i64)
                } else {
                    None
                }
            },
            Number::NegInt(value) => Some(*value),
            Number::Float(_) => None,
        }
    }

    /// The bits of the floating value, where the number is one.
    pub fn float_bits(&self) -> (r: Option<u64>)
        ensures
            r == (match self@ {
                NumberView::Float { bits } => Some(bits),
                _ => None,
            }),
    {
        match self {
            Number::Float(bits) => Some(*bits),
            _ => None,
        }
    }

    /// Whether two numbers are the same number: the same integer, or
    /// floating values with the same bits.
    pub fn same(&self, other: &Number) -> (r: bool)
        ensures
            r == (self@ == other@),
    {
        match (self, other) {
            (Number::Float(a), Number::Float(b)) => *a == *b,
            (Number::PosInt(a), Number::PosInt(b)) => *a == *b,
            (Number::NegInt(a), Number::NegInt(b)) => *a == *b,
            (Number::PosInt(a), Number::NegInt(b)) => *b >= 0 && *a == *b as u64,
            (Number::NegInt(a), Number::PosInt(b)) => *a >= 0 && *b == *a as u64,
            _ => false,
        }
    }
}

/// One field of an object.
#[derive(Debug)]
struct Entry {
    key: String,
    value: Value,
}

/// A JSON object: fields in insertion order, no key twice.
#[derive(Debug)]
pub struct Object {
    entries: Vec<Entry>,
}

/// A JSON document.
#[derive(Debug)]
pub enum Value {
    Null,
    Bool(bool),
    Number(Number),
    String(String),
    Array(Vec<Value>),
    Object(Object),
}

/// The fields that a list of entries stands for.
spec fn entries_fields(s: Seq<Entry>) -> Fields
    decreases s,
{
    if s.len() == 0 {
        Seq::empty()
    } else {
        entries_fields(s.drop_last()).push((s.last().key@, s.last().value.view()))
    }
}

/// The views of a list of values.
pub open spec fn items_view(s: Seq<Value>) -> Seq<Json>
    decreases s,
{
    if s.len() == 0 {
        Seq::empty()
    } else {
        items_view(s.drop_last()).push(s.last().view())
    }
}

/// `entries_fields` keeps length and position.
proof fn lemma_entries_fields(s: Seq<Entry>)
    ensures
        entries_fields(s).len() == s.len(),
        forall|i: int|
            0 <= i < s.len() ==> #[trigger] entries_fields(s)[i] == (s[i].key@, s[i].value@),
    decreases s.len(),
{
    if s.len() > 0 {
        lemma_entries_fields(s.drop_last());
        assert(entries_fields(s) == entries_fields(s.drop_last()).push(
            (s.last().key@, s.last().value@),
        ));
    }
}

/// `items_view` keeps length and position.
pub proof fn lemma_items_view(s: Seq<Value>)
    ensures
        items_view(s).len() == s.len(),
        forall|i: int| 0 <= i < s.len() ==> #[trigger] items_view(s)[i] == s[i]@,
    decreases s.len(),
{
    if s.len() > 0 {
        lemma_items_view(s.drop_last());
        assert(items_view(s) == items_view(s.drop_last()).push(s.last()@));
    }
}

impl View for Value {
    type V = Json;

    open spec fn view(&self) -> Json
        decreases self,
    {
        match self {
            Value::Null => Json::Null,
            Value::Bool(b) => Json::Bool(*b),
            Value::Number(n) => Json::Number(n@),
            Value::String(s) => Json::String(s@),
            Value::Array(items) => Json::Array(items_view(items@)),
            Value::Object(o) => Json::Object(o@),
        }
    }
}

impl View for Object {
    type V = Map<Seq<char>, Json>;

    open spec fn view(&self) -> Map<Seq<char>, Json>
        decreases self, 1int,
    {
        fields_map(self.fields())
    }
}

impl Object {
    /// The fields of the object, in insertion order.
    pub closed spec fn fields(&self) -> Fields
        decreases self, 0int,
    {
        entries_fields(self.entries@)
    }

    /// No key occurs twice among the fields.
    #[verifier::type_invariant]
    spec fn inv(&self) -> bool {
        distinct_keys(entries_fields(self.entries@))
    }

    /// An object without fields.
    pub fn new() -> (r: Object)
        ensures
            r.fields() == Seq::<(Seq<char>, Json)>::empty(),
            r@ == Map::<Seq<char>, Json>::empty(),
    {
        Object { entries: Vec::new() }
    }

    /// The number of fields. No key occurs twice among them.
    pub fn len(&self) -> (n: usize)
        ensures
            n == self.fields().len(),
            distinct_keys(self.fields()),
            self@.dom().finite(),
            self@.dom().len() == n,
    {
        proof {
            use_type_invariant(self);
            lemma_entries_fields(self.entries@);
            lemma_fields_map(self.fields());
        }
        self.entries.len()
    }

    /// The key of the field at `i`.
    pub fn key_at(&self, i: usize) -> (k: &String)
        requires
            i < self.fields().len(),
        ensures
            k@ == self.fields()[i as int].0,
            self@.contains_key(k@),
    {
        proof {
            use_type_invariant(self);
            lemma_entries_fields(self.entries@);
            lemma_fields_map(self.fields());
            assert(is_key_at(self.fields(), self.fields()[i as int].0, i as int));
        }
        &self.entries[i].key
    }

    /// The value of the field at `i`.
    pub fn value_at(&self, i: usize) -> (v: &Value)
        requires
            i < self.fields().len(),
        ensures
            v@ == self.fields()[i as int].1,
            v@ == self@[self.fields()[i as int].0],
    {
        proof {
            use_type_invariant(self);
            lemma_entries_fields(self.entries@);
            lemma_fields_map(self.fields());
        }
        &self.entries[i].value
    }

    /// The position of `key` among the fields.
    pub fn index_of_key(&self, key: &String) -> (r: Option<usize>)
        ensures
            (match r {
                Some(i) => is_key_at(self.fields(), key@, i as int),
                None => forall|j: int| !is_key_at(self.fields(), key@, j),
            }),
            r is Some <==> self@.contains_key(key@),
    {
        proof {
            use_type_invariant(self);
            lemma_entries_fields(self.entries@);
            lemma_fields_map(self.fields());
        }
        let mut i: usize = 0;
        while i < self.entries.len()
            invariant
                i <= self.entries.len(),
                self.fields().len() == self.entries.len(),
                forall|j: int|
                    0 <= j < self.entries.len() ==> #[trigger] self.fields()[j] == (
                        self.entries@[j].key@,
                        self.entries@[j].value@,
                    ),
                forall|j: int| 0 <= j < i ==> !is_key_at(self.fields(), key@, j),
                self@.contains_key(key@) <==> exists|j: int| is_key_at(self.fields(), key@, j),
            decreases self.entries.len() - i,
        {
            if self.entries[i].key == *key {
                assert(is_key_at(self.fields(), key@, i as int));
                return Some(i);
            }
            i += 1;
        }
        None
    }

    /// The position of `key` among the fields.
    pub fn index_of(&self, key: &str) -> (r: Option<usize>)
        ensures
            (match r {
                Some(i) => is_key_at(self.fields(), key@, i as int),
                None => forall|j: int| !is_key_at(self.fields(), key@, j),
            }),
            r is Some <==> self@.contains_key(key@),
    {
        let wanted = key.to_owned();
        self.index_of_key(&wanted)
    }

    /// The value under `key`.
    pub fn get_key(&self, key: &String) -> (r: Option<&Value>)
        ensures
            view_of_ref(r) == Json::Object(self@).get(key@),
    {
        match self.index_of_key(key) {
            Some(i) => Some(self.value_at(i)),
            None => None,
        }
    }

    /// Whether the object holds `key`.
    pub fn contains_key(&self, key: &str) -> (r: bool)
        ensures
            r == self@.contains_key(key@),
    {
        self.index_of(key).is_some()
    }

    /// The value under `key`.
    pub fn get(&self, key: &str) -> (r: Option<&Value>)
        ensures
            view_of_ref(r) == Json::Object(self@).get(key@),
    {
        match self.index_of(key) {
            Some(i) => Some(self.value_at(i)),
            None => None,
        }
    }

    /// Puts `value` under `key`. A field that holds the key keeps its place
    /// and gets the new value; otherwise the field is added at the end.
    pub fn insert(&mut self, key: String, value: Value)
        ensures
            final(self)@ == old(self)@.insert(key@, value@),
            final(self).fields() == (if exists|i: int| is_key_at(old(self).fields(), key@, i) {
                old(self).fields().update(
                    choose|i: int| is_key_at(old(self).fields(), key@, i),
                    (key@, value@),
                )
            } else {
                old(self).fields().push((key@, value@))
            }),
    {
        match self.index_of_key(&key) {
            Some(i) => {
                let ghost w = choose|w: int| is_key_at(old(self).fields(), key@, w);
                proof {
                    use_type_invariant(&*self);
                }
                assert(w == i);
                let _ = self.replace_value(i, value);
            },
            None => {
                proof {
                    use_type_invariant(&*self);
                    lemma_entries_fields(self.entries@);
                    lemma_fields_map_push(self.fields(), key@, value@);
                }
                let ghost before = self.entries@;
                // The fields leave the object and come back as a whole: the
                // object is never seen with a key twice.
                let mut taken = Object::new();
                std::mem::swap(self, &mut taken);
                let mut entries = taken.entries;
                let entry = Entry { key, value };
                entries.push(entry);
                proof {
                    assert(entries@.drop_last() == before);
                    lemma_entries_fields(entries@);
                    lemma_entries_fields(before);
                    let f = entries_fields(entries@);
                    assert forall|a: int, b: int| 0 <= a < b < f.len() implies f[a].0 != f[b].0 by {
                        if b == f.len() - 1 {
                            assert(!is_key_at(entries_fields(before), key@, a));
                        } else {
                            assert(entries_fields(before)[a].0 != entries_fields(before)[b].0);
                        }
                    }
                }
                *self = Object { entries };
            },
        }
    }

    /// Puts `value` in the field at `i` and hands back the value that was
    /// there.
    pub fn replace_value(&mut self, i: usize, value: Value) -> (previous: Value)
        requires
            i < old(self).fields().len(),
        ensures
            previous@ == old(self).fields()[i as int].1,
            final(self).fields() == old(self).fields().update(
                i as int,
                (old(self).fields()[i as int].0, value@),
            ),
            final(self)@ == old(self)@.insert(old(self).fields()[i as int].0, value@),
    {
        proof {
            use_type_invariant(&*self);
            lemma_entries_fields(self.entries@);
            lemma_fields_map_update(self.fields(), i as int, value@);
        }
        let ghost before = self.entries@;
        let mut taken = Object::new();
        std::mem::swap(self, &mut taken);
        let mut entries = taken.entries;
        let mut slot = value;
        std::mem::swap(&mut entries[i].value, &mut slot);
        proof {
            lemma_entries_fields(entries@);
            assert(entries_fields(entries@) =~= entries_fields(before).update(
                i as int,
                (entries_fields(before)[i as int].0, value@),
            ));
        }
        *self = Object { entries };
        slot
    }

    /// Takes the items of the array in the field at `i` out of the object
    /// and leaves null in their place. A field that holds no array stays as
    /// it is, and its kind is handed back.
    pub fn take_array(&mut self, i: usize) -> (r: Result<Vec<Value>, Kind>)
        requires
            i < old(self).fields().len(),
        ensures
            (match r {
                Ok(items) => {
                    &&& old(self).fields()[i as int].1 == Json::Array(items_view(items@))
                    &&& final(self).fields() == old(self).fields().update(
                        i as int,
                        (old(self).fields()[i as int].0, Json::Null),
                    )
                    &&& final(self)@ == old(self)@.insert(
                        old(self).fields()[i as int].0,
                        Json::Null,
                    )
                },
                Err(kind) => {
                    &&& kind == old(self).fields()[i as int].1.kind()
                    &&& kind != Kind::Array
                    &&& final(self).fields() == old(self).fields()
                    &&& final(self)@ == old(self)@
                },
            }),
    {
        let ghost before = self.fields();
        match self.replace_value(i, Value::Null) {
            Value::Array(items) => Ok(items),
            other => {
                let kind = other.kind();
                let _ = self.replace_value(i, other);
                assert(self.fields() =~= before);
                Err(kind)
            },
        }
    }
}

impl Object {
    /// A copy of the object, field by field.
    pub fn duplicate(&self) -> (r: Object)
        ensures
            r.fields() == self.fields(),
            r@ == self@,
        decreases self,
    {
        proof {
            use_type_invariant(self);
            lemma_entries_fields(self.entries@);
        }
        let mut entries: Vec<Entry> = Vec::new();
        let mut i: usize = 0;
        while i < self.entries.len()
            invariant
                i <= self.entries.len(),
                entries.len() == i,
                forall|j: int|
                    0 <= j < i ==> entries@[j].key@ == self.entries@[j].key@ && entries@[j].value@
                        == self.entries@[j].value@,
            decreases self.entries.len() - i,
        {
            let key = self.entries[i].key.clone();
            let value = self.entries[i].value.duplicate();
            entries.push(Entry { key, value });
            i += 1;
        }
        proof {
            lemma_entries_fields(entries@);
            assert(entries_fields(entries@) =~= entries_fields(self.entries@));
        }
        Object { entries }
    }

    /// Whether two objects hold the same keys with the same values.
    pub fn same(&self, other: &Object) -> (r: bool)
        ensures
            r == (self@ == other@),
        decreases self,
    {
        let n = self.len();
        let m = other.len();
        if n != m {
            return false;
        }
        proof {
            use_type_invariant(self);
            lemma_entries_fields(self.entries@);
            lemma_fields_map(self.fields());
        }
        let mut i: usize = 0;
        while i < self.entries.len()
            invariant
                i <= self.entries.len(),
                self.fields().len() == self.entries.len(),
                distinct_keys(self.fields()),
                forall|j: int|
                    0 <= j < self.entries.len() ==> #[trigger] self.fields()[j] == (
                        self.entries@[j].key@,
                        self.entries@[j].value@,
                    ),
                forall|j: int|
                    0 <= j < self.entries.len() ==> #[trigger] self@[self.fields()[j].0]
                        == self.fields()[j].1,
                forall|k: Seq<char>| #[trigger]
                    self@.contains_key(k) <==> exists|j: int| is_key_at(self.fields(), k, j),
                forall|j: int|
                    0 <= j < i ==> other@.contains_key(#[trigger] self.fields()[j].0)
                        && other@[self.fields()[j].0] == self.fields()[j].1,
            decreases self.entries.len() - i,
        {
            let key = &self.entries[i].key;
            assert(is_key_at(self.fields(), key@, i as int));
            match other.get(key.as_str()) {
                None => {
                    return false;
                },
                Some(theirs) => {
                    if !self.entries[i].value.same(theirs) {
                        assert(self@[self.fields()[i as int].0] == self.fields()[i as int].1);
                        return false;
                    }
                },
            }
            i += 1;
        }
        proof {
            assert forall|k: Seq<char>| self@.contains_key(k) implies other@.contains_key(k)
                && self@[k] == other@[k] by {
                let j = choose|j: int| is_key_at(self.fields(), k, j);
                assert(other@.contains_key(self.fields()[j].0));
                assert(self@[self.fields()[j].0] == self.fields()[j].1);
            }
            assert(self@.dom().subset_of(other@.dom()));
            vstd::set_lib::lemma_subset_equality(self@.dom(), other@.dom());
            assert(self@ =~= other@);
        }
        true
    }
}

impl Value {
    /// A copy of the document.
    pub fn duplicate(&self) -> (r: Value)
        ensures
            r@ == self@,
        decreases self,
    {
        match self {
            Value::Null => Value::Null,
            Value::Bool(b) => Value::Bool(*b),
            Value::Number(n) => Value::Number(*n),
            Value::String(s) => Value::String(s.clone()),
            Value::Array(items) => {
                let mut copy: Vec<Value> = Vec::new();
                let mut i: usize = 0;
                while i < items.len()
                    invariant
                        i <= items.len(),
                        copy.len() == i,
                        decreases_to!(self => items),
                        forall|j: int| 0 <= j < i ==> copy@[j]@ == items@[j]@,
                    decreases items.len() - i,
                {
                    copy.push(items[i].duplicate());
                    i += 1;
                }
                proof {
                    lemma_items_view(copy@);
                    lemma_items_view(items@);
                    assert(items_view(copy@) =~= items_view(items@));
                }
                Value::Array(copy)
            },
            Value::Object(o) => Value::Object(o.duplicate()),
        }
    }

    /// Whether two documents are the same: equal scalars, arrays equal item
    /// by item, objects with the same keys and the same values under them.
    pub fn same(&self, other: &Value) -> (r: bool)
        ensures
            r == (self@ == other@),
        decreases self,
    {
        match (self, other) {
            (Value::Null, Value::Null) => true,
            (Value::Bool(a), Value::Bool(b)) => *a == *b,
            (Value::Number(a), Value::Number(b)) => a.same(b),
            (Value::String(a), Value::String(b)) => *a == *b,
            (Value::Array(a), Value::Array(b)) => {
                proof {
                    lemma_items_view(a@);
                    lemma_items_view(b@);
                }
                if a.len() != b.len() {
                    return false;
                }
                let mut i: usize = 0;
                while i < a.len()
                    invariant
                        i <= a.len(),
                        a.len() == b.len(),
                        decreases_to!(self => a),
                        self@ == Json::Array(items_view(a@)),
                        other@ == Json::Array(items_view(b@)),
                        items_view(a@).len() == a.len(),
                        items_view(b@).len() == b.len(),
                        forall|j: int| 0 <= j < a.len() ==> #[trigger] items_view(a@)[j] == a@[j]@,
                        forall|j: int| 0 <= j < b.len() ==> #[trigger] items_view(b@)[j] == b@[j]@,
                        forall|j: int| 0 <= j < i ==> a@[j]@ == b@[j]@,
                    decreases a.len() - i,
                {
                    if !a[i].same(&b[i]) {
                        assert(items_view(a@)[i as int] != items_view(b@)[i as int]);
                        return false;
                    }
                    i += 1;
                }
                assert(items_view(a@) =~= items_view(b@));
                true
            },
            (Value::Object(a), Value::Object(b)) => a.same(b),
            _ => false,
        }
    }
}


/// The view of a document that may be absent.
pub open spec fn view_of(value: Option<Value>) -> Option<Json> {
    match value {
        Some(v) => Some(v@),
        None => None,
    }
}

/// The view of a borrowed document that may be absent.
pub open spec fn view_of_ref(value: Option<&Value>) -> Option<Json> {
    match value {
        Some(v) => Some(v@),
        None => None,
    }
}

/// The characters of a text that may be absent.
pub open spec fn text_of(text: Option<&str>) -> Option<Seq<char>> {
    match text {
        Some(t) => Some(t@),
        None => None,
    }
}

/// Takes the item at `i` out of `items` and leaves null in its place.
pub fn take_item(items: &mut Vec<Value>, i: usize) -> (taken: Value)
    requires
        i < old(items).len(),
    ensures
        taken == old(items)@[i as int],
        final(items)@ == old(items)@.update(i as int, Value::Null),
{
    let mut slot = Value::Null;
    std::mem::swap(&mut items[i], &mut slot);
    slot
}

/// Puts `value` at `i` of `items`, in place of what stood there.
pub fn put_item(items: &mut Vec<Value>, i: usize, value: Value)
    requires
        i < old(items).len(),
    ensures
        final(items)@ == old(items)@.update(i as int, value),
{
    let mut slot = value;
    std::mem::swap(&mut items[i], &mut slot);
}

/// The six kinds of JSON value.
#[derive(Clone, Copy, Debug, PartialEq, Eq, Structural)]
pub enum Kind {
    Null,
    Bool,
    Number,
    String,
    Array,
    Object,
}

impl Json {
    /// The kind of the value.
    pub open spec fn kind(self) -> Kind {
        match self {
            Json::Null => Kind::Null,
            Json::Bool(_) => Kind::Bool,
            Json::Number(_) => Kind::Number,
            Json::String(_) => Kind::String,
            Json::Array(_) => Kind::Array,
            Json::Object(_) => Kind::Object,
        }
    }
}

impl Kind {
    /// The name of the kind in messages.
    pub open spec fn name_spec(self) -> Seq<char> {
        match self {
            Kind::Null => "null"@,
            Kind::Bool => "boolean"@,
            Kind::Number => "number"@,
            Kind::String => "string"@,
            Kind::Array => "array"@,
            Kind::Object => "object"@,
        }
    }

    /// The name of the kind in messages.
    pub fn name(self) -> (r: &'static str)
        ensures
            r@ == self.name_spec(),
    {
        match self {
            Kind::Null => "null",
            Kind::Bool => "boolean",
            Kind::Number => "number",
            Kind::String => "string",
            Kind::Array => "array",
            Kind::Object => "object",
        }
    }
}

/// The name of a value's kind in messages.
pub fn value_type_name(value: &Value) -> (r: &'static str)
    ensures
        r@ == value@.kind().name_spec(),
{
    value.kind().name()
}

impl Value {
    /// The kind of the value.
    pub fn kind(&self) -> (r: Kind)
        ensures
            r == self@.kind(),
    {
        match self {
            Value::Null => Kind::Null,
            Value::Bool(_) => Kind::Bool,
            Value::Number(_) => Kind::Number,
            Value::String(_) => Kind::String,
            Value::Array(_) => Kind::Array,
            Value::Object(_) => Kind::Object,
        }
    }

    /// Whether the value is an object.
    pub fn is_object(&self) -> (r: bool)
        ensures
            r == (self@ is Object),
    {
        match self {
            Value::Object(_) => true,
            _ => false,
        }
    }

    /// Whether the value is an array.
    pub fn is_array(&self) -> (r: bool)
        ensures
            r == (self@ is Array),
    {
        match self {
            Value::Array(_) => true,
            _ => false,
        }
    }

    /// The object that the value is, if it is one.
    pub fn as_object(&self) -> (r: Option<&Object>)
        ensures
            (match r {
                Some(o) => self@ == Json::Object(o@),
                None => !(self@ is Object),
            }),
    {
        match self {
            Value::Object(o) => Some(o),
            _ => None,
        }
    }

    /// The items of the array that the value is, if it is one.
    pub fn as_array(&self) -> (r: Option<&Vec<Value>>)
        ensures
            (match r {
                Some(items) => self@ == Json::Array(items_view(items@)),
                None => !(self@ is Array),
            }),
    {
        match self {
            Value::Array(items) => Some(items),
            _ => None,
        }
    }

    /// The value under `key`, where `self` is an object that holds the key.
    pub fn get(&self, key: &str) -> (r: Option<&Value>)
        ensures
            view_of_ref(r) == self@.get(key@),
    {
        match self {
            Value::Object(o) => o.get(key),
            _ => None,
        }
    }

    /// The value under `key`, where `self` is an object that holds the key.
    pub fn get_key(&self, key: &String) -> (r: Option<&Value>)
        ensures
            view_of_ref(r) == self@.get(key@),
    {
        match self {
            Value::Object(o) => o.get_key(key),
            _ => None,
        }
    }

    /// The value as a signed 64-bit integer, where it is a number that is one.
    pub fn as_i64(&self) -> (r: Option<i64>)
        ensures
            r == self@.as_i64(),
    {
        match self {
            Value::Number(n) => n.as_i64(),
            _ => None,
        }
    }
}


impl Clone for Object {
    fn clone(&self) -> (r: Self)
        ensures
            r@ == self@,
            r.fields() == self.fields(),
    {
        self.duplicate()
    }
}

impl Clone for Value {
    fn clone(&self) -> (r: Self)
        ensures
            r@ == self@,
    {
        self.duplicate()
    }
}

impl PartialEq for Object {
    fn eq(&self, other: &Self) -> (r: bool) {
        self.same(other)
    }
}

impl PartialEqSpecImpl for Object {
    open spec fn obeys_eq_spec() -> bool {
        true
    }

    open spec fn eq_spec(&self, other: &Self) -> bool {
        self@ == other@
    }
}

impl PartialEq for Value {
    fn eq(&self, other: &Self) -> (r: bool) {
        self.same(other)
    }
}

impl PartialEqSpecImpl for Value {
    open spec fn obeys_eq_spec() -> bool {
        true
    }

    open spec fn eq_spec(&self, other: &Self) -> bool {
        self@ == other@
    }
}

} // verus!
