//! The values a slot of the store holds.

use vstd::prelude::*;
use vstd::pervasive::VecAdditionalExecFns;
use std::collections::VecDeque;

verus! {

/// A stored value. A list keeps its front at index 0; a hash keeps its fields
/// in the order they were first set, each field name at most once.
#[derive(Debug, PartialEq)]
pub enum RlapValue {
    Empty,
    Integer(i64),
    ShortStr([u8; 32], usize),
    LongStr(String),
    List(VecDeque<RlapValue>),
    Hash(Vec<(String, RlapValue)>),
}

/// The mathematical content of a stored value.
pub enum ValueModel {
    Empty,
    Integer(i64),
    ShortStr(Seq<u8>, usize),
    LongStr(Seq<char>),
    List(Seq<ValueModel>),
    Hash(Seq<(Seq<char>, ValueModel)>),
}

impl RlapValue {
    /// The content of this value.
    pub open spec fn model(self) -> ValueModel
        decreases self,
    {
        match self {
            RlapValue::Empty => ValueModel::Empty,
            RlapValue::Integer(i) => ValueModel::Integer(i),
            RlapValue::ShortStr(b, n) => ValueModel::ShortStr(b@, n),
            RlapValue::LongStr(s) => ValueModel::LongStr(s@),
            RlapValue::List(l) => ValueModel::List(
                Seq::new(l@.len(), |i: int| if 0 <= i < l@.len() { l@[i].model() } else { ValueModel::Empty }),
            ),
            RlapValue::Hash(h) => ValueModel::Hash(
                Seq::new(
                    h@.len(),
                    |i: int|
                        if 0 <= i < h@.len() {
                            (h@[i].0@, h@[i].1.model())
                        } else {
                            (Seq::empty(), ValueModel::Empty)
                        },
                ),
            ),
        }
    }

    /// A value with the same content.
    pub fn duplicate(&self) -> (r: RlapValue)
        ensures
            r.model() == self.model(),
        decreases self,
    {
        match self {
            RlapValue::Empty => RlapValue::Empty,
            RlapValue::Integer(i) => RlapValue::Integer(*i),
            RlapValue::ShortStr(b, n) => RlapValue::ShortStr(*b, *n),
            RlapValue::LongStr(s) => RlapValue::LongStr(s.clone()),
            RlapValue::List(l) => {
                let mut out: VecDeque<RlapValue> = VecDeque::new();
                let mut i: usize = 0;
                while i < l.len()
                    invariant
                        i <= l@.len(),
                        *self == RlapValue::List(*l),
                        out@.len() == i,
                        forall|k: int| 0 <= k < i ==> #[trigger] out@[k].model() == l@[k].model(),
                    decreases l@.len() - i,
                {
                    proof {
                        vstd::std_specs::vecdeque::axiom_vec_dequeue_index_decreases(*l, i as int);
                        assert(decreases_to!(*self => (*self)->List_0));
                    }
                    let item = l[i].duplicate();
                    out.push_back(item);
                    i = i + 1;
                }
                let ghost o = out@;
                let r = RlapValue::List(out);
                proof {
                    if let (ValueModel::List(a), ValueModel::List(b)) = (r.model(), self.model()) {
                        assert forall|k: int| 0 <= k < a.len() implies a[k] == b[k] by {
                            assert(a[k] == o[k].model());
                            assert(b[k] == l@[k].model());
                        }
                        assert(a =~= b);
                    }
                }
                r
            },
            RlapValue::Hash(h) => {
                let mut out: Vec<(String, RlapValue)> = Vec::new();
                let mut i: usize = 0;
                while i < h.len()
                    invariant
                        i <= h@.len(),
                        *self == RlapValue::Hash(*h),
                        out@.len() == i,
                        forall|k: int|
                            0 <= k < i ==> #[trigger] out@[k].0@ == h@[k].0@ && out@[k].1.model() == h@[k].1.model(),
                    decreases h@.len() - i,
                {
                    proof {
                        vstd::std_specs::vec::axiom_vec_index_decreases(*h, i as int);
                        assert(decreases_to!(*self => (*self)->Hash_0));
                    }
                    let entry = &h[i];
                    let key = entry.0.clone();
                    let val = entry.1.duplicate();
                    out.push((key, val));
                    i = i + 1;
                }
                let ghost o = out@;
                let r = RlapValue::Hash(out);
                proof {
                    if let (ValueModel::Hash(a), ValueModel::Hash(b)) = (r.model(), self.model()) {
                        assert forall|k: int| 0 <= k < a.len() implies a[k] == b[k] by {
                            assert(a[k] == (o[k].0@, o[k].1.model()));
                            assert(b[k] == (h@[k].0@, h@[k].1.model()));
                        }
                        assert(a =~= b);
                    }
                }
                r
            },
        }
    }

    /// Whether this is the empty value.
    pub fn is_empty(&self) -> (b: bool)
        ensures
            b == (self.model() is Empty),
    {
        match self {
            RlapValue::Empty => true,
            _ => false,
        }
    }
}

/// The content of a list's items.
pub open spec fn items_model(l: Seq<RlapValue>) -> Seq<ValueModel> {
    Seq::new(l.len(), |i: int| l[i].model())
}

/// The content of a hash's fields.
pub open spec fn fields_model(h: Seq<(String, RlapValue)>) -> Seq<(Seq<char>, ValueModel)> {
    Seq::new(h.len(), |i: int| (h[i].0@, h[i].1.model()))
}

/// A list's content is the content of its items.
pub proof fn lemma_list_model(l: VecDeque<RlapValue>)
    ensures
        RlapValue::List(l).model() == ValueModel::List(items_model(l@)),
{
    if let ValueModel::List(a) = RlapValue::List(l).model() {
        assert(a =~= items_model(l@));
    }
}

/// A hash's content is the content of its fields.
pub proof fn lemma_hash_model(h: Vec<(String, RlapValue)>)
    ensures
        RlapValue::Hash(h).model() == ValueModel::Hash(fields_model(h@)),
{
    if let ValueModel::Hash(a) = RlapValue::Hash(h).model() {
        assert(a =~= fields_model(h@));
    }
}

/// Position of the first field named `key` at or after `i`.
pub open spec fn field_from(h: Seq<(Seq<char>, ValueModel)>, key: Seq<char>, i: int) -> Option<int>
    decreases h.len() - i,
{
    if i < 0 || i >= h.len() {
        None
    } else if h[i].0 == key {
        Some(i)
    } else {
        field_from(h, key, i + 1)
    }
}

/// Position of the first field named `key`.
pub open spec fn field_index(h: Seq<(Seq<char>, ValueModel)>, key: Seq<char>) -> Option<int> {
    field_from(h, key, 0)
}

/// The value of field `key`, or the empty value when there is none.
pub open spec fn field_get(h: Seq<(Seq<char>, ValueModel)>, key: Seq<char>) -> ValueModel {
    match field_index(h, key) {
        Some(i) => h[i].1,
        None => ValueModel::Empty,
    }
}

/// The fields after field `key` is set to `v`: replaced in place when it
/// exists, appended otherwise.
pub open spec fn field_put(h: Seq<(Seq<char>, ValueModel)>, key: Seq<char>, v: ValueModel) -> Seq<
    (Seq<char>, ValueModel),
> {
    match field_index(h, key) {
        Some(i) => h.update(i, (key, v)),
        None => h.push((key, v)),
    }
}

/// No field name occurs twice.
pub open spec fn distinct_fields(h: Seq<(Seq<char>, ValueModel)>) -> bool {
    forall|i: int, j: int| 0 <= i < j < h.len() ==> h[i].0 != h[j].0
}

proof fn lemma_field_from(h: Seq<(Seq<char>, ValueModel)>, key: Seq<char>, i: int)
    requires
        0 <= i,
    ensures
        match field_from(h, key, i) {
            Some(j) => i <= j < h.len() && h[j].0 == key && forall|k: int| i <= k < j ==> h[k].0 != key,
            None => forall|k: int| i <= k < h.len() ==> h[k].0 != key,
        },
    decreases h.len() - i,
{
    if i < h.len() && h[i].0 != key {
        lemma_field_from(h, key, i + 1);
    }
}

/// The first field named `key`, if any, and that no earlier field has the name.
pub proof fn lemma_field_index(h: Seq<(Seq<char>, ValueModel)>, key: Seq<char>)
    ensures
        match field_index(h, key) {
            Some(j) => 0 <= j < h.len() && h[j].0 == key && forall|k: int| 0 <= k < j ==> h[k].0 != key,
            None => forall|k: int| 0 <= k < h.len() ==> h[k].0 != key,
        },
{
    lemma_field_from(h, key, 0);
}

/// Position of the first field named `key`.
pub fn field_position(h: &Vec<(String, RlapValue)>, key: &String) -> (r: Option<usize>)
    ensures
        match r {
            Some(i) => field_index(fields_model(h@), key@) == Some(i as int),
            None => field_index(fields_model(h@), key@) is None,
        },
{
    let ghost fm = fields_model(h@);
    let mut i: usize = 0;
    while i < h.len()
        invariant
            i <= h@.len(),
            fm == fields_model(h@),
            field_from(fm, key@, 0) == field_from(fm, key@, i as int),
        decreases h@.len() - i,
    {
        if h[i].0 == *key {
            assert(fm[i as int].0 == key@);
            return Some(i);
        }
        assert(fm[i as int].0 != key@);
        i = i + 1;
    }
    None
}

/// Sets field `key` of the fields `h` to `v`: in place when it exists,
/// appended otherwise.
pub fn put_field(h: &mut Vec<(String, RlapValue)>, key: String, v: RlapValue)
    ensures
        fields_model(final(h)@) == field_put(fields_model(old(h)@), key@, v.model()),
{
    let ghost km = key@;
    let ghost vm = v.model();
    match field_position(h, &key) {
        Some(i) => {
            proof {
                lemma_field_index(fields_model(h@), km);
            }
            let mut pair = (key, v);
            h.set_and_swap(i, &mut pair);
            assert(fields_model(h@) =~= field_put(fields_model(old(h)@), km, vm));
        },
        None => {
            h.push((key, v));
            assert(fields_model(h@) =~= field_put(fields_model(old(h)@), km, vm));
        },
    }
}

/// Reading a field right after setting it returns the value set.
pub proof fn lemma_field_put_get(h: Seq<(Seq<char>, ValueModel)>, key: Seq<char>, v: ValueModel)
    ensures
        field_get(field_put(h, key, v), key) == v,
{
    lemma_field_index(h, key);
    let h2 = field_put(h, key, v);
    lemma_field_index(h2, key);
    match field_index(h, key) {
        Some(i) => {
            assert(h2[i].0 == key);
            if let Some(j) = field_index(h2, key) {
                assert(j == i) by {
                    if j < i {
                        assert(h2[j] == h[j]);
                    }
                }
            }
        },
        None => {
            let n = h.len() as int;
            assert(h2[n].0 == key);
            if let Some(j) = field_index(h2, key) {
                assert(j == n) by {
                    if j < n {
                        assert(h2[j] == h[j]);
                    }
                }
            }
        },
    }
}

/// Setting a field keeps field names distinct.
pub proof fn lemma_field_put_distinct(h: Seq<(Seq<char>, ValueModel)>, key: Seq<char>, v: ValueModel)
    requires
        distinct_fields(h),
    ensures
        distinct_fields(field_put(h, key, v)),
{
    lemma_field_index(h, key);
    let h2 = field_put(h, key, v);
    assert forall|i: int, j: int| 0 <= i < j < h2.len() implies h2[i].0 != h2[j].0 by {
        if field_index(h, key) is None && j == h.len() {
            assert(h2[i] == h[i]);
        } else {
            match field_index(h, key) {
                Some(x) => {
                    if i == x {
                        assert(h2[j] == h[j]);
                    } else if j == x {
                        assert(h2[i] == h[i]);
                    } else {
                        assert(h2[i] == h[i]);
                        assert(h2[j] == h[j]);
                    }
                },
                None => {
                    assert(h2[i] == h[i]);
                    assert(h2[j] == h[j]);
                },
            }
        }
    }
}

impl Clone for RlapValue {
    /// A value with the same content.
    fn clone(&self) -> (r: Self)
        ensures
            r.model() == self.model(),
    {
        self.duplicate()
    }
}

} // verus!
