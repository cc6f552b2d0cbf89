//! The value model: the six shapes of a JSON document.

use vstd::prelude::*;
use crate::number::Number;

verus! {

/// A parsed JSON document.
#[derive(Debug, PartialEq)]
pub enum Value {
    Null,
    Boolean(bool),
    Number(Number),
    String(String),
    Array(Vec<Value>),
    Object(Vec<(String, Value)>),
}

/// The mathematical content of a [`Value`].
pub enum ValueView {
    Null,
    Boolean(bool),
    Number(Number),
    String(Seq<char>),
    Array(Seq<ValueView>),
    Object(Seq<(Seq<char>, ValueView)>),
}

impl View for Value {
    type V = ValueView;

    open spec fn view(&self) -> ValueView
        decreases self,
    {
        match self {
            Value::Null => ValueView::Null,
            Value::Boolean(b) => ValueView::Boolean(*b),
            Value::Number(n) => ValueView::Number(*n),
            Value::String(s) => ValueView::String(s@),
            Value::Array(items) => ValueView::Array(
                Seq::new(
                    items@.len(),
                    |i: int|
                        if 0 <= i < items@.len() {
                            items@[i].view()
                        } else {
                            ValueView::Null
                        },
                ),
            ),
            Value::Object(members) => ValueView::Object(
                Seq::new(
                    members@.len(),
                    |i: int|
                        if 0 <= i < members@.len() {
                            (members@[i].0@, members@[i].1.view())
                        } else {
                            (Seq::empty(), ValueView::Null)
                        },
                ),
            ),
        }
    }
}

/// The contents of a run of values.
pub open spec fn items_view(items: Seq<Value>) -> Seq<ValueView> {
    Seq::new(items.len(), |i: int| items[i]@)
}

/// The contents of a run of object members.
pub open spec fn members_view(members: Seq<(String, Value)>) -> Seq<(Seq<char>, ValueView)> {
    Seq::new(members.len(), |i: int| (members[i].0@, members[i].1@))
}

/// True when some member has this key.
pub open spec fn has_key(members: Seq<(Seq<char>, ValueView)>, key: Seq<char>) -> bool {
    exists|i: int| 0 <= i < members.len() && (#[trigger] members[i]).0 == key
}

/// True when `i` is the first member with this key.
pub open spec fn is_first_with_key(
    members: Seq<(Seq<char>, ValueView)>,
    key: Seq<char>,
    i: int,
) -> bool {
    &&& 0 <= i < members.len()
    &&& members[i].0 == key
    &&& forall|j: int| 0 <= j < i ==> (#[trigger] members[j]).0 != key
}

/// No two members share a key.
pub open spec fn keys_unique(members: Seq<(Seq<char>, ValueView)>) -> bool {
    forall|i: int, j: int|
        0 <= i < j < members.len() ==> (#[trigger] members[i]).0 != (#[trigger] members[j]).0
}

/// The members after `key` was given `value`: a key that is there keeps its place and
/// takes the new value, a new key goes to the end.
pub open spec fn insert_member(
    members: Seq<(Seq<char>, ValueView)>,
    key: Seq<char>,
    value: ValueView,
) -> Seq<(Seq<char>, ValueView)> {
    if has_key(members, key) {
        members.update(choose|i: int| is_first_with_key(members, key, i), (key, value))
    } else {
        members.push((key, value))
    }
}

/// An array's content is the contents of its items, in order.
pub proof fn lemma_array_view(items: Vec<Value>)
    ensures
        Value::Array(items)@ == ValueView::Array(items_view(items@)),
{
    reveal_with_fuel(<Value as View>::view, 2);
    assert(Value::Array(items)@->Array_0 =~= items_view(items@));
}

/// An object's content is the contents of its members, in order.
pub proof fn lemma_object_view(members: Vec<(String, Value)>)
    ensures
        Value::Object(members)@ == ValueView::Object(members_view(members@)),
{
    reveal_with_fuel(<Value as View>::view, 2);
    assert(Value::Object(members)@->Object_0 =~= members_view(members@));
}

/// Gives `key` the value `value` among `members`.
pub fn insert(members: &mut Vec<(String, Value)>, key: String, value: Value)
    ensures
        members_view(final(members)@) == insert_member(members_view(old(members)@), key@, value@),
{
    let ghost before = members_view(members@);
    let mut i: usize = 0;
    while i < members.len()
        invariant
            i <= members@.len(),
            members@ == old(members)@,
            before == members_view(members@),
            forall|j: int| 0 <= j < i ==> (#[trigger] before[j]).0 != key@,
        decreases members@.len() - i,
    {
        if members[i].0 == key {
            proof {
                assert(before[i as int].0 == key@);
                assert(is_first_with_key(before, key@, i as int));
                let chosen = choose|c: int| is_first_with_key(before, key@, c);
                assert(chosen == i) by {
                    if chosen < i {
                        assert(before[chosen].0 != key@);
                    }
                    if i < chosen {
                        assert(before[i as int].0 != key@);
                    }
                }
            }
            members.set(i, (key, value));
            assert(members_view(members@) =~= before.update(i as int, (key@, value@)));
            return ;
        }
        i += 1;
    }
    members.push((key, value));
    assert(!has_key(before, key@));
    assert(members_view(members@) =~= before.push((key@, value@)));
}

/// Inserting keeps the keys of an object distinct.
pub proof fn lemma_insert_keeps_keys_unique(
    members: Seq<(Seq<char>, ValueView)>,
    key: Seq<char>,
    value: ValueView,
)
    requires
        keys_unique(members),
    ensures
        keys_unique(insert_member(members, key, value)),
        has_key(insert_member(members, key, value), key),
        insert_member(members, key, value).len() == if has_key(members, key) {
            members.len()
        } else {
            members.len() + 1
        },
{
    let after = insert_member(members, key, value);
    if has_key(members, key) {
        let w = choose|i: int| 0 <= i < members.len() && (#[trigger] members[i]).0 == key;
        lemma_first_with_key_exists(members, key, w);
        let c = choose|i: int| is_first_with_key(members, key, i);
        assert(after[c].0 == key);
        assert forall|i: int, j: int| 0 <= i < j < after.len() implies (#[trigger] after[i]).0 != (
        #[trigger] after[j]).0 by {
            assert(after[i].0 == members[i].0);
            assert(after[j].0 == members[j].0);
        }
    } else {
        assert(after[members.len() as int].0 == key);
        assert forall|i: int, j: int| 0 <= i < j < after.len() implies (#[trigger] after[i]).0 != (
        #[trigger] after[j]).0 by {
            if j < members.len() {
                assert(after[i].0 == members[i].0);
                assert(after[j].0 == members[j].0);
            } else {
                assert(after[i] == members[i]);
            }
        }
    }
}

/// Where a key occurs at all, it occurs somewhere first.
pub proof fn lemma_first_with_key_exists(
    members: Seq<(Seq<char>, ValueView)>,
    key: Seq<char>,
    witness: int,
)
    requires
        0 <= witness < members.len(),
        members[witness].0 == key,
    ensures
        exists|i: int| is_first_with_key(members, key, i),
    decreases witness,
{
    if exists|j: int| 0 <= j < witness && (#[trigger] members[j]).0 == key {
        let j = choose|j: int| 0 <= j < witness && (#[trigger] members[j]).0 == key;
        lemma_first_with_key_exists(members, key, j);
    } else {
        assert(is_first_with_key(members, key, witness));
    }
}

} // verus!
