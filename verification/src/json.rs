//! JSON values as the library holds them.
//!
//! Numbers are kept as their JSON text, so that a value read from a file is
//! written back as it was. An object holds each key once.

use vstd::prelude::*;
use crate::text::{owned, str_eq};

verus! {

/// A JSON value.
pub enum JsonValue {
    Null,
    Bool(bool),
    /// A number, as its JSON text.
    Number(String),
    Str(String),
    Array(Vec<JsonValue>),
    /// The members of an object, each key once.
    Object(Vec<(String, JsonValue)>),
}

/// A JSON value as mathematics sees it: strings as character sequences.
pub enum JsonView {
    Null,
    Bool(bool),
    Number(Seq<char>),
    Str(Seq<char>),
    Array(Seq<JsonView>),
    Object(Seq<(Seq<char>, JsonView)>),
}

/// The mathematical form of a JSON value.
pub open spec fn json_view(v: JsonValue) -> JsonView
    decreases v,
{
    match v {
        JsonValue::Null => JsonView::Null,
        JsonValue::Bool(b) => JsonView::Bool(b),
        JsonValue::Number(n) => JsonView::Number(n@),
        JsonValue::Str(s) => JsonView::Str(s@),
        JsonValue::Array(a) => JsonView::Array(items_view(a@)),
        JsonValue::Object(f) => JsonView::Object(members_view(f@)),
    }
}

/// The mathematical form of array items.
pub open spec fn items_view(s: Seq<JsonValue>) -> Seq<JsonView>
    decreases s,
{
    if s.len() == 0 {
        seq![]
    } else {
        seq![json_view(s[0])] + items_view(s.subrange(1, s.len() as int))
    }
}

/// The mathematical form of object members.
pub open spec fn members_view(s: Seq<(String, JsonValue)>) -> Seq<(Seq<char>, JsonView)>
    decreases s,
{
    if s.len() == 0 {
        seq![]
    } else {
        seq![(s[0].0@, json_view(s[0].1))] + members_view(s.subrange(1, s.len() as int))
    }
}

impl View for JsonValue {
    type V = JsonView;

    open spec fn view(&self) -> JsonView {
        json_view(*self)
    }
}

/// Array items, viewed item by item.
pub proof fn lemma_items_view(s: Seq<JsonValue>)
    ensures
        items_view(s).len() == s.len(),
        forall|i: int| 0 <= i < s.len() ==> #[trigger] items_view(s)[i] == json_view(s[i]),
    decreases s.len(),
{
    if s.len() > 0 {
        lemma_items_view(s.subrange(1, s.len() as int));
        assert forall|i: int| 0 <= i < s.len() implies #[trigger] items_view(s)[i] == json_view(
            s[i],
        ) by {
            if i > 0 {
                assert(s.subrange(1, s.len() as int)[i - 1] == s[i]);
            }
        }
    }
}

/// Object members, viewed member by member.
pub proof fn lemma_members_view(s: Seq<(String, JsonValue)>)
    ensures
        members_view(s).len() == s.len(),
        forall|i: int|
            0 <= i < s.len() ==> #[trigger] members_view(s)[i] == (s[i].0@, json_view(s[i].1)),
    decreases s.len(),
{
    if s.len() > 0 {
        lemma_members_view(s.subrange(1, s.len() as int));
        assert forall|i: int| 0 <= i < s.len() implies #[trigger] members_view(s)[i] == (
            s[i].0@,
            json_view(s[i].1),
        ) by {
            if i > 0 {
                assert(s.subrange(1, s.len() as int)[i - 1] == s[i]);
            }
        }
    }
}

/// The first index at or after `i` of a member with key `k`.
pub open spec fn key_index_from(f: Seq<(Seq<char>, JsonView)>, k: Seq<char>, i: int) -> Option<int>
    decreases f.len() - i,
{
    if i < 0 || i >= f.len() {
        None
    } else if f[i].0 == k {
        Some(i)
    } else {
        key_index_from(f, k, i + 1)
    }
}

/// The index of the member with key `k`.
pub open spec fn key_index(f: Seq<(Seq<char>, JsonView)>, k: Seq<char>) -> Option<int> {
    key_index_from(f, k, 0)
}

/// `key_index_from` finds the first member with the key.
pub proof fn lemma_key_index_from(f: Seq<(Seq<char>, JsonView)>, k: Seq<char>, i: int)
    requires
        0 <= i,
    ensures
        key_index_from(f, k, i) matches Some(j) ==> i <= j < f.len() && f[j].0 == k && forall|
            m: int,
        | i <= m < j ==> f[m].0 != k,
        key_index_from(f, k, i) is None ==> forall|m: int| i <= m < f.len() ==> f[m].0 != k,
    decreases f.len() - i,
{
    if i < f.len() && f[i].0 != k {
        lemma_key_index_from(f, k, i + 1);
    }
}

/// The value of the member with key `k`.
pub open spec fn member(f: Seq<(Seq<char>, JsonView)>, k: Seq<char>) -> Option<JsonView> {
    match key_index(f, k) {
        Some(i) => Some(f[i].1),
        None => None,
    }
}

/// The value of `v`'s member `k`, when `v` is an object that has one
/// (`Value::get` with a string key).
pub open spec fn jget(v: JsonView, k: Seq<char>) -> Option<JsonView> {
    match v {
        JsonView::Object(f) => member(f, k),
        _ => None,
    }
}

/// The members with member `k` set to `val`: the existing member is
/// replaced in place, or a new member is added at the end.
pub open spec fn set_member(f: Seq<(Seq<char>, JsonView)>, k: Seq<char>, val: JsonView) -> Seq<
    (Seq<char>, JsonView),
> {
    match key_index(f, k) {
        Some(i) => f.update(i, (k, val)),
        None => f.push((k, val)),
    }
}

/// `v` with member `k` set to `val`; `null` becomes an object first (as
/// `value[k] = val` does).
pub open spec fn obj_set(v: JsonView, k: Seq<char>, val: JsonView) -> JsonView {
    match v {
        JsonView::Object(f) => JsonView::Object(set_member(f, k, val)),
        _ => JsonView::Object(seq![(k, val)]),
    }
}

/// The text of `v` when it is a string (`Value::as_str`).
pub open spec fn as_text(v: Option<JsonView>) -> Option<Seq<char>> {
    match v {
        Some(JsonView::Str(s)) => Some(s),
        _ => None,
    }
}

/// The position of the member with key `k`.
pub fn key_position(fields: &Vec<(String, JsonValue)>, k: &str) -> (res: Option<usize>)
    ensures
        res matches Some(i) ==> key_index(members_view(fields@), k@) == Some(i as int) && i
            < fields@.len() && fields@[i as int].0@ == k@,
        res is None ==> key_index(members_view(fields@), k@) is None,
{
    proof {
        lemma_members_view(fields@);
    }
    let ghost mv = members_view(fields@);
    let mut i: usize = 0;
    while i < fields.len()
        invariant
            i <= fields.len(),
            mv == members_view(fields@),
            mv.len() == fields@.len(),
            forall|j: int| 0 <= j < fields@.len() ==> #[trigger] mv[j] == (fields@[j].0@, json_view(fields@[j].1)),
            key_index(mv, k@) == key_index_from(mv, k@, i as int),
        decreases fields.len() - i,
    {
        if str_eq(fields[i].0.as_str(), k) {
            assert(mv[i as int].0 == k@);
            return Some(i);
        }
        assert(mv[i as int].0 != k@);
        i = i + 1;
    }
    None
}

/// The value of `v`'s member `k` (`Value::get`).
pub fn get<'a>(v: &'a JsonValue, k: &str) -> (res: Option<&'a JsonValue>)
    ensures
        res matches Some(r) ==> jget(v@, k@) == Some(r@),
        res is None ==> jget(v@, k@) is None,
{
    match v {
        JsonValue::Object(fields) => {
            proof {
                lemma_members_view(fields@);
            }
            match key_position(fields, k) {
                Some(i) => Some(&fields[i].1),
                None => None,
            }
        },
        _ => None,
    }
}

/// The text of `v` when it is a string.
pub fn as_str(v: &JsonValue) -> (res: Option<&String>)
    ensures
        res matches Some(s) ==> v@ == JsonView::Str(s@),
        res is None ==> !(v@ is Str),
{
    match v {
        JsonValue::Str(s) => Some(s),
        _ => None,
    }
}

/// The text of `v`'s member `k`, when that member is a string.
pub fn get_str<'a>(v: &'a JsonValue, k: &str) -> (res: Option<&'a String>)
    ensures
        res matches Some(s) ==> as_text(jget(v@, k@)) == Some(s@),
        res is None ==> as_text(jget(v@, k@)) is None,
{
    match get(v, k) {
        Some(m) => as_str(m),
        None => None,
    }
}

/// Set member `k` of `fields` to `val`.
pub fn set_field(fields: &mut Vec<(String, JsonValue)>, k: &str, val: JsonValue)
    ensures
        members_view(final(fields)@) == set_member(members_view(old(fields)@), k@, val@),
{
    proof {
        lemma_members_view(old(fields)@);
    }
    match key_position(fields, k) {
        Some(i) => {
            let mut item = (owned(k), val);
            fields.set_and_swap(i, &mut item);
            proof {
                lemma_members_view(fields@);
            }
            assert(members_view(fields@) =~= set_member(members_view(old(fields)@), k@, val@));
        },
        None => {
            fields.push((owned(k), val));
            proof {
                lemma_members_view(fields@);
            }
            assert(members_view(fields@) =~= set_member(members_view(old(fields)@), k@, val@));
        },
    }
}

/// Set member `k` of the object `v` to `val`; `null` becomes an object first.
pub fn set_key(v: &mut JsonValue, k: &str, val: JsonValue)
    requires
        *old(v) is Null || *old(v) is Object,
    ensures
        final(v)@ == obj_set(old(v)@, k@, val@),
{
    let mut taken = JsonValue::Null;
    core::mem::swap(v, &mut taken);
    match taken {
        JsonValue::Object(mut fields) => {
            set_field(&mut fields, k, val);
            *v = JsonValue::Object(fields);
        },
        _ => {
            let mut fields: Vec<(String, JsonValue)> = Vec::new();
            let ghost vv = val@;
            fields.push((owned(k), val));
            proof {
                lemma_members_view(fields@);
            }
            assert(members_view(fields@) =~= seq![(k@, vv)]);
            *v = JsonValue::Object(fields);
        },
    }
}

/// The first member with key `k` is the one at `i` when none before it has `k`.
pub proof fn lemma_key_index_is(f: Seq<(Seq<char>, JsonView)>, k: Seq<char>, i: int)
    requires
        0 <= i < f.len(),
        f[i].0 == k,
        forall|m: int| 0 <= m < i ==> f[m].0 != k,
    ensures
        key_index(f, k) == Some(i),
{
    lemma_key_index_from(f, k, 0);
}

/// Setting member `k` makes `val` its value and leaves other members as
/// they were.
pub proof fn lemma_set_member(f: Seq<(Seq<char>, JsonView)>, k: Seq<char>, val: JsonView)
    ensures
        member(set_member(f, k, val), k) == Some(val),
        key_index(set_member(f, k, val), k) == (match key_index(f, k) {
            Some(i) => Some(i),
            None => Some(f.len() as int),
        }),
        forall|k2: Seq<char>| k2 != k ==> member(#[trigger] set_member(f, k, val), k2) == member(f, k2),
{
    lemma_key_index_from(f, k, 0);
    let g = set_member(f, k, val);
    match key_index(f, k) {
        Some(i) => {
            lemma_key_index_is(g, k, i);
        },
        None => {
            lemma_key_index_is(g, k, f.len() as int);
        },
    }
    assert forall|k2: Seq<char>| k2 != k implies member(#[trigger] set_member(f, k, val), k2)
        == member(f, k2) by {
        lemma_key_index_from(f, k2, 0);
        lemma_key_index_from(g, k2, 0);
        match key_index(f, k2) {
            Some(j) => {
                lemma_key_index_is(g, k2, j);
            },
            None => {
                if key_index(g, k2) is Some {
                    let j = key_index(g, k2)->0;
                    assert(g[j].0 == k2);
                    if j < f.len() {
                        assert(f[j].0 == k2);
                    }
                }
            },
        }
    }
}

/// Setting a member twice leaves the second value.
pub proof fn lemma_set_member_twice(
    f: Seq<(Seq<char>, JsonView)>,
    k: Seq<char>,
    x: JsonView,
    y: JsonView,
)
    ensures
        set_member(set_member(f, k, x), k, y) == set_member(f, k, y),
{
    lemma_key_index_from(f, k, 0);
    lemma_set_member(f, k, x);
    match key_index(f, k) {
        Some(i) => {
            let g = set_member(f, k, x);
            assert(g == f.update(i, (k, x)));
            assert(key_index(g, k) == Some(i));
            assert(set_member(g, k, y) == g.update(i, (k, y)));
            assert(set_member(g, k, y) =~= f.update(i, (k, y)));
        },
        None => {
            let g = set_member(f, k, x);
            assert(g == f.push((k, x)));
            assert(key_index(g, k) == Some(f.len() as int));
            assert(set_member(g, k, y) == g.update(f.len() as int, (k, y)));
            assert(set_member(g, k, y) =~= f.push((k, y)));
        },
    }
}

/// Take the value of member `i` out of `fields`, leaving `null` in its place.
pub fn take_member(fields: &mut Vec<(String, JsonValue)>, i: usize) -> (res: JsonValue)
    requires
        i < old(fields)@.len(),
    ensures
        final(fields)@.len() == old(fields)@.len(),
        res@ == members_view(old(fields)@)[i as int].1,
        members_view(final(fields)@) == members_view(old(fields)@).update(
            i as int,
            (members_view(old(fields)@)[i as int].0, JsonView::Null),
        ),
{
    proof {
        lemma_members_view(old(fields)@);
    }
    let mut item = (String::new(), JsonValue::Null);
    fields.set_and_swap(i, &mut item);
    let (key, v) = item;
    let mut back = (key, JsonValue::Null);
    fields.set_and_swap(i, &mut back);
    proof {
        lemma_members_view(fields@);
    }
    assert(members_view(fields@) =~= members_view(old(fields)@).update(
        i as int,
        (members_view(old(fields)@)[i as int].0, JsonView::Null),
    ));
    v
}

/// Put `val` as the value of member `i` of `fields`.
pub fn put_member(fields: &mut Vec<(String, JsonValue)>, i: usize, val: JsonValue)
    requires
        i < old(fields)@.len(),
    ensures
        final(fields)@.len() == old(fields)@.len(),
        members_view(final(fields)@) == members_view(old(fields)@).update(
            i as int,
            (members_view(old(fields)@)[i as int].0, val@),
        ),
{
    proof {
        lemma_members_view(old(fields)@);
    }
    let ghost vv = val@;
    let mut item = (String::new(), JsonValue::Null);
    fields.set_and_swap(i, &mut item);
    let (key, _old_val) = item;
    let mut back = (key, val);
    fields.set_and_swap(i, &mut back);
    proof {
        lemma_members_view(fields@);
    }
    assert(members_view(fields@) =~= members_view(old(fields)@).update(
        i as int,
        (members_view(old(fields)@)[i as int].0, vv),
    ));
}

} // verus!
