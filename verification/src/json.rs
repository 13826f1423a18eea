//! JSON values as the library reads and edits them.
//!
//! A `Json` holds what a parsed `serde_json::Value` holds; numbers are kept
//! in their textual form.  Object members are in increasing key order with
//! no key twice, as in `serde_json`'s default `Map` (a `BTreeMap`); `wf`
//! states that, and the parser side of the program produces such values.
use vstd::prelude::*;
use crate::text::{chars_of, lemma_insert_sorted, lemma_lex_irreflexive, lemma_lex_total,
    lemma_lex_transitive, lemma_sorted_unique, lex_less, lex_lt, strictly_sorted};

verus! {

pub enum Json {
    Null,
    Bool(bool),
    Number(String),
    Str(String),
    Array(Vec<Json>),
    Object(Vec<(String, Json)>),
}

/// The mathematical value of a `Json`.
pub enum JsonValue {
    Null,
    Bool(bool),
    Number(Seq<char>),
    Str(Seq<char>),
    Array(Seq<JsonValue>),
    Object(Seq<(Seq<char>, JsonValue)>),
}

/// The value of a `Json`.
pub open spec fn jv(j: Json) -> JsonValue
    decreases j,
{
    match j {
        Json::Null => JsonValue::Null,
        Json::Bool(b) => JsonValue::Bool(b),
        Json::Number(n) => JsonValue::Number(n@),
        Json::Str(s) => JsonValue::Str(s@),
        Json::Array(v) => JsonValue::Array(
            Seq::new(
                v@.len(),
                |i: int|
                    if 0 <= i < v@.len() {
                        jv(v@[i])
                    } else {
                        JsonValue::Null
                    },
            ),
        ),
        Json::Object(v) => JsonValue::Object(
            Seq::new(
                v@.len(),
                |i: int|
                    if 0 <= i < v@.len() {
                        (v@[i].0@, jv(v@[i].1))
                    } else {
                        (Seq::empty(), JsonValue::Null)
                    },
            ),
        ),
    }
}

/// The values of the members of an object.
pub open spec fn members(v: Seq<(String, Json)>) -> Seq<(Seq<char>, JsonValue)> {
    v.map_values(|m: (String, Json)| (m.0@, jv(m.1)))
}

/// The keys of an object's members.
pub open spec fn member_keys(m: Seq<(Seq<char>, JsonValue)>) -> Seq<Seq<char>> {
    m.map_values(|x: (Seq<char>, JsonValue)| x.0)
}

/// `m[i]` is the first member named `key`.
pub open spec fn first_member_is(m: Seq<(Seq<char>, JsonValue)>, key: Seq<char>, i: int) -> bool {
    0 <= i < m.len() && m[i].0 == key && forall|j: int| 0 <= j < i ==> (#[trigger] m[j]).0 != key
}

/// The value of the (first) member `key`, if the object has one.
pub open spec fn member(m: Seq<(Seq<char>, JsonValue)>, key: Seq<char>) -> Option<JsonValue> {
    if exists|i: int| first_member_is(m, key, i) {
        Some(m[choose|i: int| first_member_is(m, key, i)].1)
    } else {
        None
    }
}

/// The member `key` of an object value; `None` for other values.
pub open spec fn get_spec(v: JsonValue, key: Seq<char>) -> Option<JsonValue> {
    match v {
        JsonValue::Object(m) => member(m, key),
        _ => None,
    }
}

/// The text of a string value.
pub open spec fn str_of(v: Option<JsonValue>) -> Option<Seq<char>> {
    match v {
        Some(JsonValue::Str(s)) => Some(s),
        _ => None,
    }
}

/// Whether the value is an object.
pub open spec fn is_object_value(v: Option<JsonValue>) -> bool {
    match v {
        Some(JsonValue::Object(_)) => true,
        _ => false,
    }
}

/// Object keys strictly increasing, at every depth.
pub open spec fn wf_value(v: JsonValue) -> bool
    decreases v,
{
    match v {
        JsonValue::Array(items) => all_wf(items),
        JsonValue::Object(m) => strictly_sorted(member_keys(m)) && all_members_wf(m),
        _ => true,
    }
}

/// Every item is well-formed.
pub open spec fn all_wf(s: Seq<JsonValue>) -> bool
    decreases s,
{
    if s.len() == 0 {
        true
    } else {
        all_wf(s.drop_last()) && wf_value(s.last())
    }
}

/// Every member value is well-formed.
pub open spec fn all_members_wf(m: Seq<(Seq<char>, JsonValue)>) -> bool
    decreases m,
{
    if m.len() == 0 {
        true
    } else {
        all_members_wf(m.drop_last()) && wf_value(m.last().1)
    }
}

impl Json {
    pub open spec fn wf(&self) -> bool {
        wf_value(jv(*self))
    }
}

pub proof fn lemma_members_of(v: Vec<(String, Json)>)
    ensures
        jv(Json::Object(v)) == JsonValue::Object(members(v@)),
{
    let m = match jv(Json::Object(v)) {
        JsonValue::Object(m) => m,
        _ => Seq::empty(),
    };
    assert(m.len() == v@.len());
    assert forall|i: int| 0 <= i < m.len() implies m[i] == members(v@)[i] by {}
    assert(m =~= members(v@));
}

pub proof fn lemma_items_of(v: Vec<Json>)
    ensures
        jv(Json::Array(v)) == JsonValue::Array(v@.map_values(|x: Json| jv(x))),
{
    let m = match jv(Json::Array(v)) {
        JsonValue::Array(m) => m,
        _ => Seq::empty(),
    };
    assert(m.len() == v@.len());
    assert forall|i: int| 0 <= i < m.len() implies m[i] == v@.map_values(|x: Json| jv(x))[i] by {}
    assert(m =~= v@.map_values(|x: Json| jv(x)));
}

/// Whether two values are equal (`PartialEq` on `serde_json::Value`).
pub fn json_eq(a: &Json, b: &Json) -> (r: bool)
    ensures
        r == (jv(*a) == jv(*b)),
    decreases a,
{
    match (a, b) {
        (Json::Null, Json::Null) => true,
        (Json::Bool(x), Json::Bool(y)) => *x == *y,
        (Json::Number(x), Json::Number(y)) => *x == *y,
        (Json::Str(x), Json::Str(y)) => *x == *y,
        (Json::Array(x), Json::Array(y)) => {
            proof {
                assert(*a == Json::Array(*x));
                assert(*b == Json::Array(*y));
                lemma_items_of(*x);
                lemma_items_of(*y);
            }
            if x.len() != y.len() {
                assert(x@.map_values(|j: Json| jv(j)).len() != y@.map_values(|j: Json| jv(j)).len());
                return false;
            }
            let mut i: usize = 0;
            while i < x.len()
                invariant
                    i <= x@.len(),
                    x@.len() == y@.len(),
                    *a == Json::Array(*x),
                    *b == Json::Array(*y),
                    jv(*a) == JsonValue::Array(x@.map_values(|j: Json| jv(j))),
                    jv(*b) == JsonValue::Array(y@.map_values(|j: Json| jv(j))),
                    forall|k: int| 0 <= k < i ==> jv(x@[k]) == jv(y@[k]),
                decreases x@.len() - i,
            {
                proof {
                    assert(decreases_to!(*a => *x));
                    assert(decreases_to!(*x => x@));
                    assert(decreases_to!(x@ => x@[i as int]));
                    assert(decreases_to!(*a => x@[i as int]));
                }
                if !json_eq(&x[i], &y[i]) {
                    assert(x@.map_values(|j: Json| jv(j))[i as int] != y@.map_values(
                        |j: Json| jv(j),
                    )[i as int]);
                    return false;
                }
                i = i + 1;
            }
            assert(x@.map_values(|j: Json| jv(j)) =~= y@.map_values(|j: Json| jv(j)));
            true
        },
        (Json::Object(x), Json::Object(y)) => {
            proof {
                assert(*a == Json::Object(*x));
                assert(*b == Json::Object(*y));
                lemma_members_of(*x);
                lemma_members_of(*y);
            }
            if x.len() != y.len() {
                assert(members(x@).len() != members(y@).len());
                return false;
            }
            let mut i: usize = 0;
            while i < x.len()
                invariant
                    i <= x@.len(),
                    x@.len() == y@.len(),
                    *a == Json::Object(*x),
                    *b == Json::Object(*y),
                    jv(*a) == JsonValue::Object(members(x@)),
                    jv(*b) == JsonValue::Object(members(y@)),
                    forall|k: int| 0 <= k < i ==> #[trigger] members(x@)[k] == members(y@)[k],
                decreases x@.len() - i,
            {
                proof {
                    assert(decreases_to!(*a => *x));
                    assert(decreases_to!(*x => x@));
                    assert(decreases_to!(x@ => x@[i as int]));
                    assert(decreases_to!(x@[i as int] => x@[i as int].1));
                    assert(decreases_to!(*a => x@[i as int].1));
                }
                if x[i].0 != y[i].0 || !json_eq(&x[i].1, &y[i].1) {
                    assert(members(x@)[i as int] != members(y@)[i as int]);
                    return false;
                }
                assert(members(x@)[i as int] == members(y@)[i as int]);
                i = i + 1;
            }
            assert(members(x@) =~= members(y@));
            true
        },
        _ => false,
    }
}

/// The members of an object value (empty for other values).
pub open spec fn object_members(v: JsonValue) -> Seq<(Seq<char>, JsonValue)> {
    match v {
        JsonValue::Object(m) => m,
        _ => Seq::empty(),
    }
}

/// The member `key` of an optional value.
pub open spec fn field(o: Option<JsonValue>, key: Seq<char>) -> Option<JsonValue> {
    match o {
        Some(v) => get_spec(v, key),
        None => None,
    }
}

/// `p` splits the members of a sorted object at `key`: keys before `p`
/// are smaller, the others are not.
pub open spec fn is_insert_pos(m: Seq<(Seq<char>, JsonValue)>, key: Seq<char>, p: int) -> bool {
    &&& 0 <= p <= m.len()
    &&& forall|j: int| 0 <= j < p ==> lex_lt(#[trigger] m[j].0, key)
    &&& forall|j: int| p <= j < m.len() ==> !lex_lt(#[trigger] m[j].0, key)
}

/// The members of a sorted object with `key` set to `value`: replaced in
/// place when present, else inserted at its place (what `Map::insert`
/// does).
pub open spec fn put_member(m: Seq<(Seq<char>, JsonValue)>, key: Seq<char>, value: JsonValue) -> Seq<
    (Seq<char>, JsonValue),
> {
    let p = choose|p: int| is_insert_pos(m, key, p);
    if p < m.len() && m[p].0 == key {
        m.update(p, (key, value))
    } else {
        m.insert(p, (key, value))
    }
}

pub proof fn lemma_insert_pos_unique(m: Seq<(Seq<char>, JsonValue)>, key: Seq<char>, p: int, q: int)
    requires
        is_insert_pos(m, key, p),
        is_insert_pos(m, key, q),
    ensures
        p == q,
{
    if p < q {
        assert(lex_lt(m[p].0, key));
    } else if q < p {
        assert(lex_lt(m[q].0, key));
    }
}

pub proof fn lemma_first_member_unique(m: Seq<(Seq<char>, JsonValue)>, key: Seq<char>, i: int, j: int)
    requires
        first_member_is(m, key, i),
        first_member_is(m, key, j),
    ensures
        i == j,
{
    if i < j {
        assert(m[i].0 != key);
    } else if j < i {
        assert(m[j].0 != key);
    }
}

pub proof fn lemma_member_at(m: Seq<(Seq<char>, JsonValue)>, i: int)
    requires
        strictly_sorted(member_keys(m)),
        0 <= i < m.len(),
    ensures
        member(m, m[i].0) == Some(m[i].1),
{
    assert forall|j: int| 0 <= j < i implies (#[trigger] m[j]).0 != m[i].0 by {
        assert(member_keys(m)[i] == m[i].0);
        assert(member_keys(m)[j] == m[j].0);
        lemma_sorted_unique(member_keys(m), i, j);
    }
    assert(first_member_is(m, m[i].0, i));
    let c = choose|c: int| first_member_is(m, m[i].0, c);
    lemma_first_member_unique(m, m[i].0, i, c);
}

pub proof fn lemma_decreases_item(j: Json, x: Vec<Json>, i: int)
    requires
        j == Json::Array(x),
        0 <= i < x@.len(),
    ensures
        decreases_to!(j => x@[i]),
{
    assert(decreases_to!(j => j->Array_0));
    assert(decreases_to!(x => x@));
    assert(decreases_to!(x@ => x@[i]));
}

pub proof fn lemma_decreases_member(j: Json, x: Vec<(String, Json)>, i: int)
    requires
        j == Json::Object(x),
        0 <= i < x@.len(),
    ensures
        decreases_to!(j => x@[i].1),
{
    assert(decreases_to!(j => j->Object_0));
    assert(decreases_to!(x => x@));
    assert(decreases_to!(x@ => x@[i]));
    assert(decreases_to!(x@[i] => x@[i].1));
}

/// The member `key` of an object's members, found by a scan.
pub fn find_member(m: &Vec<(String, Json)>, key: &str) -> (r: Option<usize>)
    ensures
        r matches Some(i) ==> i < m@.len() && m@[i as int].0@ == key@ && member(members(m@), key@)
            == Some(jv(m@[i as int].1)) && first_member_is(members(m@), key@, i as int),
        r is None ==> member(members(m@), key@) is None,
        r is None ==> forall|j: int| 0 <= j < m@.len() ==> m@[j].0@ != key@,
{
    let ks = String::from_str(key);
    let mut i: usize = 0;
    while i < m.len()
        invariant
            i <= m@.len(),
            ks@ == key@,
            forall|j: int| 0 <= j < i ==> (#[trigger] m@[j]).0@ != key@,
        decreases m@.len() - i,
    {
        if m[i].0 == ks {
            proof {
                let ms = members(m@);
                assert(ms[i as int].0 == key@);
                assert forall|j: int| 0 <= j < i implies (#[trigger] ms[j]).0 != key@ by {
                    assert(ms[j].0 == m@[j].0@);
                }
                assert(first_member_is(ms, key@, i as int));
                let c = choose|c: int| first_member_is(ms, key@, c);
                lemma_first_member_unique(ms, key@, i as int, c);
            }
            return Some(i);
        }
        i = i + 1;
    }
    proof {
        let ms = members(m@);
        assert forall|j: int| 0 <= j < ms.len() implies (#[trigger] ms[j]).0 != key@ by {
            assert(ms[j].0 == m@[j].0@);
        }
        assert(!exists|c: int| first_member_is(ms, key@, c));
    }
    None
}

impl Json {
    /// The member `key` of an object (`Value::get` with a string key).
    pub fn get(&self, key: &str) -> (r: Option<&Json>)
        ensures
            r matches Some(v) ==> get_spec(jv(*self), key@) == Some(jv(*v)),
            r is None ==> get_spec(jv(*self), key@) is None,
    {
        match self {
            Json::Object(m) => {
                proof {
                    lemma_members_of(*m);
                }
                match find_member(m, key) {
                    Some(i) => Some(&m[i].1),
                    None => None,
                }
            },
            _ => None,
        }
    }

    /// The text of a string value (`Value::as_str`).
    pub fn as_text(&self) -> (r: Option<&String>)
        ensures
            r matches Some(s) ==> str_of(Some(jv(*self))) == Some(s@),
            r is None ==> str_of(Some(jv(*self))) is None,
    {
        match self {
            Json::Str(s) => Some(s),
            _ => None,
        }
    }

    /// Whether the value is an object (`Value::is_object`).
    pub fn is_object(&self) -> (r: bool)
        ensures
            r == is_object_value(Some(jv(*self))),
    {
        match self {
            Json::Object(_) => true,
            _ => false,
        }
    }
}

/// The text of an optional string value.
pub fn opt_text(v: Option<&Json>) -> (r: Option<&String>)
    ensures
        r matches Some(s) ==> v is Some && str_of(Some(jv(*v.unwrap()))) == Some(s@),
        r is None ==> v is None || str_of(Some(jv(*v.unwrap()))) is None,
{
    match v {
        Some(j) => j.as_text(),
        None => None,
    }
}

/// A copy of a value.
pub fn json_clone(j: &Json) -> (r: Json)
    ensures
        jv(r) == jv(*j),
    decreases j,
{
    match j {
        Json::Null => Json::Null,
        Json::Bool(b) => Json::Bool(*b),
        Json::Number(n) => Json::Number(n.clone()),
        Json::Str(s) => Json::Str(s.clone()),
        Json::Array(x) => {
            proof {
                assert(*j == Json::Array(*x));
                lemma_items_of(*x);
            }
            let mut out: Vec<Json> = Vec::new();
            let mut i: usize = 0;
            while i < x.len()
                invariant
                    i <= x@.len(),
                    *j == Json::Array(*x),
                    out@.len() == i,
                    forall|k: int| 0 <= k < i ==> jv(#[trigger] out@[k]) == jv(x@[k]),
                decreases x@.len() - i,
            {
                proof {
                    lemma_decreases_item(*j, *x, i as int);
                }
                out.push(json_clone(&x[i]));
                i = i + 1;
            }
            proof {
                lemma_items_of(out);
                assert(out@.map_values(|k: Json| jv(k)) =~= x@.map_values(|k: Json| jv(k)));
            }
            Json::Array(out)
        },
        Json::Object(x) => {
            proof {
                assert(*j == Json::Object(*x));
                lemma_members_of(*x);
            }
            let mut out: Vec<(String, Json)> = Vec::new();
            let mut i: usize = 0;
            while i < x.len()
                invariant
                    i <= x@.len(),
                    *j == Json::Object(*x),
                    out@.len() == i,
                    forall|k: int| 0 <= k < i ==> #[trigger] members(out@)[k] == members(x@)[k],
                decreases x@.len() - i,
            {
                proof {
                    lemma_decreases_member(*j, *x, i as int);
                }
                let v = json_clone(&x[i].1);
                let ghost before = out@;
                out.push((x[i].0.clone(), v));
                proof {
                    assert(members(out@)[i as int] == members(x@)[i as int]);
                    assert forall|k: int| 0 <= k < i implies #[trigger] members(out@)[k] == members(x@)[k] by {
                        assert(out@[k] == before[k]);
                        assert(members(before)[k] == members(out@)[k]);
                    }
                }
                i = i + 1;
            }
            proof {
                lemma_members_of(out);
                assert(members(out@) =~= members(x@));
            }
            Json::Object(out)
        },
    }
}

/// Sets the member `key` of a sorted object's members (`Map::insert`).
pub fn object_insert(m: &mut Vec<(String, Json)>, key: String, value: Json)
    requires
        strictly_sorted(member_keys(members(old(m)@))),
    ensures
        strictly_sorted(member_keys(members(final(m)@))),
        members(final(m)@) == put_member(members(old(m)@), key@, jv(value)),
        forall|i: int|
            0 <= i < final(m)@.len() ==> final(m)@[i].1 == value || exists|j: int|
                0 <= j < old(m)@.len() && old(m)@[j].1 == #[trigger] final(m)@[i].1,
{
    let ghost ms = members(m@);
    let kc = chars_of(key.as_str());
    let mut p: usize = 0;
    while p < m.len() && lex_less(chars_of(m[p].0.as_str()).as_slice(), kc.as_slice())
        invariant
            p <= m@.len(),
            ms == members(m@),
            m@ == old(m)@,
            kc@ == key@,
            forall|j: int| 0 <= j < p ==> lex_lt(#[trigger] ms[j].0, key@),
        decreases m@.len() - p,
    {
        assert(ms[p as int].0 == m@[p as int].0@);
        p = p + 1;
    }
    proof {
        assert forall|j: int| p <= j < ms.len() implies !lex_lt(#[trigger] ms[j].0, key@) by {
            assert(member_keys(ms)[j] == ms[j].0);
            assert(member_keys(ms)[p as int] == ms[p as int].0);
            assert(ms[p as int].0 == m@[p as int].0@);
            if j > p && lex_lt(ms[j].0, key@) {
                lemma_lex_transitive(ms[p as int].0, ms[j].0, key@);
            }
        }
        assert(is_insert_pos(ms, key@, p as int));
        let c = choose|c: int| is_insert_pos(ms, key@, c);
        lemma_insert_pos_unique(ms, key@, p as int, c);
    }
    let equal = p < m.len() && m[p].0 == key;
    if equal {
        m.set(p, (key, value));
        proof {
            assert(members(m@) =~= ms.update(p as int, (key@, jv(value))));
            assert(member_keys(members(m@)) =~= member_keys(ms));
            assert forall|i: int| 0 <= i < m@.len() implies m@[i].1 == value || exists|j: int|
                0 <= j < old(m)@.len() && old(m)@[j].1 == #[trigger] m@[i].1 by {
                if i != p {
                    assert(old(m)@[i].1 == m@[i].1);
                }
            }
        }
    } else {
        proof {
            if p < ms.len() {
                assert(ms[p as int].0 == m@[p as int].0@);
                lemma_lex_total(ms[p as int].0, key@);
            }
            assert forall|j: int| p <= j < member_keys(ms).len() implies lex_lt(
                key@,
                #[trigger] member_keys(ms)[j],
            ) by {
                assert(member_keys(ms)[j] == ms[j].0);
                assert(member_keys(ms)[p as int] == ms[p as int].0);
                if j > p {
                    lemma_lex_transitive(key@, ms[p as int].0, ms[j].0);
                }
            }
            assert forall|j: int| 0 <= j < p implies lex_lt(#[trigger] member_keys(ms)[j], key@) by {
                assert(member_keys(ms)[j] == ms[j].0);
            }
            lemma_insert_sorted(member_keys(ms), p as int, key@);
        }
        m.insert(p, (key, value));
        proof {
            assert(members(m@) =~= ms.insert(p as int, (key@, jv(value))));
            assert(member_keys(members(m@)) =~= member_keys(ms).insert(p as int, key@));
            assert forall|i: int| 0 <= i < m@.len() implies m@[i].1 == value || exists|j: int|
                0 <= j < old(m)@.len() && old(m)@[j].1 == #[trigger] m@[i].1 by {
                if i < p {
                    assert(old(m)@[i].1 == m@[i].1);
                } else if i > p {
                    assert(old(m)@[i - 1].1 == m@[i].1);
                }
            }
        }
    }
}

/// The members of a well-formed object are well-formed and in key order.
pub proof fn lemma_wf_object(m: Seq<(Seq<char>, JsonValue)>)
    requires
        wf_value(JsonValue::Object(m)),
    ensures
        strictly_sorted(member_keys(m)),
        forall|i: int| 0 <= i < m.len() ==> wf_value(#[trigger] m[i].1),
{
    lemma_all_members_wf(m);
}

pub proof fn lemma_all_members_wf(m: Seq<(Seq<char>, JsonValue)>)
    ensures
        all_members_wf(m) <==> forall|i: int| 0 <= i < m.len() ==> wf_value(#[trigger] m[i].1),
    decreases m.len(),
{
    if m.len() > 0 {
        lemma_all_members_wf(m.drop_last());
        if all_members_wf(m) {
            assert forall|i: int| 0 <= i < m.len() implies wf_value(#[trigger] m[i].1) by {
                if i < m.len() - 1 {
                    assert(m.drop_last()[i] == m[i]);
                }
            }
        }
        if forall|i: int| 0 <= i < m.len() ==> wf_value(#[trigger] m[i].1) {
            assert forall|i: int| 0 <= i < m.drop_last().len() implies wf_value(
                #[trigger] m.drop_last()[i].1,
            ) by {
                assert(m.drop_last()[i] == m[i]);
            }
        }
    }
}

} // verus!
