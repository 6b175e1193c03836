//! The JSON documents this crate reads and writes, through `serde_json`.
//!
//! `serde_json::Value` is opaque to the verifier; `json_value` names the
//! document a value holds, and the items below state what each `serde_json`
//! call used here does to it.
use vstd::prelude::*;

verus! {

#[verifier::external_type_specification]
#[verifier::external_body]
pub struct ExJsonValue(serde_json::Value);

/// A JSON number, as far as this crate reads one.
pub enum JsonNumber {
    /// A non-negative integer.
    PosInt(u64),
    /// A negative integer.
    NegInt(i64),
    /// A number with a fraction or exponent.
    Float,
}

/// A JSON document. Object members are listed in the order `serde_json`
/// iterates them (ascending key order, keys distinct).
pub enum Json {
    Null,
    Bool(bool),
    Number(JsonNumber),
    Str(Seq<char>),
    Array(Seq<Json>),
    Object(Seq<(Seq<char>, Json)>),
}

/// The document that a `serde_json::Value` holds.
pub uninterp spec fn json_value(v: serde_json::Value) -> Json;

/// The document `serde_json::from_str` reads from `text`, if it is valid JSON.
pub uninterp spec fn json_parse(text: Seq<char>) -> Option<Json>;

/// The text `serde_json::to_string` writes for a document without floats.
pub uninterp spec fn json_render(j: Json) -> Seq<char>;

/// Position of the first member named `key`.
pub open spec fn key_index(es: Seq<(Seq<char>, Json)>, key: Seq<char>) -> Option<int>
    decreases es.len(),
{
    if es.len() == 0 {
        None
    } else if es[0].0 == key {
        Some(0)
    } else {
        match key_index(es.drop_first(), key) {
            Some(k) => Some(k + 1),
            None => None,
        }
    }
}

/// The member `key` of an object (`Value::get` with a string key).
pub open spec fn member(j: Json, key: Seq<char>) -> Option<Json> {
    match j {
        Json::Object(es) => match key_index(es, key) {
            Some(k) => if 0 <= k < es.len() {
                Some(es[k].1)
            } else {
                None
            },
            None => None,
        },
        _ => None,
    }
}

/// `key_index` finds a member with that key, and only the first one.
pub proof fn lemma_key_index(es: Seq<(Seq<char>, Json)>, key: Seq<char>)
    ensures
        key_index(es, key) matches Some(k) ==> 0 <= k < es.len() && es[k].0 == key && forall|j: int|
            0 <= j < k ==> #[trigger] es[j].0 != key,
        key_index(es, key) is None ==> forall|j: int| 0 <= j < es.len() ==> #[trigger] es[j].0 != key,
    decreases es.len(),
{
    if es.len() > 0 && es[0].0 != key {
        lemma_key_index(es.drop_first(), key);
        assert forall|j: int| 1 <= j < es.len() implies #[trigger] es[j].0 == es.drop_first()[j - 1].0 by {}
    }
}

/// The document holds no float (so `serde_json` writes it back exactly).
pub open spec fn float_free(j: Json) -> bool
    decreases j,
{
    match j {
        Json::Number(JsonNumber::Float) => false,
        Json::Array(items) => forall|i: int| 0 <= i < items.len() ==> float_free(#[trigger] items[i]),
        Json::Object(es) => forall|i: int| 0 <= i < es.len() ==> float_free(#[trigger] es[i].1),
        _ => true,
    }
}

/// Code-point order on strings: `a` sorts strictly before `b`. This is the
/// order of `String`'s `Ord` (bytewise), since UTF-8 preserves code-point order.
pub open spec fn str_lt(a: Seq<char>, b: Seq<char>) -> bool
    decreases a.len(),
{
    if b.len() == 0 {
        false
    } else if a.len() == 0 {
        true
    } else if a[0] != b[0] {
        (a[0] as u32) < (b[0] as u32)
    } else {
        str_lt(a.drop_first(), b.drop_first())
    }
}

/// `serde_json::from_str::<Value>`: the document `text` holds, if it is valid JSON.
#[verifier::external_body]
pub(crate) fn parse_json(text: &str) -> (r: Option<serde_json::Value>)
    ensures
        r is Some <==> json_parse(text@) is Some,
        r matches Some(v) ==> json_parse(text@) == Some(json_value(v)),
{
    serde_json::from_str::<serde_json::Value>(text).ok()
}

/// `Value::as_object` followed by `Map::iter`: the members of an object, in
/// iteration order; `None` for any other value.
#[verifier::external_body]
pub(crate) fn object_members(v: &serde_json::Value) -> (r: Option<Vec<(String, &serde_json::Value)>>)
    ensures
        match json_value(*v) {
            Json::Object(es) => r matches Some(ms) && ms@.len() == es.len() && forall|i: int|
                0 <= i < es.len() ==> (#[trigger] ms@[i]).0@ == es[i].0 && json_value(*ms@[i].1)
                    == es[i].1,
            _ => r is None,
        },
{
    v.as_object().map(|m| m.iter().map(|(k, x)| (k.clone(), x)).collect())
}

/// `Value::get` with a string key: the member `key` of an object; `None`
/// when absent or when `v` is not an object.
#[verifier::external_body]
pub(crate) fn get_member<'a>(v: &'a serde_json::Value, key: &str) -> (r: Option<&'a serde_json::Value>)
    ensures
        match member(json_value(*v), key@) {
            Some(j) => r matches Some(x) && json_value(*x) == j,
            None => r is None,
        },
{
    v.get(key)
}

/// `Value::as_str`: the contents of a JSON string.
#[verifier::external_body]
pub(crate) fn value_as_str(v: &serde_json::Value) -> (r: Option<&str>)
    ensures
        match json_value(*v) {
            Json::Str(s) => r matches Some(t) && t@ == s,
            _ => r is None,
        },
{
    v.as_str()
}

/// `Value::as_u64`: a non-negative integer that fits in `u64`.
#[verifier::external_body]
pub(crate) fn value_as_u64(v: &serde_json::Value) -> (r: Option<u64>)
    ensures
        match json_value(*v) {
            Json::Number(JsonNumber::PosInt(n)) => r == Some(n),
            _ => r is None,
        },
{
    v.as_u64()
}

/// `Value::as_bool`: the value of a JSON boolean.
#[verifier::external_body]
pub(crate) fn value_as_bool(v: &serde_json::Value) -> (r: Option<bool>)
    ensures
        match json_value(*v) {
            Json::Bool(b) => r == Some(b),
            _ => r is None,
        },
{
    v.as_bool()
}

/// `Map::new` wrapped in `Value::Object`: an empty object.
#[verifier::external_body]
pub(crate) fn empty_object() -> (r: serde_json::Value)
    ensures
        json_value(r) == Json::Object(Seq::empty()),
{
    serde_json::Value::Object(serde_json::Map::new())
}

/// `a` sorts no later than `b` (code-point order).
pub open spec fn str_le(a: Seq<char>, b: Seq<char>) -> bool {
    a == b || str_lt(a, b)
}

/// The keys of `es` strictly increase (code-point order), as the keys of a
/// `serde_json::Map` are iterated.
pub open spec fn members_strict(es: Seq<(Seq<char>, Json)>) -> bool {
    forall|i: int, j: int| 0 <= i < j < es.len() ==> str_lt(es[i].0, es[j].0)
}

/// Inserts member `k` into the key-ordered members `es`: before the first
/// key above `k`, or in place of the value of key `k` if present.
pub open spec fn insert_member(es: Seq<(Seq<char>, Json)>, k: Seq<char>, v: Json) -> Seq<
    (Seq<char>, Json),
>
    decreases es.len(),
{
    if es.len() == 0 {
        seq![(k, v)]
    } else if es[0].0 == k {
        seq![(k, v)] + es.drop_first()
    } else if str_lt(k, es[0].0) {
        seq![(k, v)] + es
    } else {
        seq![es[0]] + insert_member(es.drop_first(), k, v)
    }
}

/// `Map::insert` on an object: the member is put in key order, or, when
/// the key is already there, its value is replaced.
#[verifier::external_body]
pub(crate) fn push_member(obj: &mut serde_json::Value, key: String, val: serde_json::Value)
    requires
        json_value(*old(obj)) is Object,
        members_strict(json_value(*old(obj))->Object_0),
    ensures
        json_value(*final(obj)) == Json::Object(
            insert_member(json_value(*old(obj))->Object_0, key@, json_value(val)),
        ),
{
    if let serde_json::Value::Object(m) = obj {
        m.insert(key, val);
    }
}

/// `Value::String`: a JSON string.
#[verifier::external_body]
pub(crate) fn string_value(s: String) -> (r: serde_json::Value)
    ensures
        json_value(r) == Json::Str(s@),
{
    serde_json::Value::String(s)
}

/// `Value::from(u64)`: a non-negative JSON integer.
#[verifier::external_body]
pub(crate) fn u64_value(n: u64) -> (r: serde_json::Value)
    ensures
        json_value(r) == Json::Number(JsonNumber::PosInt(n)),
{
    serde_json::Value::from(n)
}

/// `Value::Bool`: a JSON boolean.
#[verifier::external_body]
pub(crate) fn bool_value(b: bool) -> (r: serde_json::Value)
    ensures
        json_value(r) == Json::Bool(b),
{
    serde_json::Value::Bool(b)
}

/// How deeply arrays and objects nest in `j`: 0 for a scalar, one more than
/// the deepest member for an array or object.
pub open spec fn json_depth(j: Json) -> nat
    decreases j,
{
    match j {
        Json::Array(items) => 1 + max_depth_items(items),
        Json::Object(es) => 1 + max_depth_members(es),
        _ => 0,
    }
}

/// The greatest `json_depth` among `items` (0 when there are none).
pub open spec fn max_depth_items(items: Seq<Json>) -> nat
    decreases items,
{
    if items.len() == 0 {
        0
    } else {
        let d = json_depth(items[0]);
        let rest = max_depth_items(items.subrange(1, items.len() as int));
        if d >= rest { d } else { rest }
    }
}

/// The greatest `json_depth` among the member values of `es` (0 when there are none).
pub open spec fn max_depth_members(es: Seq<(Seq<char>, Json)>) -> nat
    decreases es,
{
    if es.len() == 0 {
        0
    } else {
        let d = json_depth(es[0].1);
        let rest = max_depth_members(es.subrange(1, es.len() as int));
        if d >= rest { d } else { rest }
    }
}

/// The deepest nesting of arrays and objects that `serde_json::from_str`
/// accepts: it starts with a recursion budget of 128 and fails when entering
/// a container brings the budget to 0.
pub open spec fn parse_depth_limit() -> nat {
    127
}

/// `serde_json::to_string` on a `Value`: its compact JSON text. Writing a
/// `Value` into a `String` cannot fail (map keys are strings, the writer is a
/// `Vec`), so the error arm never runs. For a document without floats the
/// text is named by `json_render`, and `serde_json::from_str` reads it back
/// as the same document when it nests no deeper than the parser's limit.
/// Of a document with floats nothing is stated.
#[verifier::external_body]
pub(crate) fn render_json(v: &serde_json::Value) -> (r: String)
    ensures
        float_free(json_value(*v)) ==> r@ == json_render(json_value(*v)),
        float_free(json_value(*v)) && json_depth(json_value(*v)) <= parse_depth_limit() ==> json_parse(r@)
            == Some(json_value(*v)),
{
    match serde_json::to_string(v) {
        Ok(s) => s,
        Err(_) => String::new(),
    }
}

/// `std::str::from_utf8`: the text that `bytes` encode, if they are valid UTF-8.
#[verifier::external_body]
pub(crate) fn utf8_text(bytes: &[u8]) -> (r: Option<&str>)
    ensures
        r is Some <==> vstd::utf8::valid_utf8(bytes@),
        r matches Some(s) ==> vstd::utf8::encode_utf8(s@) == bytes@,
{
    std::str::from_utf8(bytes).ok()
}

} // verus!

verus! {

/// `str_lt` is irreflexive and asymmetric.
pub proof fn lemma_str_lt_asym(a: Seq<char>, b: Seq<char>)
    ensures
        !str_lt(a, a),
        str_lt(a, b) ==> !str_lt(b, a),
    decreases a.len(),
{
    if a.len() > 0 {
        lemma_str_lt_asym(a.drop_first(), a.drop_first());
        if b.len() > 0 {
            lemma_str_lt_asym(a.drop_first(), b.drop_first());
        }
    }
}

/// Distinct strings are ordered one way or the other.
pub proof fn lemma_str_lt_total(a: Seq<char>, b: Seq<char>)
    ensures
        a != b ==> str_lt(a, b) || str_lt(b, a),
    decreases a.len(),
{
    if a.len() > 0 && b.len() > 0 {
        lemma_str_lt_total(a.drop_first(), b.drop_first());
        if a[0] == b[0] && a.drop_first() == b.drop_first() {
            assert(a =~= seq![a[0]] + a.drop_first());
            assert(b =~= seq![b[0]] + b.drop_first());
        }
        if a[0] != b[0] {
            vstd::utf8::char_u32_cast(a[0], a[0] as u32);
            vstd::utf8::char_u32_cast(b[0], b[0] as u32);
            assert((a[0] as u32) != (b[0] as u32));
        }
    } else if a.len() == 0 && b.len() == 0 {
        assert(a == b);
    }
}

/// `str_lt` is transitive.
pub proof fn lemma_str_lt_trans(a: Seq<char>, b: Seq<char>, c: Seq<char>)
    requires
        str_lt(a, b),
        str_lt(b, c),
    ensures
        str_lt(a, c),
    decreases a.len(),
{
    if a.len() > 0 && b.len() > 0 && c.len() > 0 && a[0] == b[0] && b[0] == c[0] {
        lemma_str_lt_trans(a.drop_first(), b.drop_first(), c.drop_first());
    }
}

/// `str_le` is a total preorder that is antisymmetric.
pub proof fn lemma_str_le_order(a: Seq<char>, b: Seq<char>, c: Seq<char>)
    ensures
        str_le(a, a),
        str_le(a, b) || str_le(b, a),
        str_le(a, b) && str_le(b, a) ==> a == b,
        str_le(a, b) && str_le(b, c) ==> str_le(a, c),
        str_le(a, b) && str_lt(b, c) ==> str_lt(a, c),
        str_lt(a, b) && str_le(b, c) ==> str_lt(a, c),
        !str_lt(a, b) ==> str_le(b, a),
{
    lemma_str_lt_asym(a, b);
    lemma_str_lt_total(a, b);
    if str_lt(a, b) && str_lt(b, c) {
        lemma_str_lt_trans(a, b, c);
    }
}


} // verus!

verus! {

/// Inserting keeps the keys strictly increasing; every member of the result
/// is the new one or one of `es`.
pub proof fn lemma_insert_member(es: Seq<(Seq<char>, Json)>, k: Seq<char>, v: Json)
    requires
        members_strict(es),
    ensures
        members_strict(insert_member(es, k, v)),
        forall|i: int|
            0 <= i < insert_member(es, k, v).len() ==> #[trigger] insert_member(es, k, v)[i] == (k, v)
                || es.contains(insert_member(es, k, v)[i]),
    decreases es.len(),
{
    let r = insert_member(es, k, v);
    if es.len() == 0 {
    } else if es[0].0 == k {
        let t = es.drop_first();
        assert forall|i: int, j: int| 0 <= i < j < r.len() implies str_lt(r[i].0, r[j].0) by {
            assert(r[j] == es[j]);
            if i > 0 {
                assert(r[i] == es[i]);
            }
        }
        assert forall|i: int| 0 <= i < r.len() implies #[trigger] r[i] == (k, v) || es.contains(r[i]) by {
            if i > 0 {
                assert(r[i] == es[i]);
            }
        }
    } else if str_lt(k, es[0].0) {
        assert forall|i: int, j: int| 0 <= i < j < r.len() implies str_lt(r[i].0, r[j].0) by {
            assert(r[j] == es[j - 1]);
            if i > 0 {
                assert(r[i] == es[i - 1]);
            } else if j > 1 {
                lemma_str_lt_trans(k, es[0].0, es[j - 1].0);
            }
        }
        assert forall|i: int| 0 <= i < r.len() implies #[trigger] r[i] == (k, v) || es.contains(r[i]) by {
            if i > 0 {
                assert(r[i] == es[i - 1]);
            }
        }
    } else {
        let t = es.drop_first();
        assert(members_strict(t)) by {
            assert forall|i: int, j: int| 0 <= i < j < t.len() implies str_lt(t[i].0, t[j].0) by {
                assert(t[i] == es[i + 1] && t[j] == es[j + 1]);
            }
        }
        lemma_insert_member(t, k, v);
        let rt = insert_member(t, k, v);
        lemma_str_le_order(es[0].0, k, k);
        assert forall|i: int, j: int| 0 <= i < j < r.len() implies str_lt(r[i].0, r[j].0) by {
            assert(r[j] == rt[j - 1]);
            if i > 0 {
                assert(r[i] == rt[i - 1]);
            } else {
                assert(r[0] == es[0]);
                if rt[j - 1] == (k, v) {
                    lemma_str_lt_total(es[0].0, k);
                } else {
                    let w = choose|w: int| 0 <= w < t.len() && t[w] == rt[j - 1];
                    assert(t[w] == es[w + 1]);
                }
            }
        }
        assert forall|i: int| 0 <= i < r.len() implies #[trigger] r[i] == (k, v) || es.contains(r[i]) by {
            if i > 0 {
                assert(r[i] == rt[i - 1]);
                if rt[i - 1] != (k, v) {
                    let w = choose|w: int| 0 <= w < t.len() && t[w] == rt[i - 1];
                    assert(t[w] == es[w + 1]);
                }
            } else {
                assert(r[0] == es[0]);
            }
        }
    }
}

/// A key above every key present is inserted last.
pub proof fn lemma_insert_member_last(es: Seq<(Seq<char>, Json)>, k: Seq<char>, v: Json)
    requires
        forall|i: int| 0 <= i < es.len() ==> str_lt(#[trigger] es[i].0, k),
    ensures
        insert_member(es, k, v) == es.push((k, v)),
    decreases es.len(),
{
    if es.len() > 0 {
        lemma_str_lt_asym(es[0].0, k);
        let t = es.drop_first();
        assert forall|i: int| 0 <= i < t.len() implies str_lt(#[trigger] t[i].0, k) by {
            assert(t[i] == es[i + 1]);
        }
        lemma_insert_member_last(t, k, v);
        assert(seq![es[0]] + t.push((k, v)) == es.push((k, v)));
    }
}

} // verus!
