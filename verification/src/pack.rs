//! Writing an ASAR archive from a directory tree read into memory.
use vstd::prelude::*;
use crate::json::json_parse;
use crate::asar::{
    archive_bytes, encode_archive, extraction_plan, header_pickle_total, lemma_archive_round_trip,
    layout_of, plan_dir, plan_entry, plan_members, round_up4, AsarError, OpView,
};
use crate::json::{
    bool_value, empty_object, float_free, insert_member, json_depth, json_render, json_value,
    lemma_insert_member, lemma_insert_member_last, lemma_str_lt_asym, max_depth_members,
    members_strict, push_member, render_json, str_lt, string_value, u64_value, Json, JsonNumber,
};
use vstd::utf8::{
    decode_utf8, encode_scalar, encode_utf8, has_width_1_encoding, has_width_2_encoding,
    has_width_3_encoding, has_width_4_encoding, is_scalar, valid_utf8,
};
use crate::text::{decimal, decimal_string, lemma_parse_decimal, lossy_text, utf8_lossy};

verus! {

/// A directory tree to pack, as read from disk (symbolic links left out).
pub enum PackNode {
    /// A directory and its entries, in any order.
    Dir(Vec<PackEntry>),
    /// A regular file, its bytes, and whether any execute bit is set.
    File { contents: Vec<u8>, executable: bool },
}

/// A named entry of a directory.
pub struct PackEntry {
    /// The entry's name, as the bytes the file system gives.
    pub name: Vec<u8>,
    pub node: PackNode,
}

/// The header key of an entry: its name as text, with any bytes that are
/// not UTF-8 replaced (`String::from_utf8_lossy`).
pub open spec fn key_of(e: PackEntry) -> Seq<char> {
    utf8_lossy(e.name@)
}

/// Byte-string order: `a` sorts strictly before `b` (the order of `[u8]`,
/// and so of file names on Unix).
pub open spec fn bytes_lt(a: Seq<u8>, b: Seq<u8>) -> bool
    decreases a.len(),
{
    if b.len() == 0 {
        false
    } else if a.len() == 0 {
        true
    } else if a[0] != b[0] {
        a[0] < b[0]
    } else {
        bytes_lt(a.drop_first(), b.drop_first())
    }
}

/// `a` sorts no later than `b` (byte-string order).
pub open spec fn bytes_le(a: Seq<u8>, b: Seq<u8>) -> bool {
    a == b || bytes_lt(a, b)
}

/// `bytes_lt` is irreflexive and asymmetric.
pub proof fn lemma_bytes_lt_asym(a: Seq<u8>, b: Seq<u8>)
    ensures
        !bytes_lt(a, a),
        bytes_lt(a, b) ==> !bytes_lt(b, a),
    decreases a.len(),
{
    if a.len() > 0 {
        lemma_bytes_lt_asym(a.drop_first(), a.drop_first());
        if b.len() > 0 {
            lemma_bytes_lt_asym(a.drop_first(), b.drop_first());
        }
    }
}

/// Distinct byte strings are ordered one way or the other.
pub proof fn lemma_bytes_lt_total(a: Seq<u8>, b: Seq<u8>)
    ensures
        a != b ==> bytes_lt(a, b) || bytes_lt(b, a),
    decreases a.len(),
{
    if a.len() > 0 && b.len() > 0 {
        lemma_bytes_lt_total(a.drop_first(), b.drop_first());
        if a[0] == b[0] && a.drop_first() == b.drop_first() {
            assert(a =~= seq![a[0]] + a.drop_first());
            assert(b =~= seq![b[0]] + b.drop_first());
        }
    } else if a.len() == 0 && b.len() == 0 {
        assert(a == b);
    }
}

/// `bytes_lt` is transitive.
pub proof fn lemma_bytes_lt_trans(a: Seq<u8>, b: Seq<u8>, c: Seq<u8>)
    requires
        bytes_lt(a, b),
        bytes_lt(b, c),
    ensures
        bytes_lt(a, c),
    decreases a.len(),
{
    if a.len() > 0 && b.len() > 0 && c.len() > 0 && a[0] == b[0] && b[0] == c[0] {
        lemma_bytes_lt_trans(a.drop_first(), b.drop_first(), c.drop_first());
    }
}

/// `bytes_le` is a total order.
pub proof fn lemma_bytes_le_order(a: Seq<u8>, b: Seq<u8>, c: Seq<u8>)
    ensures
        bytes_le(a, a),
        bytes_le(a, b) || bytes_le(b, a),
        bytes_le(a, b) && bytes_le(b, a) ==> a == b,
        bytes_le(a, b) && bytes_le(b, c) ==> bytes_le(a, c),
        bytes_le(a, b) && bytes_lt(b, c) ==> bytes_lt(a, c),
        bytes_lt(a, b) && bytes_le(b, c) ==> bytes_lt(a, c),
        !bytes_lt(a, b) ==> bytes_le(b, a),
{
    lemma_bytes_lt_asym(a, b);
    lemma_bytes_lt_total(a, b);
    if bytes_lt(a, b) && bytes_lt(b, c) {
        lemma_bytes_lt_trans(a, b, c);
    }
}

/// Putting the same byte in front keeps the order; a smaller first byte decides it.
proof fn lemma_bytes_lt_cons(p: u8, q: u8, a: Seq<u8>, b: Seq<u8>)
    ensures
        p < q ==> bytes_lt(seq![p] + a, seq![q] + b),
        bytes_lt(seq![p] + a, seq![p] + b) == bytes_lt(a, b),
{
    assert((seq![p] + a).drop_first() =~= a);
    assert((seq![p] + b).drop_first() =~= b);
    assert((seq![p] + a)[0] == p && (seq![q] + b)[0] == q && (seq![p] + b)[0] == p);
}

/// A common prefix does not change the order.
proof fn lemma_bytes_lt_prefix(pre: Seq<u8>, a: Seq<u8>, b: Seq<u8>)
    ensures
        bytes_lt(pre + a, pre + b) == bytes_lt(a, b),
    decreases pre.len(),
{
    if pre.len() > 0 {
        let t = pre.drop_first();
        lemma_bytes_lt_prefix(t, a, b);
        lemma_bytes_lt_cons(pre[0], pre[0], t + a, t + b);
        assert(pre + a =~= seq![pre[0]] + (t + a));
        assert(pre + b =~= seq![pre[0]] + (t + b));
    } else {
        assert(pre + a =~= a);
        assert(pre + b =~= b);
    }
}

proof fn lemma_utf8_lead_ranges(u: u32)
    by (bit_vector)
    ensures
        vstd::utf8::has_width_1_encoding(u) ==> vstd::utf8::leading_byte_width_1(u) <= 0x7F,
        vstd::utf8::has_width_2_encoding(u) ==> 0xC0 <= vstd::utf8::leading_byte_width_2(u) <= 0xDF,
        vstd::utf8::has_width_3_encoding(u) ==> 0xE0 <= vstd::utf8::leading_byte_width_3(u) <= 0xEF,
        vstd::utf8::has_width_4_encoding(u) ==> 0xF0 <= vstd::utf8::leading_byte_width_4(u),
{
}

proof fn lemma_utf8_width1_order(u: u32, v: u32)
    by (bit_vector)
    requires
        vstd::utf8::has_width_1_encoding(u),
        vstd::utf8::has_width_1_encoding(v),
        u < v,
    ensures
        vstd::utf8::leading_byte_width_1(u) < vstd::utf8::leading_byte_width_1(v),
{
}

proof fn lemma_utf8_width2_order(u: u32, v: u32)
    by (bit_vector)
    requires
        vstd::utf8::has_width_2_encoding(u),
        vstd::utf8::has_width_2_encoding(v),
        u < v,
    ensures
        vstd::utf8::leading_byte_width_2(u) < vstd::utf8::leading_byte_width_2(v) || (
        vstd::utf8::leading_byte_width_2(u) == vstd::utf8::leading_byte_width_2(v)
            && vstd::utf8::last_continuation_byte(u) < vstd::utf8::last_continuation_byte(v)),
{
}

proof fn lemma_utf8_width3_order(u: u32, v: u32)
    by (bit_vector)
    requires
        vstd::utf8::has_width_3_encoding(u),
        vstd::utf8::has_width_3_encoding(v),
        u < v,
    ensures
        vstd::utf8::leading_byte_width_3(u) < vstd::utf8::leading_byte_width_3(v) || (
        vstd::utf8::leading_byte_width_3(u) == vstd::utf8::leading_byte_width_3(v) && (
        vstd::utf8::second_last_continuation_byte(u) < vstd::utf8::second_last_continuation_byte(v)
            || (vstd::utf8::second_last_continuation_byte(u)
            == vstd::utf8::second_last_continuation_byte(v) && vstd::utf8::last_continuation_byte(u)
            < vstd::utf8::last_continuation_byte(v)))),
{
}

proof fn lemma_utf8_width4_order(u: u32, v: u32)
    by (bit_vector)
    requires
        vstd::utf8::has_width_4_encoding(u),
        vstd::utf8::has_width_4_encoding(v),
        u < v,
    ensures
        vstd::utf8::leading_byte_width_4(u) < vstd::utf8::leading_byte_width_4(v) || (
        vstd::utf8::leading_byte_width_4(u) == vstd::utf8::leading_byte_width_4(v) && (
        vstd::utf8::third_last_continuation_byte(u) < vstd::utf8::third_last_continuation_byte(v)
            || (vstd::utf8::third_last_continuation_byte(u)
            == vstd::utf8::third_last_continuation_byte(v) && (
        vstd::utf8::second_last_continuation_byte(u) < vstd::utf8::second_last_continuation_byte(v)
            || (vstd::utf8::second_last_continuation_byte(u)
            == vstd::utf8::second_last_continuation_byte(v) && vstd::utf8::last_continuation_byte(u)
            < vstd::utf8::last_continuation_byte(v)))))),
{
}

/// Encodings of smaller scalars sort first, whatever follows them.
proof fn lemma_encode_scalar_order(u: u32, v: u32, a: Seq<u8>, b: Seq<u8>)
    requires
        is_scalar(u),
        is_scalar(v),
        u < v,
    ensures
        bytes_lt(encode_scalar(u) + a, encode_scalar(v) + b),
{
    lemma_utf8_lead_ranges(u);
    lemma_utf8_lead_ranges(v);
    let eu = encode_scalar(u);
    let ev = encode_scalar(v);
    let ta = eu.drop_first() + a;
    let tb = ev.drop_first() + b;
    assert(eu + a =~= seq![eu[0]] + ta);
    assert(ev + b =~= seq![ev[0]] + tb);
    lemma_bytes_lt_cons(eu[0], ev[0], ta, tb);
    if has_width_1_encoding(u) && has_width_1_encoding(v) {
        lemma_utf8_width1_order(u, v);
    } else if has_width_2_encoding(u) && has_width_2_encoding(v) {
        lemma_utf8_width2_order(u, v);
        if eu[0] == ev[0] {
            assert(ta =~= seq![eu[1]] + a);
            assert(tb =~= seq![ev[1]] + b);
            lemma_bytes_lt_cons(eu[0], eu[0], ta, tb);
            lemma_bytes_lt_cons(eu[1], ev[1], a, b);
        }
    } else if has_width_3_encoding(u) && has_width_3_encoding(v) {
        lemma_utf8_width3_order(u, v);
        if eu[0] == ev[0] {
            let ta2 = seq![eu[2]] + a;
            let tb2 = seq![ev[2]] + b;
            assert(ta =~= seq![eu[1]] + ta2);
            assert(tb =~= seq![ev[1]] + tb2);
            lemma_bytes_lt_cons(eu[0], eu[0], ta, tb);
            lemma_bytes_lt_cons(eu[1], ev[1], ta2, tb2);
            if eu[1] == ev[1] {
                lemma_bytes_lt_cons(eu[2], ev[2], a, b);
            }
        }
    } else if has_width_4_encoding(u) && has_width_4_encoding(v) {
        lemma_utf8_width4_order(u, v);
        if eu[0] == ev[0] {
            let ta3 = seq![eu[3]] + a;
            let tb3 = seq![ev[3]] + b;
            let ta2 = seq![eu[2]] + ta3;
            let tb2 = seq![ev[2]] + tb3;
            assert(ta =~= seq![eu[1]] + ta2);
            assert(tb =~= seq![ev[1]] + tb2);
            lemma_bytes_lt_cons(eu[0], eu[0], ta, tb);
            lemma_bytes_lt_cons(eu[1], ev[1], ta2, tb2);
            if eu[1] == ev[1] {
                lemma_bytes_lt_cons(eu[2], ev[2], ta3, tb3);
                if eu[2] == ev[2] {
                    lemma_bytes_lt_cons(eu[3], ev[3], a, b);
                }
            }
        }
    }
}

/// UTF-8 keeps code-point order: encoding text that sorts first gives
/// bytes that sort first.
pub proof fn lemma_encode_utf8_order(x: Seq<char>, y: Seq<char>)
    requires
        str_lt(x, y),
    ensures
        bytes_lt(encode_utf8(x), encode_utf8(y)),
    decreases x.len(),
{
    if x.len() == 0 {
        assert(encode_utf8(y) == encode_scalar(y[0] as u32) + encode_utf8(y.drop_first()));
        assert(encode_scalar(y[0] as u32).len() > 0);
    } else {
        vstd::utf8::char_is_scalar(x[0]);
        vstd::utf8::char_is_scalar(y[0]);
        let ex = encode_utf8(x.drop_first());
        let ey = encode_utf8(y.drop_first());
        if x[0] != y[0] {
            lemma_encode_scalar_order(x[0] as u32, y[0] as u32, ex, ey);
        } else {
            lemma_encode_utf8_order(x.drop_first(), y.drop_first());
            lemma_bytes_lt_prefix(encode_scalar(x[0] as u32), ex, ey);
        }
    }
}

/// Among valid UTF-8 byte strings, byte order is the order of the text
/// they encode.
pub proof fn lemma_utf8_bytes_order(a: Seq<u8>, b: Seq<u8>)
    requires
        valid_utf8(a),
        valid_utf8(b),
        bytes_lt(a, b),
    ensures
        str_lt(decode_utf8(a), decode_utf8(b)),
{
    let x = decode_utf8(a);
    let y = decode_utf8(b);
    vstd::utf8::decode_utf8_encode_utf8(a);
    vstd::utf8::decode_utf8_encode_utf8(b);
    crate::json::lemma_str_lt_total(x, y);
    lemma_bytes_lt_asym(a, b);
    if str_lt(y, x) {
        lemma_encode_utf8_order(y, x);
    }
}

/// `a` sorts strictly before `b` (byte-string order).
fn bytes_less(a: &[u8], b: &[u8]) -> (r: bool)
    ensures
        r == bytes_lt(a@, b@),
{
    let mut i: usize = 0;
    assert(a@.skip(0) == a@ && b@.skip(0) == b@);
    while i < a.len() && i < b.len() && a[i] == b[i]
        invariant
            i <= a@.len(),
            i <= b@.len(),
            bytes_lt(a@, b@) == bytes_lt(a@.skip(i as int), b@.skip(i as int)),
        decreases a@.len() - i,
    {
        assert(a@.skip(i as int).drop_first() == a@.skip(i + 1));
        assert(b@.skip(i as int).drop_first() == b@.skip(i + 1));
        i = i + 1;
    }
    if i == b.len() {
        false
    } else if i == a.len() {
        true
    } else {
        assert(a@.skip(i as int)[0] == a@[i as int]);
        assert(b@.skip(i as int)[0] == b@[i as int]);
        a[i] < b[i]
    }
}

/// The header record of a file of `size` bytes stored at `offset` in the
/// data area: `{"executable": true, "offset": "<offset>", "size": <size>}`,
/// without `executable` when the file is not executable.
pub open spec fn file_record(offset: nat, size: nat, executable: bool) -> Json {
    let tail = seq![
        ("offset"@, Json::Str(decimal(offset))),
        ("size"@, Json::Number(JsonNumber::PosInt(size as u64))),
    ];
    Json::Object(
        if executable {
            seq![("executable"@, Json::Bool(true))] + tail
        } else {
            tail
        },
    )
}

/// Packs the entries `es` in order, their data starting at offset `at`:
/// the header members (inserted into `acc` under their keys) and the data bytes.
pub open spec fn pack_list(es: Seq<PackEntry>, at: nat, acc: Seq<(Seq<char>, Json)>) -> (Seq<
    (Seq<char>, Json),
>, Seq<u8>)
    decreases es,
{
    if es.len() == 0 {
        (acc, seq![])
    } else {
        let first = pack_node(es[0].node, at);
        let rest = pack_list(
            es.subrange(1, es.len() as int),
            at + first.1.len(),
            insert_member(acc, key_of(es[0]), first.0),
        );
        (rest.0, first.1 + rest.1)
    }
}

/// Packs a node whose data starts at offset `at`: its header record and data.
/// A directory is `{"files": {...}}`; a file is its `file_record`.
pub open spec fn pack_node(n: PackNode, at: nat) -> (Json, Seq<u8>)
    decreases n,
{
    match n {
        PackNode::Dir(es) => {
            let inner = pack_list(es@, at, seq![]);
            (Json::Object(seq![("files"@, Json::Object(inner.0))]), inner.1)
        },
        PackNode::File { contents, executable } => (
            file_record(at, contents@.len(), executable),
            contents@,
        ),
    }
}

/// Every directory lists its entries by name, in byte order.
pub open spec fn tree_sorted(n: PackNode) -> bool
    decreases n,
{
    match n {
        PackNode::Dir(es) => entries_sorted(es@),
        PackNode::File { .. } => true,
    }
}

/// `es` are in the byte order of their names, and every directory among them is too.
pub open spec fn entries_sorted(es: Seq<PackEntry>) -> bool
    decreases es,
{
    &&& forall|i: int, j: int| 0 <= i < j < es.len() ==> bytes_le(es[i].name@, es[j].name@)
    &&& forall|i: int| 0 <= i < es.len() ==> tree_sorted(#[trigger] es[i].node)
}

fn file_record_exec(offset: u64, size: u64, executable: bool) -> (r: serde_json::Value)
    ensures
        json_value(r) == file_record(offset as nat, size as nat, executable),
{
    proof {
        reveal_strlit("executable");
        reveal_strlit("offset");
        reveal_strlit("size");
    }
    let mut info = empty_object();
    assert("executable"@.len() == 10 && "offset"@.len() == 6 && "size"@.len() == 4);
    assert(str_lt("executable"@, "offset"@) && str_lt("executable"@, "size"@) && str_lt("offset"@, "size"@));
    if executable {
        push_member(&mut info, "executable".to_owned(), bool_value(true));
        assert(json_value(info)->Object_0 =~= seq![("executable"@, Json::Bool(true))]);
    }
    let ghost s1 = json_value(info)->Object_0;
    let off = decimal_string(offset);
    proof {
        lemma_insert_member_last(s1, "offset"@, Json::Str(decimal(offset as nat)));
    }
    push_member(&mut info, "offset".to_owned(), string_value(off));
    assert(json_value(info)->Object_0 == s1.push(("offset"@, Json::Str(decimal(offset as nat)))));
    let ghost s2 = json_value(info)->Object_0;
    proof {
        lemma_insert_member_last(s2, "size"@, Json::Number(JsonNumber::PosInt(size)));
    }
    push_member(&mut info, "size".to_owned(), u64_value(size));
    assert(json_value(info)->Object_0 == s2.push(("size"@, Json::Number(JsonNumber::PosInt(size)))));
    let ghost tail = seq![
        ("offset"@, Json::Str(decimal(offset as nat))),
        ("size"@, Json::Number(JsonNumber::PosInt(size))),
    ];
    if executable {
        assert(json_value(info)->Object_0 =~= seq![("executable"@, Json::Bool(true))] + tail);
    } else {
        assert(json_value(info)->Object_0 =~= tail);
    }
    info
}

fn append_bytes(data: &mut Vec<u8>, bytes: &Vec<u8>)
    ensures
        final(data)@ == old(data)@ + bytes@,
{
    let n = bytes.len();
    for i in 0..n
        invariant
            n == bytes@.len(),
            data@ == old(data)@ + bytes@.take(i as int),
    {
        data.push(bytes[i]);
        assert(bytes@.take(i + 1) == bytes@.take(i as int).push(bytes@[i as int]));
    }
    assert(bytes@.take(n as int) == bytes@);
}

fn pack_node_exec(n: &PackNode, data: &mut Vec<u8>) -> (r: serde_json::Value)
    ensures
        json_value(r) == pack_node(*n, old(data)@.len()).0,
        final(data)@ == old(data)@ + pack_node(*n, old(data)@.len()).1,
        keys_decoded(*n),
    decreases *n,
{
    match n {
        PackNode::Dir(es) => {
            let files = pack_list_exec(es, data);
            let mut node = empty_object();
            proof {
                reveal_strlit("files");
            }
            push_member(&mut node, "files".to_owned(), files);
            node
        },
        PackNode::File { contents, executable } => {
            let offset = data.len() as u64;
            let size = contents.len() as u64;
            let info = file_record_exec(offset, size, *executable);
            append_bytes(data, contents);
            info
        },
    }
}

fn pack_list_exec(es: &Vec<PackEntry>, data: &mut Vec<u8>) -> (r: serde_json::Value)
    ensures
        json_value(r) == Json::Object(pack_list(es@, old(data)@.len(), seq![]).0),
        final(data)@ == old(data)@ + pack_list(es@, old(data)@.len(), seq![]).1,
        entries_keys_decoded(es@),
    decreases es@,
{
    let ghost full = pack_list(es@, old(data)@.len(), seq![]);
    let ghost at0 = old(data)@.len();
    let mut members = empty_object();
    let n = es.len();
    assert(es@.subrange(0, n as int) == es@);
    for i in 0..n
        invariant
            n == es@.len(),
            full == pack_list(es@, at0, seq![]),
            at0 == old(data)@.len(),
            at0 <= data@.len(),
            data@.subrange(0, at0 as int) == old(data)@,
            json_value(members) is Object,
            members_strict(json_value(members)->Object_0),
            forall|j: int| #![trigger es@[j]] 0 <= j < i ==> key_decoded(es@[j]) && keys_decoded(es@[j].node),
            full.0 == pack_list(
                es@.subrange(i as int, n as int),
                data@.len(),
                json_value(members)->Object_0,
            ).0,
            full.1 == data@.subrange(at0 as int, data@.len() as int) + pack_list(
                es@.subrange(i as int, n as int),
                data@.len(),
                json_value(members)->Object_0,
            ).1,
    {
        let ghost rest = es@.subrange(i as int, n as int);
        let ghost acc = json_value(members)->Object_0;
        let ghost before = data@;
        assert(rest[0] == es@[i as int]);
        assert(rest.subrange(1, rest.len() as int) == es@.subrange(i + 1, n as int));
        assert(decreases_to!(es@ => es@[i as int].node)) by {
            assert(decreases_to!(es@ => es@[i as int]));
        }
        let e = &es[i];
        let child = pack_node_exec(&e.node, data);
        let key = lossy_text(e.name.as_slice());
        assert(key@ == key_of(es@[i as int]));
        assert(key_decoded(es@[i as int]));
        proof {
            lemma_insert_member(acc, key@, json_value(child));
        }
        push_member(&mut members, key, child);
        proof {
            let first = pack_node(es@[i as int].node, before.len());
            assert(data@ == before + first.1);
            assert(data@.subrange(0, at0 as int) == old(data)@);
            assert(data@.subrange(at0 as int, data@.len() as int) == before.subrange(
                at0 as int,
                before.len() as int,
            ) + first.1);
        }
    }
    assert(es@.subrange(n as int, n as int) == Seq::<PackEntry>::empty());
    members
}

/// `b` is `a` with the entries of every directory put in the byte order of their names.
pub open spec fn sorted_copy(a: PackNode, b: PackNode) -> bool
    decreases a,
{
    match a {
        PackNode::File { contents, executable } => b matches PackNode::File {
            contents: c2,
            executable: e2,
        } && c2@ == contents@ && e2 == executable,
        PackNode::Dir(ea) => b matches PackNode::Dir(eb) && entries_sorted_copy(ea@, eb@),
    }
}

/// `eb` lists the entries of `ea`, each with its directories sorted, in
/// byte order of names, and entries with equal names in their order in `ea` (a stable
/// sort).
pub open spec fn entries_sorted_copy(ea: Seq<PackEntry>, eb: Seq<PackEntry>) -> bool
    decreases ea,
{
    &&& forall|i: int, j: int| 0 <= i < j < eb.len() ==> bytes_le(eb[i].name@, eb[j].name@)
    &&& exists|p: Seq<int>|
        #[trigger] arranges(ea, eb, p) && forall|k: int|
            0 <= k < eb.len() ==> 0 <= p[k] < ea.len() && sorted_copy(ea[p[k]].node, #[trigger] eb[k].node)
}

/// `eb[k]` is entry `p[k]` of `ea` by name, `p` is one-to-one onto the
/// positions of `ea`, and entries of `eb` with equal names keep their order
/// in `ea`.
pub open spec fn arranges(ea: Seq<PackEntry>, eb: Seq<PackEntry>, p: Seq<int>) -> bool {
    &&& eb.len() == ea.len()
    &&& p.len() == ea.len()
    &&& forall|k: int| 0 <= k < eb.len() ==> 0 <= #[trigger] p[k] < ea.len() && eb[k].name@ == ea[p[k]].name@
    &&& forall|k1: int, k2: int| 0 <= k1 < k2 < eb.len() ==> #[trigger] p[k1] != #[trigger] p[k2]
    &&& forall|k1: int, k2: int|
        0 <= k1 < k2 < eb.len() && eb[k1].name@ == eb[k2].name@ ==> #[trigger] p[k1]
            < #[trigger] p[k2]
}

/// Puts the entries of every directory of `n` in the byte order of their names (stably).
pub fn sort_node(n: PackNode) -> (r: PackNode)
    ensures
        sorted_copy(n, r),
        tree_sorted(r),
    decreases n,
{
    match n {
        PackNode::File { contents, executable } => PackNode::File { contents, executable },
        PackNode::Dir(es) => {
            assert(decreases_to!(n => es@));
            let sorted = sort_entries(es);
            PackNode::Dir(sorted)
        },
    }
}

fn sort_entries(entries: Vec<PackEntry>) -> (r: Vec<PackEntry>)
    ensures
        entries_sorted_copy(entries@, r@),
        entries_sorted(r@),
    decreases entries@,
{
    let ghost orig = entries@;
    let mut es = entries;
    let mut m: Vec<PackEntry> = Vec::new();
    assert(orig.skip(0) == orig);
    while es.len() > 0
        invariant
            orig == entries@,
            m@.len() + es@.len() == orig.len(),
            es@ == orig.skip(m@.len() as int),
            forall|i: int|
                0 <= i < m@.len() ==> (#[trigger] m@[i]).name@ == orig[i].name@ && sorted_copy(
                    orig[i].node,
                    m@[i].node,
                ) && tree_sorted(m@[i].node),
        decreases es@.len(),
    {
        let ghost k = m@.len() as int;
        let e = es.remove(0);
        assert(e == orig[k]);
        assert(es@ == orig.skip(k + 1));
        assert(decreases_to!(orig => e.node)) by {
            assert(decreases_to!(orig => orig[k]));
        }
        let node = sort_node(e.node);
        m.push(PackEntry { name: e.name, node });
    }
    let ghost mm = m@;
    let mut out: Vec<PackEntry> = Vec::new();
    let ghost mut perm: Seq<int> = seq![];
    assert(mm.skip(0) == mm);
    while m.len() > 0
        invariant
            out@.len() + m@.len() == mm.len(),
            m@ == mm.skip(out@.len() as int),
            perm.len() == out@.len(),
            forall|q: int|
                0 <= q < out@.len() ==> 0 <= #[trigger] perm[q] < out@.len() && out@[q] == mm[perm[q]],
            forall|q1: int, q2: int| 0 <= q1 < q2 < out@.len() ==> #[trigger] perm[q1] != #[trigger] perm[q2],
            forall|q1: int, q2: int|
                0 <= q1 < q2 < out@.len() && out@[q1].name@ == out@[q2].name@ ==> #[trigger] perm[q1]
                    < #[trigger] perm[q2],
            forall|i: int, j: int| 0 <= i < j < out@.len() ==> bytes_le(out@[i].name@, out@[j].name@),
            forall|i: int| 0 <= i < out@.len() ==> tree_sorted(#[trigger] out@[i].node),
            forall|i: int| 0 <= i < mm.len() ==> tree_sorted(#[trigger] mm[i].node),
        decreases m@.len(),
    {
        let ghost k = out@.len() as int;
        let x = m.remove(0);
        assert(x == mm[k]);
        assert(m@ == mm.skip(k + 1));
        let mut p: usize = 0;
        while p < out.len() && !bytes_less(x.name.as_slice(), out[p].name.as_slice())
            invariant
                p <= out@.len(),
                forall|q: int| 0 <= q < p ==> bytes_le(#[trigger] out@[q].name@, x.name@),
            decreases out@.len() - p,
        {
            proof {
                lemma_bytes_le_order(x.name@, out@[p as int].name@, x.name@);
            }
            p = p + 1;
        }
        let ghost before = out@;
        let ghost bperm = perm;
        proof {
            if p < before.len() {
                assert(bytes_lt(x.name@, before[p as int].name@));
            }
        }
        out.insert(p, x);
        proof {
            perm = bperm.insert(p as int, k);
            assert(out@ == before.insert(p as int, x));
            assert forall|q: int| 0 <= q < out@.len() implies 0 <= #[trigger] perm[q] < out@.len()
                && out@[q] == mm[perm[q]] by {
                if q < p {
                    assert(perm[q] == bperm[q] && out@[q] == before[q]);
                } else if q > p {
                    assert(perm[q] == bperm[q - 1] && out@[q] == before[q - 1]);
                }
            }
            assert forall|q1: int, q2: int| 0 <= q1 < q2 < out@.len() implies #[trigger] perm[q1]
                != #[trigger] perm[q2] by {
                if q1 < p && q2 < p {
                    assert(perm[q1] == bperm[q1] && perm[q2] == bperm[q2]);
                } else if q1 < p && q2 > p {
                    assert(perm[q1] == bperm[q1] && perm[q2] == bperm[q2 - 1]);
                } else if q1 > p {
                    assert(perm[q1] == bperm[q1 - 1] && perm[q2] == bperm[q2 - 1]);
                } else if q1 == p {
                    assert(perm[q2] == bperm[q2 - 1]);
                } else {
                    assert(perm[q1] == bperm[q1]);
                }
            }
            assert forall|q1: int, q2: int|
                0 <= q1 < q2 < out@.len() && out@[q1].name@ == out@[q2].name@ implies #[trigger] perm[q1]
                    < #[trigger] perm[q2] by {
                if q1 < p && q2 < p {
                    assert(perm[q1] == bperm[q1] && perm[q2] == bperm[q2]);
                    assert(out@[q1] == before[q1] && out@[q2] == before[q2]);
                } else if q1 < p && q2 > p {
                    assert(perm[q1] == bperm[q1] && perm[q2] == bperm[q2 - 1]);
                    assert(out@[q1] == before[q1] && out@[q2] == before[q2 - 1]);
                } else if q1 > p {
                    assert(perm[q1] == bperm[q1 - 1] && perm[q2] == bperm[q2 - 1]);
                    assert(out@[q1] == before[q1 - 1] && out@[q2] == before[q2 - 1]);
                } else if q1 == p {
                    assert(out@[q2] == before[q2 - 1]);
                    lemma_bytes_le_order(x.name@, before[p as int].name@, before[q2 - 1].name@);
                    lemma_bytes_lt_asym(x.name@, before[q2 - 1].name@);
                } else {
                    assert(perm[q1] == bperm[q1]);
                }
            }
            assert forall|i: int, j: int| 0 <= i < j < out@.len() implies bytes_le(
                out@[i].name@,
                out@[j].name@,
            ) by {
                if j < p {
                    assert(out@[i] == before[i] && out@[j] == before[j]);
                } else if j == p {
                    assert(out@[i] == before[i]);
                } else if i < p {
                    assert(out@[i] == before[i] && out@[j] == before[j - 1]);
                    assert(bytes_le(before[i].name@, x.name@));
                    if p < before.len() {
                        lemma_bytes_le_order(x.name@, before[p as int].name@, before[j - 1].name@);
                    }
                    lemma_bytes_le_order(before[i].name@, x.name@, before[j - 1].name@);
                } else if i == p {
                    assert(out@[j] == before[j - 1]);
                    lemma_bytes_le_order(x.name@, before[p as int].name@, before[j - 1].name@);
                } else {
                    assert(out@[i] == before[i - 1] && out@[j] == before[j - 1]);
                }
            }
            assert forall|i: int| 0 <= i < out@.len() implies tree_sorted(#[trigger] out@[i].node) by {
                if i < p {
                    assert(out@[i] == before[i]);
                } else if i > p {
                    assert(out@[i] == before[i - 1]);
                }
            }
        }
    }
    proof {
        assert forall|q: int| 0 <= q < out@.len() implies 0 <= #[trigger] perm[q] < orig.len()
            && out@[q].name@ == orig[perm[q]].name@ && sorted_copy(orig[perm[q]].node, out@[q].node) by {
            assert(out@[q] == mm[perm[q]]);
        }
        assert(arranges(orig, out@, perm));
    }
    out
}

/// Every member of `es` is float-free.
pub open spec fn members_float_free(es: Seq<(Seq<char>, Json)>) -> bool {
    forall|i: int| 0 <= i < es.len() ==> float_free(#[trigger] es[i].1)
}

proof fn lemma_pack_node_float_free(n: PackNode, at: nat)
    ensures
        float_free(pack_node(n, at).0),
    decreases n,
{
    match n {
        PackNode::Dir(es) => {
            assert(decreases_to!(n => es@));
            lemma_pack_list_float_free(es@, at, seq![]);
            let inner = pack_list(es@, at, seq![]);
            let top = seq![("files"@, Json::Object(inner.0))];
            assert(float_free(Json::Object(inner.0)));
            assert(float_free(top[0].1));
        },
        PackNode::File { contents, executable } => {
            let r = file_record(at, contents@.len(), executable);
            let es = r->Object_0;
            assert forall|i: int| 0 <= i < es.len() implies float_free(#[trigger] es[i].1) by {
                if executable {
                    if i == 0 {
                        assert(es[i].1 == Json::Bool(true));
                    }
                }
            }
        },
    }
}

proof fn lemma_pack_list_float_free(es: Seq<PackEntry>, at: nat, acc: Seq<(Seq<char>, Json)>)
    requires
        members_float_free(acc),
        members_strict(acc),
    ensures
        members_float_free(pack_list(es, at, acc).0),
    decreases es,
{
    if es.len() > 0 {
        let first = pack_node(es[0].node, at);
        lemma_pack_node_float_free(es[0].node, at);
        let nacc = insert_member(acc, key_of(es[0]), first.0);
        lemma_insert_member(acc, key_of(es[0]), first.0);
        assert forall|i: int| 0 <= i < nacc.len() implies float_free(#[trigger] nacc[i].1) by {
            if nacc[i] != (key_of(es[0]), first.0) {
                let w = choose|w: int| 0 <= w < acc.len() && acc[w] == nacc[i];
            }
        }
        lemma_pack_list_float_free(es.subrange(1, es.len() as int), at + first.1.len(), nacc);
    }
}

/// No directory of `n` holds two entries with the same name (as on disk).
pub open spec fn names_distinct(n: PackNode) -> bool
    decreases n,
{
    match n {
        PackNode::Dir(es) => entries_distinct(es@),
        PackNode::File { .. } => true,
    }
}

/// No two of `es` share a name, and no directory among them holds two such.
pub open spec fn entries_distinct(es: Seq<PackEntry>) -> bool
    decreases es,
{
    &&& forall|i: int, j: int| 0 <= i < j < es.len() ==> es[i].name@ != es[j].name@
    &&& forall|i: int| 0 <= i < es.len() ==> names_distinct(#[trigger] es[i].node)
}

/// In every directory of `n`, the header keys of the entries are ordered as
/// their names: a name that sorts before another (byte order) has a key
/// that sorts before the other's (code-point order).
pub open spec fn keys_agree(n: PackNode) -> bool
    decreases n,
{
    match n {
        PackNode::Dir(es) => entries_keys_agree(es@),
        PackNode::File { .. } => true,
    }
}

/// The keys of `es` are ordered as their names, and so are those of every
/// directory among them.
pub open spec fn entries_keys_agree(es: Seq<PackEntry>) -> bool
    decreases es,
{
    &&& forall|i: int, j: int|
        0 <= i < es.len() && 0 <= j < es.len() && bytes_lt(es[i].name@, es[j].name@) ==> str_lt(
            key_of(#[trigger] es[i]),
            key_of(#[trigger] es[j]),
        )
    &&& forall|i: int| 0 <= i < es.len() ==> keys_agree(#[trigger] es[i].node)
}

/// Directories nest at most `d` deep in `n`: a directory counts one more
/// than the deepest of its entries, a file counts nothing.
pub open spec fn depth_within(n: PackNode, d: nat) -> bool
    decreases n,
{
    match n {
        PackNode::Dir(es) => d > 0 && entries_within(es@, (d - 1) as nat),
        PackNode::File { .. } => true,
    }
}

/// Every one of `es` nests at most `d` deep.
pub open spec fn entries_within(es: Seq<PackEntry>, d: nat) -> bool
    decreases es,
{
    forall|i: int| 0 <= i < es.len() ==> depth_within(#[trigger] es[i].node, d)
}

/// The deepest tree whose header `serde_json` reads back: a tree `d` deep
/// has a header nesting `2 * d + 1` deep, and the reader accepts 127.
pub open spec fn pack_depth_limit() -> nat {
    63
}

/// Unpacking `raw` fails nowhere and restores the root directory `t`: it
/// creates the destination and then, in order, every directory, and every
/// file with exactly its bytes and executable bit.
pub open spec fn unpacks_to(raw: Seq<u8>, t: PackNode) -> bool {
    &&& t is Dir
    &&& extraction_plan(raw).1 is None
    &&& extraction_plan(raw).0.len() > 0
    &&& extraction_plan(raw).0[0] == OpView::Dir(seq![])
    &&& all_restore(extraction_plan(raw).0.skip(1), restored_list(t->Dir_0@, seq![]), raw)
}

/// Every name in `n` is valid UTF-8.
pub open spec fn names_utf8(n: PackNode) -> bool
    decreases n,
{
    match n {
        PackNode::Dir(es) => entries_utf8(es@),
        PackNode::File { .. } => true,
    }
}

/// Every name among `es`, and in every directory among them, is valid UTF-8.
pub open spec fn entries_utf8(es: Seq<PackEntry>) -> bool
    decreases es,
{
    forall|i: int| #![trigger es[i]] 0 <= i < es.len() ==> valid_utf8(es[i].name@) && names_utf8(es[i].node)
}

/// The key of `e` is the text its name encodes, when the name is valid UTF-8.
pub open spec fn key_decoded(e: PackEntry) -> bool {
    valid_utf8(e.name@) ==> key_of(e) == decode_utf8(e.name@)
}

/// `key_decoded` holds of every entry of `n`, at any depth.
pub open spec fn keys_decoded(n: PackNode) -> bool
    decreases n,
{
    match n {
        PackNode::Dir(es) => entries_keys_decoded(es@),
        PackNode::File { .. } => true,
    }
}

/// `key_decoded` holds of every one of `es`.
pub open spec fn entries_keys_decoded(es: Seq<PackEntry>) -> bool
    decreases es,
{
    forall|i: int| #![trigger es[i]] 0 <= i < es.len() ==> key_decoded(es[i]) && keys_decoded(es[i].node)
}

/// Sorting keeps names distinct and valid UTF-8.
proof fn lemma_sorted_copy_names(a: PackNode, b: PackNode)
    requires
        sorted_copy(a, b),
    ensures
        names_distinct(a) ==> names_distinct(b),
        names_utf8(a) ==> names_utf8(b),
    decreases a,
{
    if let PackNode::Dir(ea) = a {
        let eb = b->Dir_0;
        assert(entries_sorted_copy(ea@, eb@));
        let p = choose|p: Seq<int>|
            #[trigger] arranges(ea@, eb@, p) && forall|k: int|
                0 <= k < eb@.len() ==> 0 <= p[k] < ea@.len() && sorted_copy(
                    ea@[p[k]].node,
                    #[trigger] eb@[k].node,
                );
        assert forall|k: int| 0 <= k < eb@.len() implies (names_distinct(ea@[p[k]].node) ==> names_distinct(
            #[trigger] eb@[k].node,
        )) && (names_utf8(ea@[p[k]].node) ==> names_utf8(eb@[k].node)) by {
            assert(0 <= p[k] < ea@.len());
            assert(decreases_to!(a => ea@[p[k]].node)) by {
                assert(decreases_to!(ea => ea@));
                assert(decreases_to!(ea@ => ea@[p[k]]));
            }
            lemma_sorted_copy_names(ea@[p[k]].node, eb@[k].node);
        }
        if names_distinct(a) {
            assert forall|i: int, j: int| 0 <= i < j < eb@.len() implies eb@[i].name@ != eb@[j].name@ by {
                assert(p[i] != p[j]);
                if p[i] < p[j] {
                    assert(ea@[p[i]].name@ != ea@[p[j]].name@);
                } else {
                    assert(ea@[p[j]].name@ != ea@[p[i]].name@);
                }
            }
            assert forall|k: int| 0 <= k < eb@.len() implies names_distinct(#[trigger] eb@[k].node) by {
                assert(names_distinct(ea@[p[k]].node));
            }
        }
        if names_utf8(a) {
            assert forall|k: int| 0 <= k < eb@.len() implies valid_utf8(eb@[k].name@) && names_utf8(
                #[trigger] eb@[k].node,
            ) by {
                assert(ea@[p[k]] == ea@[p[k]]);
                assert(valid_utf8(ea@[p[k]].name@) && names_utf8(ea@[p[k]].node));
            }
            assert(entries_utf8(eb@));
        }
    }
}

/// A sorted tree whose names are distinct and valid UTF-8, each key being
/// the text its name encodes, has strictly increasing keys.
proof fn lemma_utf8_strict(b: PackNode)
    requires
        tree_sorted(b),
        names_distinct(b),
        names_utf8(b),
        keys_decoded(b),
    ensures
        tree_strict(b),
    decreases b,
{
    if let PackNode::Dir(eb) = b {
        assert forall|i: int, j: int| 0 <= i < j < eb@.len() implies str_lt(
            key_of(eb@[i]),
            key_of(eb@[j]),
        ) by {
            assert(bytes_le(eb@[i].name@, eb@[j].name@));
            assert(eb@[i].name@ != eb@[j].name@);
            assert(valid_utf8(eb@[i].name@) && names_utf8(eb@[i].node));
            assert(valid_utf8(eb@[j].name@) && names_utf8(eb@[j].node));
            assert(key_decoded(eb@[i]) && keys_decoded(eb@[i].node));
            assert(key_decoded(eb@[j]) && keys_decoded(eb@[j].node));
            lemma_utf8_bytes_order(eb@[i].name@, eb@[j].name@);
        }
        assert forall|k: int| 0 <= k < eb@.len() implies tree_strict(#[trigger] eb@[k].node) by {
            assert(decreases_to!(b => eb@[k].node)) by {
                assert(decreases_to!(eb => eb@));
                assert(decreases_to!(eb@ => eb@[k]));
            }
            assert(valid_utf8(eb@[k].name@) && names_utf8(eb@[k].node));
            assert(key_decoded(eb@[k]) && keys_decoded(eb@[k].node));
            assert(tree_sorted(eb@[k].node));
            assert(names_distinct(eb@[k].node));
            lemma_utf8_strict(eb@[k].node);
        }
    }
}

/// The archive for a directory whose entries are `entries`: the entries of
/// every directory are taken in the byte order of their names (stably),
/// file data is laid out in that order from offset 0, and the header
/// records each file's offset and size under the entry's key (its name as
/// text), members inserted in key order, a later entry with the same key
/// replacing an earlier one. It fails only when the header is too large for
/// the 32-bit size fields. When no directory holds two entries of one name,
/// names are valid UTF-8 (or, more generally, keys are ordered as names),
/// and directories nest no deeper than `pack_depth_limit`, unpacking the
/// archive restores the tree.
pub fn pack_archive(entries: Vec<PackEntry>) -> (r: Result<Vec<u8>, AsarError>)
    ensures
        exists|t: PackNode|
            sorted_copy(PackNode::Dir(entries), t) && tree_sorted(t) && {
                let h = pack_node(t, 0).0;
                let d = pack_node(t, 0).1;
                let text = vstd::utf8::encode_utf8(json_render(h));
                &&& header_pickle_total(text.len()) <= u32::MAX ==> (r matches Ok(a) && a@
                    == archive_bytes(text, d))
                &&& header_pickle_total(text.len()) > u32::MAX ==> r == Err::<Vec<u8>, AsarError>(
                    AsarError::HeaderTooLarge,
                )
                &&& names_distinct(PackNode::Dir(entries)) && (names_utf8(PackNode::Dir(entries))
                    || keys_agree(PackNode::Dir(entries))) && depth_within(
                    PackNode::Dir(entries),
                    pack_depth_limit(),
                ) ==> (r matches Ok(a) ==> unpacks_to(a@, t))
            },
{
    let ghost input = PackNode::Dir(entries);
    let sorted = sort_node(PackNode::Dir(entries));
    let mut data: Vec<u8> = Vec::new();
    let header = pack_node_exec(&sorted, &mut data);
    assert(data@ == pack_node(sorted, 0).1);
    proof {
        lemma_pack_node_float_free(sorted, 0);
        if names_distinct(input) && (names_utf8(input) || keys_agree(input)) && depth_within(
            input,
            pack_depth_limit(),
        ) {
            if keys_agree(input) {
                lemma_sorted_copy_strict(input, sorted);
            } else {
                lemma_sorted_copy_names(input, sorted);
                lemma_utf8_strict(sorted);
            }
            lemma_sorted_copy_within(input, sorted, pack_depth_limit());
            lemma_pack_node_depth(sorted, 0, pack_depth_limit());
        }
    }
    let text = render_json(&header);
    let r = encode_archive(text.as_str(), &data);
    if let Ok(a) = &r {
        let n: usize = a.len();
        proof {
            assert(a@.len() == n);
            if names_distinct(input) && (names_utf8(input) || keys_agree(input)) && depth_within(
                input,
                pack_depth_limit(),
            ) {
                lemma_pack_then_extract(sorted);
            }
        }
    }
    assert(sorted_copy(input, sorted) && tree_sorted(sorted));
    r
}

/// A sorted copy of a tree whose directories hold distinct names, with keys
/// in the order of the names, has strictly increasing keys.
proof fn lemma_sorted_copy_strict(a: PackNode, b: PackNode)
    requires
        sorted_copy(a, b),
        tree_sorted(b),
        names_distinct(a),
        keys_agree(a),
    ensures
        tree_strict(b),
    decreases a,
{
    if let PackNode::Dir(ea) = a {
        let eb = b->Dir_0;
        assert(entries_sorted_copy(ea@, eb@));
        let p = choose|p: Seq<int>|
            #[trigger] arranges(ea@, eb@, p) && forall|k: int|
                0 <= k < eb@.len() ==> 0 <= p[k] < ea@.len() && sorted_copy(
                    ea@[p[k]].node,
                    #[trigger] eb@[k].node,
                );
        assert forall|i: int, j: int| 0 <= i < j < eb@.len() implies str_lt(
            key_of(eb@[i]),
            key_of(eb@[j]),
        ) by {
            assert(p[i] != p[j]);
            assert(bytes_le(eb@[i].name@, eb@[j].name@));
            if p[i] < p[j] {
                assert(ea@[p[i]].name@ != ea@[p[j]].name@);
            } else {
                assert(ea@[p[j]].name@ != ea@[p[i]].name@);
            }
            assert(bytes_lt(ea@[p[i]].name@, ea@[p[j]].name@));
            assert(ea@[p[i]] != ea@[p[j]]);
            assert(key_of(eb@[i]) == key_of(ea@[p[i]]));
            assert(key_of(eb@[j]) == key_of(ea@[p[j]]));
        }
        assert forall|k: int| 0 <= k < eb@.len() implies tree_strict(#[trigger] eb@[k].node) by {
            assert(0 <= p[k] < ea@.len());
            assert(decreases_to!(a => ea@[p[k]].node)) by {
                assert(decreases_to!(ea => ea@));
                assert(decreases_to!(ea@ => ea@[p[k]]));
            }
            assert(tree_sorted(eb@[k].node));
            assert(names_distinct(ea@[p[k]].node));
            assert(keys_agree(ea@[p[k]].node));
            lemma_sorted_copy_strict(ea@[p[k]].node, eb@[k].node);
        }
    }
}

/// Sorting keeps how deep directories nest.
proof fn lemma_sorted_copy_within(a: PackNode, b: PackNode, d: nat)
    requires
        sorted_copy(a, b),
        depth_within(a, d),
    ensures
        depth_within(b, d),
    decreases a,
{
    if let PackNode::Dir(ea) = a {
        let eb = b->Dir_0;
        assert(entries_sorted_copy(ea@, eb@));
        let p = choose|p: Seq<int>|
            #[trigger] arranges(ea@, eb@, p) && forall|k: int|
                0 <= k < eb@.len() ==> 0 <= p[k] < ea@.len() && sorted_copy(
                    ea@[p[k]].node,
                    #[trigger] eb@[k].node,
                );
        assert forall|k: int| 0 <= k < eb@.len() implies depth_within(
            #[trigger] eb@[k].node,
            (d - 1) as nat,
        ) by {
            assert(0 <= p[k] < ea@.len());
            assert(decreases_to!(a => ea@[p[k]].node)) by {
                assert(decreases_to!(ea => ea@));
                assert(decreases_to!(ea@ => ea@[p[k]]));
            }
            assert(depth_within(ea@[p[k]].node, (d - 1) as nat));
            lemma_sorted_copy_within(ea@[p[k]].node, eb@[k].node, (d - 1) as nat);
        }
    }
}

/// Every member of `es` nests at most `k` deep.
pub open spec fn members_depth_le(es: Seq<(Seq<char>, Json)>, k: nat) -> bool {
    forall|i: int| 0 <= i < es.len() ==> json_depth(#[trigger] es[i].1) <= k
}

proof fn lemma_max_depth_members(es: Seq<(Seq<char>, Json)>, k: nat)
    requires
        members_depth_le(es, k),
    ensures
        max_depth_members(es) <= k,
    decreases es.len(),
{
    if es.len() > 0 {
        let rest = es.subrange(1, es.len() as int);
        assert(members_depth_le(rest, k)) by {
            assert forall|i: int| 0 <= i < rest.len() implies json_depth(#[trigger] rest[i].1) <= k by {
                assert(rest[i] == es[i + 1]);
            }
        }
        lemma_max_depth_members(rest, k);
        assert(json_depth(es[0].1) <= k);
    }
}

/// The header record of a tree `d` deep nests at most `2 * d + 1` deep.
proof fn lemma_pack_node_depth(n: PackNode, at: nat, d: nat)
    requires
        depth_within(n, d),
    ensures
        json_depth(pack_node(n, at).0) <= 2 * d + 1,
    decreases n,
{
    match n {
        PackNode::Dir(es) => {
            assert(decreases_to!(n => es@));
            lemma_pack_list_depth(es@, at, seq![], (d - 1) as nat);
            let inner = pack_list(es@, at, seq![]);
            lemma_max_depth_members(inner.0, (2 * (d - 1) + 1) as nat);
            let top = seq![("files"@, Json::Object(inner.0))];
            assert(members_depth_le(top, (2 * d) as nat));
            lemma_max_depth_members(top, (2 * d) as nat);
        },
        PackNode::File { contents, executable } => {
            let r = file_record(at, contents@.len(), executable);
            let es = r->Object_0;
            assert(members_depth_le(es, 0)) by {
                assert forall|i: int| 0 <= i < es.len() implies json_depth(#[trigger] es[i].1) <= 0 by {
                    if executable {
                        if i == 0 {
                            assert(es[i].1 == Json::Bool(true));
                        }
                    }
                }
            }
            lemma_max_depth_members(es, 0);
        },
    }
}

proof fn lemma_pack_list_depth(es: Seq<PackEntry>, at: nat, acc: Seq<(Seq<char>, Json)>, d: nat)
    requires
        members_depth_le(acc, 2 * d + 1),
        members_strict(acc),
        entries_within(es, d),
    ensures
        members_depth_le(pack_list(es, at, acc).0, 2 * d + 1),
    decreases es,
{
    if es.len() > 0 {
        let first = pack_node(es[0].node, at);
        lemma_pack_node_depth(es[0].node, at, d);
        let nacc = insert_member(acc, key_of(es[0]), first.0);
        lemma_insert_member(acc, key_of(es[0]), first.0);
        assert forall|i: int| 0 <= i < nacc.len() implies json_depth(#[trigger] nacc[i].1) <= 2 * d + 1 by {
            if nacc[i] != (key_of(es[0]), first.0) {
                let w = choose|w: int| 0 <= w < acc.len() && acc[w] == nacc[i];
            }
        }
        let rest = es.subrange(1, es.len() as int);
        assert(entries_within(rest, d)) by {
            assert forall|i: int| 0 <= i < rest.len() implies depth_within(#[trigger] rest[i].node, d) by {
                assert(rest[i] == es[i + 1]);
            }
        }
        lemma_pack_list_depth(rest, at + first.1.len(), nacc, d);
    }
}

/// In every directory, header keys strictly increase (sorted, no two equal).
pub open spec fn tree_strict(n: PackNode) -> bool
    decreases n,
{
    match n {
        PackNode::Dir(es) => entries_strict(es@),
        PackNode::File { .. } => true,
    }
}

/// `es` have strictly increasing keys, and so has every directory among them.
pub open spec fn entries_strict(es: Seq<PackEntry>) -> bool
    decreases es,
{
    &&& forall|i: int, j: int| 0 <= i < j < es.len() ==> str_lt(key_of(es[i]), key_of(es[j]))
    &&& forall|i: int| 0 <= i < es.len() ==> tree_strict(#[trigger] es[i].node)
}

/// Something unpacking is to restore: a directory, or a file with its bytes
/// and executable bit.
pub enum Restored {
    Dir(Seq<Seq<char>>),
    File(Seq<Seq<char>>, Seq<u8>, bool),
}

/// What unpacking node `n` at `path` is to restore, in order.
pub open spec fn restored_node(n: PackNode, path: Seq<Seq<char>>) -> Seq<Restored>
    decreases n,
{
    match n {
        PackNode::Dir(es) => seq![Restored::Dir(path)] + restored_list(es@, path),
        PackNode::File { contents, executable } => seq![Restored::File(path, contents@, executable)],
    }
}

/// What unpacking the entries `es` of directory `dir` is to restore, in order.
pub open spec fn restored_list(es: Seq<PackEntry>, dir: Seq<Seq<char>>) -> Seq<Restored>
    decreases es,
{
    if es.len() == 0 {
        seq![]
    } else {
        restored_node(es[0].node, dir.push(key_of(es[0]))) + restored_list(
            es.subrange(1, es.len() as int),
            dir,
        )
    }
}

/// Step `op`, performed on the archive `raw`, restores `r`.
pub open spec fn restores(op: OpView, r: Restored, raw: Seq<u8>) -> bool {
    match (op, r) {
        (OpView::Dir(p), Restored::Dir(q)) => p == q,
        (OpView::File(p, s, e, x), Restored::File(q, c, y)) => p == q && x == y && 0 <= s <= e
            <= raw.len() && raw.subrange(s, e) == c,
        _ => false,
    }
}

/// The steps `ops` restore `rs`, one for one.
pub open spec fn all_restore(ops: Seq<OpView>, rs: Seq<Restored>, raw: Seq<u8>) -> bool {
    ops.len() == rs.len() && forall|k: int| 0 <= k < ops.len() ==> restores(#[trigger] ops[k], rs[k], raw)
}

proof fn lemma_all_restore_concat(
    o1: Seq<OpView>,
    r1: Seq<Restored>,
    o2: Seq<OpView>,
    r2: Seq<Restored>,
    raw: Seq<u8>,
)
    requires
        all_restore(o1, r1, raw),
        all_restore(o2, r2, raw),
    ensures
        all_restore(o1 + o2, r1 + r2, raw),
{
    assert forall|k: int| 0 <= k < (o1 + o2).len() implies restores(#[trigger] (o1 + o2)[k], (r1 + r2)[k], raw) by {
        if k >= o1.len() {
            assert((o1 + o2)[k] == o2[k - o1.len()]);
            assert((r1 + r2)[k] == r2[k - r1.len()]);
        } else {
            assert((o1 + o2)[k] == o1[k]);
            assert((r1 + r2)[k] == r1[k]);
        }
    }
}

/// With strictly increasing keys, all above the keys already present,
/// packing adds one member per entry, after those already there; the data
/// does not depend on the members before.
proof fn lemma_pack_list_members(es: Seq<PackEntry>, at: nat, acc: Seq<(Seq<char>, Json)>)
    requires
        entries_strict(es),
        forall|p: int, i: int| 0 <= p < acc.len() && 0 <= i < es.len() ==> str_lt(#[trigger] acc[p].0, key_of(#[trigger] es[i])),
    ensures
        pack_list(es, at, acc).0 == acc + pack_list(es, at, seq![]).0,
        pack_list(es, at, acc).1 == pack_list(es, at, seq![]).1,
    decreases es.len(),
{
    if es.len() > 0 {
        let first = pack_node(es[0].node, at);
        let x = (key_of(es[0]), first.0);
        let rest = es.subrange(1, es.len() as int);
        let at1 = at + first.1.len();
        assert forall|p: int| 0 <= p < acc.len() implies str_lt(#[trigger] acc[p].0, key_of(es[0])) by {
            assert(str_lt(acc[p].0, key_of(es[0])));
        }
        lemma_insert_member_last(acc, key_of(es[0]), first.0);
        lemma_insert_member_last(Seq::<(Seq<char>, Json)>::empty(), key_of(es[0]), first.0);
        assert(seq![x] == Seq::<(Seq<char>, Json)>::empty().push(x));
        assert(entries_strict(rest)) by {
            assert forall|i: int| 0 <= i < rest.len() implies tree_strict(#[trigger] rest[i].node) by {
                assert(rest[i] == es[i + 1]);
            }
        }
        assert forall|p: int, i: int| 0 <= p < acc.push(x).len() && 0 <= i < rest.len() implies str_lt(
            #[trigger] acc.push(x)[p].0,
            key_of(#[trigger] rest[i]),
        ) by {
            assert(rest[i] == es[i + 1]);
            if p < acc.len() {
                assert(acc.push(x)[p] == acc[p]);
            }
        }
        assert forall|p: int, i: int| 0 <= p < seq![x].len() && 0 <= i < rest.len() implies str_lt(
            #[trigger] seq![x][p].0,
            key_of(#[trigger] rest[i]),
        ) by {
            assert(rest[i] == es[i + 1]);
        }
        lemma_pack_list_members(rest, at1, acc.push(x));
        lemma_pack_list_members(rest, at1, seq![x]);
        assert(acc.push(x) + pack_list(rest, at1, seq![]).0 == acc + (seq![x] + pack_list(rest, at1, seq![]).0));
    }
}

proof fn lemma_unpack_node(n: PackNode, at: nat, base: int, raw: Seq<u8>, path: Seq<Seq<char>>)
    requires
        tree_strict(n),
        0 <= base,
        base + at + pack_node(n, at).1.len() <= raw.len() <= usize::MAX,
        raw.subrange(base + at, base + at + pack_node(n, at).1.len()) == pack_node(n, at).1,
    ensures
        plan_entry(pack_node(n, at).0, base, raw.len() as int, path).1 is None,
        all_restore(plan_entry(pack_node(n, at).0, base, raw.len() as int, path).0, restored_node(n, path), raw),
    decreases n,
{
    reveal_strlit("files");
    reveal_strlit("executable");
    reveal_strlit("offset");
    reveal_strlit("size");
    assert("files"@.len() == 5 && "executable"@.len() == 10 && "offset"@.len() == 6 && "size"@.len() == 4);
    assert("files"@ != "executable"@ && "files"@ != "offset"@ && "files"@ != "size"@);
    assert("executable"@ != "offset"@ && "executable"@ != "size"@ && "offset"@ != "size"@);
    match n {
        PackNode::Dir(es) => {
            assert(decreases_to!(n => es@));
            let inner = pack_list(es@, at, seq![]);
            let h = pack_node(n, at).0;
            let ms = seq![("files"@, Json::Object(inner.0))];
            assert(h == Json::Object(ms));
            assert(crate::json::key_index(ms, "files"@) == Some(0int));
            lemma_unpack_list(es@, at, base, raw, path);
            let sub = plan_dir(Json::Object(inner.0), base, raw.len() as int, path);
            assert(all_restore(seq![OpView::Dir(path)], seq![Restored::Dir(path)], raw));
            lemma_all_restore_concat(seq![OpView::Dir(path)], seq![Restored::Dir(path)], sub.0, restored_list(es@, path), raw);
        },
        PackNode::File { contents, executable } => {
            let size = contents@.len();
            let info = file_record(at, size, executable);
            let ms = info->Object_0;
            lemma_parse_decimal(at);
            assert(crate::json::key_index(ms, "files"@) is None) by {
                crate::json::lemma_key_index(ms, "files"@);
            }
            crate::json::lemma_key_index(ms, "offset"@);
            crate::json::lemma_key_index(ms, "size"@);
            crate::json::lemma_key_index(ms, "executable"@);
            let oi: int = if executable {
                1
            } else {
                0
            };
            assert(ms.len() == oi + 2);
            assert(ms[oi] == ("offset"@, Json::Str(decimal(at))));
            assert(ms[oi + 1] == ("size"@, Json::Number(JsonNumber::PosInt(size as u64))));
            if executable {
                assert(ms[0] == ("executable"@, Json::Bool(true)));
            }
            assert(crate::json::key_index(ms, "offset"@) == Some(oi));
            assert(ms[oi].0 != "size"@);
            assert(ms[oi + 1].0 == "size"@);
            assert(forall|j: int| 0 <= j <= oi ==> ms[j].0 != "size"@);
            assert(crate::json::key_index(ms, "size"@) == Some(oi + 1));
            assert(crate::json::member(info, "offset"@) == Some(Json::Str(decimal(at))));
            assert(crate::json::member(info, "size"@) == Some(Json::Number(JsonNumber::PosInt(size as u64))));
            assert((crate::json::member(info, "executable"@) == Some(Json::Bool(true))) == executable);
            let op = OpView::File(path, base + at, base + at + size, executable);
            assert(plan_entry(info, base, raw.len() as int, path) == (seq![op], None::<(AsarError, Seq<Seq<char>>)>));
            assert(restores(op, Restored::File(path, contents@, executable), raw));
        },
    }
}

proof fn lemma_unpack_list(es: Seq<PackEntry>, at: nat, base: int, raw: Seq<u8>, dir: Seq<Seq<char>>)
    requires
        entries_strict(es),
        0 <= base,
        base + at + pack_list(es, at, seq![]).1.len() <= raw.len() <= usize::MAX,
        raw.subrange(base + at, base + at + pack_list(es, at, seq![]).1.len()) == pack_list(es, at, seq![]).1,
    ensures
        plan_members(pack_list(es, at, seq![]).0, base, raw.len() as int, dir).1 is None,
        all_restore(plan_members(pack_list(es, at, seq![]).0, base, raw.len() as int, dir).0, restored_list(es, dir), raw),
    decreases es,
{
    if es.len() == 0 {
        assert(pack_list(es, at, seq![]).0 == Seq::<(Seq<char>, Json)>::empty());
    } else {
        let first = pack_node(es[0].node, at);
        let x = (key_of(es[0]), first.0);
        let rest = es.subrange(1, es.len() as int);
        let at1 = at + first.1.len();
        lemma_insert_member_last(Seq::<(Seq<char>, Json)>::empty(), key_of(es[0]), first.0);
        assert(seq![x] == Seq::<(Seq<char>, Json)>::empty().push(x));
        assert(entries_strict(rest)) by {
            assert forall|i: int| 0 <= i < rest.len() implies tree_strict(#[trigger] rest[i].node) by {
                assert(rest[i] == es[i + 1]);
            }
        }
        assert forall|p: int, i: int| 0 <= p < seq![x].len() && 0 <= i < rest.len() implies str_lt(
            #[trigger] seq![x][p].0,
            key_of(#[trigger] rest[i]),
        ) by {
            assert(rest[i] == es[i + 1]);
        }
        lemma_pack_list_members(rest, at1, seq![x]);
        let m = pack_list(es, at, seq![]).0;
        let mr = pack_list(rest, at1, seq![]).0;
        let d = pack_list(es, at, seq![]).1;
        let dr = pack_list(rest, at1, seq![]).1;
        assert(m == seq![x] + mr);
        assert(d == first.1 + dr);
        assert(tree_strict(es[0].node));
        assert(raw.subrange(base + at, base + at + first.1.len()) == first.1) by {
            assert(raw.subrange(base + at, base + at + first.1.len()) == raw.subrange(base + at, base + at + d.len()).subrange(0, first.1.len() as int));
            assert(d.subrange(0, first.1.len() as int) == first.1);
        }
        assert(raw.subrange(base + at1, base + at1 + dr.len()) == dr) by {
            assert(raw.subrange(base + at1, base + at1 + dr.len()) == raw.subrange(base + at, base + at + d.len()).subrange(first.1.len() as int, d.len() as int));
            assert(d.subrange(first.1.len() as int, d.len() as int) == dr);
        }
        assert(decreases_to!(es => es[0].node)) by {
            assert(decreases_to!(es => es[0]));
        }
        lemma_unpack_node(es[0].node, at, base, raw, dir.push(key_of(es[0])));
        lemma_unpack_list(rest, at1, base, raw, dir);
        assert(m[0] == x);
        assert(m.subrange(1, m.len() as int) == mr);
        let f = plan_entry(first.0, base, raw.len() as int, dir.push(key_of(es[0])));
        let r = plan_members(mr, base, raw.len() as int, dir);
        assert(plan_members(m, base, raw.len() as int, dir) == (f.0 + r.0, r.1));
        lemma_all_restore_concat(f.0, restored_node(es[0].node, dir.push(key_of(es[0]))), r.0, restored_list(rest, dir), raw);
    }
}

/// Unpacking a framed archive whose header text parses: the destination,
/// then the steps for the header's `files` tree, whose data lies right after
/// the header's padding.
proof fn lemma_plan_of_framed(json_text: Seq<char>, h: Json, d: Seq<u8>)
    requires
        header_pickle_total(vstd::utf8::encode_utf8(json_text).len()) <= u32::MAX,
        json_parse(json_text) == Some(h),
        crate::json::member(h, "files"@) is Some,
    ensures
        ({
            let raw = archive_bytes(vstd::utf8::encode_utf8(json_text), d);
            let base = 16 + round_up4(vstd::utf8::encode_utf8(json_text).len());
            let sub = plan_dir(
                crate::json::member(h, "files"@)->0,
                base as int,
                raw.len() as int,
                seq![],
            );
            &&& extraction_plan(raw) == (seq![OpView::Dir(seq![])] + sub.0, sub.1)
            &&& raw.subrange(base as int, (base + d.len()) as int) == d
            &&& base + d.len() == raw.len()
        }),
{
    let text = vstd::utf8::encode_utf8(json_text);
    let raw = archive_bytes(text, d);
    lemma_archive_round_trip(text, d);
    vstd::utf8::encode_utf8_valid_utf8(json_text);
    vstd::utf8::encode_utf8_decode_utf8(json_text);
    let base = 16 + round_up4(text.len());
    assert(layout_of(raw) == Ok::<(int, int), AsarError>((text.len() as int, base as int)));
    let jb = raw.subrange(16, 16 + text.len() as int);
    assert(jb == text);
    assert(vstd::utf8::valid_utf8(jb));
    assert(vstd::utf8::decode_utf8(jb) == json_text);
    assert(raw.subrange(base as int, (base + d.len()) as int) == raw.skip(base as int).subrange(
        0,
        d.len() as int,
    ));
}

/// Unpacking what packing wrote restores the tree. Take a root directory
/// `t` whose keys strictly increase in every directory (equal keys would
/// share one header member), and the archive framed
/// from its header text and data. If the header text reads back as the
/// header that was written (what `render_json` states for a header nesting
/// no deeper than the reader's limit, see `pack_archive`), unpacking the
/// archive fails nowhere and restores `t`.
#[verifier::spinoff_prover]
pub proof fn lemma_pack_then_extract(t: PackNode)
    requires
        t is Dir,
        tree_strict(t),
        header_pickle_total(vstd::utf8::encode_utf8(json_render(pack_node(t, 0).0)).len())
            <= u32::MAX,
        archive_bytes(
            vstd::utf8::encode_utf8(json_render(pack_node(t, 0).0)),
            pack_node(t, 0).1,
        ).len() <= usize::MAX,
        json_parse(json_render(pack_node(t, 0).0)) == Some(pack_node(t, 0).0),
    ensures
        unpacks_to(
            archive_bytes(
                vstd::utf8::encode_utf8(json_render(pack_node(t, 0).0)),
                pack_node(t, 0).1,
            ),
            t,
        ),
{
    let root = t->Dir_0@;
    let h = pack_node(t, 0).0;
    let d = pack_node(t, 0).1;
    let inner = pack_list(root, 0, seq![]);
    reveal_strlit("files");
    assert(h == Json::Object(seq![("files"@, Json::Object(inner.0))]));
    assert(crate::json::key_index(seq![("files"@, Json::Object(inner.0))], "files"@) == Some(0int));
    assert(crate::json::member(h, "files"@) == Some(Json::Object(inner.0)));
    lemma_plan_of_framed(json_render(h), h, d);
    let text = vstd::utf8::encode_utf8(json_render(h));
    let raw = archive_bytes(text, d);
    let base = 16 + round_up4(text.len());
    lemma_unpack_list(root, 0, base as int, raw, seq![]);
    let sub = plan_dir(Json::Object(inner.0), base as int, raw.len() as int, seq![]);
    assert((seq![OpView::Dir(seq![])] + sub.0).skip(1) == sub.0);
}

} // verus!
