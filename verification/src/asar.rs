//! The ASAR archive format (Chromium pickle framing):
//!
//! ```text
//! [u32 LE: 4]          size-pickle payload size (always 4)
//! [u32 LE: S]          size of the header pickle that follows
//! [u32 LE: P]          header-pickle payload size (4 + roundUp(J, 4))
//! [u32 LE: J]          JSON length
//! [J bytes]            JSON header: the file tree, with byte offsets
//! [padding to 4]       zero bytes
//! [file data ...]      offsets in the JSON are relative to this point
//! ```
//!
//! With `S = 4 + roundUp(P, 4)`, the file data starts at `8 + S`,
//! that is at `16 + roundUp(J, 4)`.
use vstd::prelude::*;
use crate::json::{
    get_member, json_parse, json_value, key_index, member, object_members, parse_json,
    utf8_text, value_as_bool, value_as_str, value_as_u64, Json, JsonNumber,
};
use crate::text::{chars_of, decimal, parse_usize, parse_usize_chars, push_decimal};

verus! {

/// Little-endian bytes of `n`.
pub open spec fn le32(n: u32) -> Seq<u8> {
    seq![(n % 256) as u8, ((n / 256) % 256) as u8, ((n / 65536) % 256) as u8, (n / 16777216) as u8]
}

/// The little-endian `u32` stored at `raw[at..at + 4]`.
pub open spec fn read_le32(raw: Seq<u8>, at: int) -> u32 {
    (raw[at] + 256 * raw[at + 1] + 65536 * raw[at + 2] + 16777216 * raw[at + 3]) as u32
}

/// `n` rounded up to a multiple of 4.
pub open spec fn round_up4(n: nat) -> nat {
    ((n + 3) / 4 * 4) as nat
}

/// `n` zero bytes.
pub open spec fn zeros(n: nat) -> Seq<u8> {
    Seq::new(n, |i: int| 0u8)
}

/// Size of the header pickle written on disk for a JSON header of `json_len` bytes.
pub open spec fn header_pickle_total(json_len: nat) -> nat {
    4 + round_up4(4 + json_len)
}

/// The archive holding the JSON header `json` and the file data `data`.
#[verifier::opaque]
pub open spec fn archive_bytes(json: Seq<u8>, data: Seq<u8>) -> Seq<u8> {
    le32(4) + le32(header_pickle_total(json.len()) as u32) + le32((4 + round_up4(json.len())) as u32) + le32(
        json.len() as u32,
    ) + json + zeros((round_up4(json.len()) - json.len()) as nat) + data
}

/// Why an archive could not be read or written.
#[derive(Debug, Clone, Copy, PartialEq, Eq, Structural)]
pub enum AsarError {
    /// Fewer than 16 bytes.
    TooSmall,
    /// The size pickle does not declare a 4-byte payload.
    InvalidSizePickle(u32),
    /// The JSON header runs past the end of the file.
    HeaderTruncated,
    /// The JSON header is not UTF-8.
    HeaderNotUtf8,
    /// The JSON header is not valid JSON.
    HeaderNotJson,
    /// The header has no `files` member.
    MissingFiles,
    /// A directory's `files` is not a JSON object.
    DirectoryNotObject,
    /// A file's `offset` is not a string.
    OffsetNotString,
    /// A file's `offset` is not a decimal integer.
    OffsetNotInteger,
    /// A file's `size` is not a non-negative integer.
    SizeNotNumber,
    /// Data start plus offset overflows.
    OffsetOverflow,
    /// Offset plus size overflows.
    SizeOverflow,
    /// A file's bytes lie (partly) past the end of the archive.
    EntryOutOfBounds,
    /// The header is too large for the 32-bit size fields.
    HeaderTooLarge,
}

/// The report for an archive error; `entry` names the entry concerned.
pub open spec fn asar_message(e: AsarError, entry: Seq<char>) -> Seq<char> {
    match e {
        AsarError::TooSmall => "file too small to be an ASAR archive"@,
        AsarError::InvalidSizePickle(v) => "invalid ASAR size-pickle payload size: "@ + decimal(v as nat),
        AsarError::HeaderTruncated => "ASAR header truncated"@,
        AsarError::HeaderNotUtf8 => "ASAR header JSON is not valid UTF-8"@,
        AsarError::HeaderNotJson => "parsing ASAR header JSON"@,
        AsarError::MissingFiles => "ASAR header missing 'files' key"@,
        AsarError::DirectoryNotObject => "expected JSON object for directory"@,
        AsarError::OffsetNotString => "offset must be a string"@,
        AsarError::OffsetNotInteger => "offset not a valid integer"@,
        AsarError::SizeNotNumber => "size must be a number"@,
        AsarError::OffsetOverflow => "ASAR file offset overflows usize"@,
        AsarError::SizeOverflow => "ASAR file size overflows usize"@,
        AsarError::EntryOutOfBounds => "ASAR entry "@ + entry + " points beyond archive data"@,
        AsarError::HeaderTooLarge => "out of range integral type conversion attempted"@,
    }
}

impl AsarError {
    /// The report for this error; `entry` is the path of the entry concerned,
    /// as it is to be shown.
    pub fn message(&self, entry: &str) -> (r: String)
        ensures
            r@ == asar_message(*self, entry@),
    {
        match self {
            AsarError::TooSmall => "file too small to be an ASAR archive".to_owned(),
            AsarError::InvalidSizePickle(v) => {
                let mut s = "invalid ASAR size-pickle payload size: ".to_owned();
                push_decimal(&mut s, *v as u64);
                s
            },
            AsarError::HeaderTruncated => "ASAR header truncated".to_owned(),
            AsarError::HeaderNotUtf8 => "ASAR header JSON is not valid UTF-8".to_owned(),
            AsarError::HeaderNotJson => "parsing ASAR header JSON".to_owned(),
            AsarError::MissingFiles => "ASAR header missing 'files' key".to_owned(),
            AsarError::DirectoryNotObject => "expected JSON object for directory".to_owned(),
            AsarError::OffsetNotString => "offset must be a string".to_owned(),
            AsarError::OffsetNotInteger => "offset not a valid integer".to_owned(),
            AsarError::SizeNotNumber => "size must be a number".to_owned(),
            AsarError::OffsetOverflow => "ASAR file offset overflows usize".to_owned(),
            AsarError::SizeOverflow => "ASAR file size overflows usize".to_owned(),
            AsarError::EntryOutOfBounds => {
                let mut s = "ASAR entry ".to_owned();
                s.append(entry);
                s.append(" points beyond archive data");
                s
            },
            AsarError::HeaderTooLarge => "out of range integral type conversion attempted".to_owned(),
        }
    }
}

/// Where the parts of an archive lie: the JSON header is `raw[16..16 + json_len]`,
/// file data starts at `data_base`.
pub struct Layout {
    pub json_len: usize,
    pub data_base: u64,
}

/// The layout `raw` declares, or why it is not an archive.
pub open spec fn layout_of(raw: Seq<u8>) -> Result<(int, int), AsarError> {
    if raw.len() < 16 {
        Err(AsarError::TooSmall)
    } else if read_le32(raw, 0) != 4 {
        Err(AsarError::InvalidSizePickle(read_le32(raw, 0)))
    } else if raw.len() < 16 + read_le32(raw, 12) {
        Err(AsarError::HeaderTruncated)
    } else {
        Ok((read_le32(raw, 12) as int, 8 + read_le32(raw, 4)))
    }
}

fn get_le32(raw: &[u8], at: usize) -> (r: u32)
    requires
        at + 4 <= raw@.len(),
    ensures
        r == read_le32(raw@, at as int),
{
    let v: u32 = raw[at] as u32 + 256 * (raw[at + 1] as u32) + 65536 * (raw[at + 2] as u32)
        + 16777216 * (raw[at + 3] as u32);
    v
}

/// Reads the framing of an archive: where its JSON header and file data lie.
pub fn read_layout(raw: &[u8]) -> (r: Result<Layout, AsarError>)
    ensures
        match layout_of(raw@) {
            Ok((j, b)) => r matches Ok(l) && l.json_len == j && l.data_base == b,
            Err(e) => r == Err::<Layout, AsarError>(e),
        },
{
    if raw.len() < 16 {
        return Err(AsarError::TooSmall);
    }
    let pickle_payload_size = get_le32(raw, 0);
    if pickle_payload_size != 4 {
        return Err(AsarError::InvalidSizePickle(pickle_payload_size));
    }
    let header_pickle_size = get_le32(raw, 4) as u64;
    let json_len = get_le32(raw, 12) as usize;
    if raw.len() - 16 < json_len {
        return Err(AsarError::HeaderTruncated);
    }
    Ok(Layout { json_len, data_base: 8 + header_pickle_size })
}

fn push_le32(out: &mut Vec<u8>, n: u32)
    ensures
        final(out)@ == old(out)@ + le32(n),
{
    out.push((n % 256) as u8);
    out.push(((n / 256) % 256) as u8);
    out.push(((n / 65536) % 256) as u8);
    out.push((n / 16777216) as u8);
    assert(final(out)@ =~= old(out)@ + le32(n));
}

/// Frames the JSON header `json` and the file data `data` as an archive.
pub fn encode_archive(json: &str, data: &[u8]) -> (r: Result<Vec<u8>, AsarError>)
    ensures
        header_pickle_total(vstd::utf8::encode_utf8(json@).len()) <= u32::MAX ==> (r matches Ok(a) && a@
            == archive_bytes(vstd::utf8::encode_utf8(json@), data@)),
        header_pickle_total(vstd::utf8::encode_utf8(json@).len()) > u32::MAX ==> r == Err::<Vec<u8>, AsarError>(
            AsarError::HeaderTooLarge,
        ),
{
    let json_bytes = json.as_bytes();
    let json_len = json_bytes.len();
    if json_len > 0xffff_ffff {
        return Err(AsarError::HeaderTooLarge);
    }
    let jl = json_len as u64;
    let padded_len = (jl + 3) / 4 * 4;
    let payload = 4 + padded_len;
    let total = 4 + (payload + 3) / 4 * 4;
    if total > 0xffff_ffff {
        return Err(AsarError::HeaderTooLarge);
    }
    proof {
        assert(padded_len == round_up4(jl as nat));
        assert(payload % 4 == 0);
        assert(total == 4 + payload);
        assert(round_up4(4 + jl as nat) == 4 + round_up4(jl as nat)) by (nonlinear_arith);
        assert(total == header_pickle_total(jl as nat));
    }
    let mut out: Vec<u8> = Vec::new();
    push_le32(&mut out, 4);
    push_le32(&mut out, total as u32);
    push_le32(&mut out, payload as u32);
    push_le32(&mut out, json_len as u32);
    let ghost head = out@;
    for i in 0..json_len
        invariant
            json_len == json_bytes@.len(),
            out@ == head + json_bytes@.take(i as int),
    {
        out.push(json_bytes[i]);
        assert(json_bytes@.take(i + 1) == json_bytes@.take(i as int).push(json_bytes@[i as int]));
    }
    assert(json_bytes@.take(json_len as int) == json_bytes@);
    let ghost with_json = out@;
    let pad = (padded_len - jl) as usize;
    for i in 0..pad
        invariant
            out@ == with_json + zeros(i as nat),
    {
        out.push(0u8);
        assert(zeros((i + 1) as nat) == zeros(i as nat).push(0u8));
    }
    let ghost with_pad = out@;
    let n = data.len();
    for i in 0..n
        invariant
            n == data@.len(),
            out@ == with_pad + data@.take(i as int),
    {
        out.push(data[i]);
        assert(data@.take(i + 1) == data@.take(i as int).push(data@[i as int]));
    }
    assert(data@.take(n as int) == data@);
    proof {
        reveal(archive_bytes);
    }
    Ok(out)
}

proof fn lemma_le32_value(n: u32)
    ensures
        (n % 256) as u8 + 256 * ((n / 256) % 256) as u8 + 65536 * ((n / 65536) % 256) as u8
            + 16777216 * (n / 16777216) as u8 == n,
{
    let x = n as int;
    assert(x == x % 256 + 256 * ((x / 256) % 256) + 65536 * ((x / 65536) % 256) + 16777216 * (x
        / 16777216)) by (nonlinear_arith)
        requires
            0 <= x < 0x1_0000_0000,
    ;
}

/// The `u32` read back from where `le32(n)` was written is `n`.
proof fn lemma_read_le32(raw: Seq<u8>, at: int, n: u32)
    requires
        0 <= at,
        at + 4 <= raw.len(),
        raw.subrange(at, at + 4) == le32(n),
    ensures
        read_le32(raw, at) == n,
{
    assert(raw[at] == raw.subrange(at, at + 4)[0]);
    assert(raw[at + 1] == raw.subrange(at, at + 4)[1]);
    assert(raw[at + 2] == raw.subrange(at, at + 4)[2]);
    assert(raw[at + 3] == raw.subrange(at, at + 4)[3]);
    lemma_le32_value(n);
}

/// Reading the framing of a written archive finds the JSON header where it
/// was written and the file data right after its padding.
pub proof fn lemma_archive_round_trip(json: Seq<u8>, data: Seq<u8>)
    requires
        header_pickle_total(json.len()) <= u32::MAX,
    ensures
        layout_of(archive_bytes(json, data)) == Ok::<(int, int), AsarError>(
            (json.len() as int, 16 + round_up4(json.len()) as int),
        ),
        archive_bytes(json, data).subrange(16, 16 + json.len() as int) == json,
        archive_bytes(json, data).skip(16 + round_up4(json.len()) as int) == data,
        archive_bytes(json, data).len() == 16 + round_up4(json.len()) + data.len(),
{
    reveal(archive_bytes);
    let raw = archive_bytes(json, data);
    let jl = json.len();
    let total = header_pickle_total(jl);
    assert(round_up4(4 + jl) == 4 + round_up4(jl)) by (nonlinear_arith);
    assert(round_up4(jl) >= jl && round_up4(jl) < jl + 4) by (nonlinear_arith);
    let pad = zeros((round_up4(jl) - jl) as nat);
    assert(raw == le32(4) + le32(total as u32) + le32((4 + round_up4(jl)) as u32) + le32(jl as u32) + json + pad
        + data);
    assert(raw.subrange(0, 4) == le32(4));
    assert(raw.subrange(4, 8) == le32(total as u32));
    assert(raw.subrange(12, 16) == le32(jl as u32));
    lemma_read_le32(raw, 0, 4);
    lemma_read_le32(raw, 4, total as u32);
    lemma_read_le32(raw, 12, jl as u32);
    assert(raw.subrange(16, 16 + jl as int) == json);
    assert(raw.skip(16 + round_up4(jl) as int) == data);
}

/// A step of unpacking an archive under a destination directory. Paths are
/// lists of names, each joined under the previous one.
pub enum ExtractOp {
    /// Create this directory (and its parents).
    CreateDir(Vec<String>),
    /// Write `raw[start..end]` to this file (creating its parents), and mark
    /// it executable when `executable` holds.
    WriteFile { path: Vec<String>, start: usize, end: usize, executable: bool },
}

/// An extraction step in terms of character sequences.
pub enum OpView {
    Dir(Seq<Seq<char>>),
    File(Seq<Seq<char>>, int, int, bool),
}

/// A path as a sequence of names.
pub open spec fn path_view(p: Vec<String>) -> Seq<Seq<char>> {
    p@.map_values(|s: String| s@)
}

/// An extraction step as a character-sequence value.
pub open spec fn op_view(op: ExtractOp) -> OpView {
    match op {
        ExtractOp::CreateDir(p) => OpView::Dir(path_view(p)),
        ExtractOp::WriteFile { path, start, end, executable } => OpView::File(
            path_view(path),
            start as int,
            end as int,
            executable,
        ),
    }
}

/// A list of steps as character-sequence values.
pub open spec fn ops_view(ops: Seq<ExtractOp>) -> Seq<OpView> {
    ops.map_values(|op: ExtractOp| op_view(op))
}

/// Where unpacking stopped: the error and the path it concerns.
pub open spec fn failure_view(f: Option<(AsarError, Vec<String>)>) -> Option<(AsarError, Seq<Seq<char>>)> {
    match f {
        Some((e, p)) => Some((e, path_view(p))),
        None => None,
    }
}

/// Steps and the failure that ended them, if any.
pub type PlanView = (Seq<OpView>, Option<(AsarError, Seq<Seq<char>>)>);

/// The step for a file entry `info` at `path`: its bytes are `size` bytes
/// at `offset` (a decimal string) past the data start `base`, inside an
/// archive of `len` bytes; it is executable when `executable` is `true`.
pub open spec fn file_op(info: Json, base: int, len: int, path: Seq<Seq<char>>) -> Result<OpView, AsarError> {
    match member(info, "offset"@) {
        Some(Json::Str(o)) => match parse_usize(o) {
            None => Err(AsarError::OffsetNotInteger),
            Some(off) => match member(info, "size"@) {
                Some(Json::Number(JsonNumber::PosInt(size))) => if base + off > usize::MAX {
                    Err(AsarError::OffsetOverflow)
                } else if base + off + size > usize::MAX {
                    Err(AsarError::SizeOverflow)
                } else if base + off + size > len {
                    Err(AsarError::EntryOutOfBounds)
                } else {
                    Ok(
                        OpView::File(
                            path,
                            base + off,
                            base + off + size,
                            member(info, "executable"@) == Some(Json::Bool(true)),
                        ),
                    )
                },
                _ => Err(AsarError::SizeNotNumber),
            },
        },
        _ => Err(AsarError::OffsetNotString),
    }
}

/// The steps for the entry `info` at `path`: a directory (it has a `files`
/// member) is created and its contents unpacked; anything else is a file.
pub open spec fn plan_entry(info: Json, base: int, len: int, path: Seq<Seq<char>>) -> PlanView
    decreases info,
{
    let as_file = match file_op(info, base, len, path) {
        Ok(op) => (seq![op], None),
        Err(e) => (seq![], Some((e, path))),
    };
    match info {
        Json::Object(ms) => match key_index(ms, "files"@) {
            Some(k) => if 0 <= k < ms.len() {
                let sub = plan_dir(ms[k].1, base, len, path);
                (seq![OpView::Dir(path)] + sub.0, sub.1)
            } else {
                as_file
            },
            None => as_file,
        },
        _ => as_file,
    }
}

/// The steps for the members of a directory listed in `es`, in order,
/// stopping at the first failure.
pub open spec fn plan_members(es: Seq<(Seq<char>, Json)>, base: int, len: int, dir: Seq<Seq<char>>) -> PlanView
    decreases es,
{
    if es.len() == 0 {
        (seq![], None)
    } else {
        let first = plan_entry(es[0].1, base, len, dir.push(es[0].0));
        if first.1 is Some {
            first
        } else {
            let rest = plan_members(es.subrange(1, es.len() as int), base, len, dir);
            (first.0 + rest.0, rest.1)
        }
    }
}

/// The steps for a directory's `files` value `node`, which must be an object.
pub open spec fn plan_dir(node: Json, base: int, len: int, dir: Seq<Seq<char>>) -> PlanView
    decreases node,
{
    match node {
        Json::Object(es) => plan_members(es, base, len, dir),
        _ => (seq![], Some((AsarError::DirectoryNotObject, dir))),
    }
}

fn clone_path(p: &Vec<String>) -> (r: Vec<String>)
    ensures
        path_view(r) == path_view(*p),
{
    let mut r: Vec<String> = Vec::new();
    let n = p.len();
    for i in 0..n
        invariant
            n == p@.len(),
            path_view(r) == path_view(*p).take(i as int),
    {
        r.push(p[i].clone());
        assert(path_view(r) == path_view(*p).take(i as int).push(p@[i as int]@));
        assert(path_view(*p).take(i + 1) == path_view(*p).take(i as int).push(p@[i as int]@));
    }
    assert(path_view(*p).take(n as int) == path_view(*p));
    r
}

fn file_op_exec(info: &serde_json::Value, base: u64, len: usize, path: Vec<String>) -> (r: Result<
    ExtractOp,
    (AsarError, Vec<String>),
>)
    ensures
        match file_op(json_value(*info), base as int, len as int, path_view(path)) {
            Ok(o) => r matches Ok(op) && op_view(op) == o,
            Err(e) => r matches Err((e2, p)) && e2 == e && path_view(p) == path_view(path),
        },
{
    let off_str = match get_member(info, "offset") {
        Some(v) => match value_as_str(v) {
            Some(s) => s,
            None => {
                return Err((AsarError::OffsetNotString, path));
            },
        },
        None => {
            return Err((AsarError::OffsetNotString, path));
        },
    };
    let off = match parse_usize_chars(&chars_of(off_str)) {
        Some(o) => o,
        None => {
            return Err((AsarError::OffsetNotInteger, path));
        },
    };
    let size = match get_member(info, "size") {
        Some(v) => match value_as_u64(v) {
            Some(n) => n,
            None => {
                return Err((AsarError::SizeNotNumber, path));
            },
        },
        None => {
            return Err((AsarError::SizeNotNumber, path));
        },
    };
    let start = base as u128 + off as u128;
    if start > usize::MAX as u128 {
        return Err((AsarError::OffsetOverflow, path));
    }
    let end = start + size as u128;
    if end > usize::MAX as u128 {
        return Err((AsarError::SizeOverflow, path));
    }
    if end > len as u128 {
        return Err((AsarError::EntryOutOfBounds, path));
    }
    let executable = match get_member(info, "executable") {
        Some(v) => match value_as_bool(v) {
            Some(b) => b,
            None => false,
        },
        None => false,
    };
    Ok(ExtractOp::WriteFile { path, start: start as usize, end: end as usize, executable })
}

fn plan_entry_exec(
    info: &serde_json::Value,
    base: u64,
    len: usize,
    path: Vec<String>,
    ops: &mut Vec<ExtractOp>,
) -> (r: Option<(AsarError, Vec<String>)>)
    ensures
        ops_view(final(ops)@) == ops_view(old(ops)@) + plan_entry(
            json_value(*info),
            base as int,
            len as int,
            path_view(path),
        ).0,
        failure_view(r) == plan_entry(json_value(*info), base as int, len as int, path_view(path)).1,
    decreases json_value(*info),
{
    proof {
        if let Json::Object(ms) = json_value(*info) {
            crate::json::lemma_key_index(ms, "files"@);
        }
    }
    match get_member(info, "files") {
        Some(files) => {
            let ghost ms = json_value(*info)->Object_0;
            let ghost k = key_index(ms, "files"@)->0;
            assert(json_value(*files) == ms[k].1);
            assert(decreases_to!(json_value(*info) => json_value(*files))) by {
                assert(decreases_to!(json_value(*info) => ms));
                assert(decreases_to!(ms => ms[k]));
                assert(decreases_to!(ms[k] => ms[k].1));
            }
            let ghost before = ops_view(ops@);
            ops.push(ExtractOp::CreateDir(clone_path(&path)));
            assert(ops_view(ops@) == before.push(OpView::Dir(path_view(path))));
            let r = plan_dir_exec(files, base, len, path, ops);
            assert(before.push(OpView::Dir(path_view(path))) + plan_dir(json_value(*files), base as int, len as int, path_view(path)).0 == before + (seq![OpView::Dir(path_view(path))] + plan_dir(json_value(*files), base as int, len as int, path_view(path)).0));
            r
        },
        None => {
            let ghost before = ops_view(ops@);
            match file_op_exec(info, base, len, path) {
                Ok(op) => {
                    ops.push(op);
                    assert(ops_view(ops@) == before.push(op_view(op)));
                    assert(before.push(op_view(op)) == before + seq![op_view(op)]);
                    None
                },
                Err(f) => {
                    assert(before == before + Seq::<OpView>::empty());
                    Some(f)
                },
            }
        },
    }
}

fn plan_dir_exec(
    node: &serde_json::Value,
    base: u64,
    len: usize,
    dir: Vec<String>,
    ops: &mut Vec<ExtractOp>,
) -> (r: Option<(AsarError, Vec<String>)>)
    ensures
        ops_view(final(ops)@) == ops_view(old(ops)@) + plan_dir(
            json_value(*node),
            base as int,
            len as int,
            path_view(dir),
        ).0,
        failure_view(r) == plan_dir(json_value(*node), base as int, len as int, path_view(dir)).1,
    decreases json_value(*node),
{
    let members = match object_members(node) {
        None => {
            assert(ops_view(ops@) == ops_view(ops@) + Seq::<OpView>::empty());
            return Some((AsarError::DirectoryNotObject, dir));
        },
        Some(ms) => ms,
    };
    let ghost es = json_value(*node)->Object_0;
    let ghost d = path_view(dir);
    let ghost start = ops_view(ops@);
    let n = members.len();
    assert(es.subrange(0, es.len() as int) == es);
    for i in 0..n
        invariant
            n == members@.len(),
            n == es.len(),
            json_value(*node) == Json::Object(es),
            forall|j: int|
                0 <= j < es.len() ==> (#[trigger] members@[j]).0@ == es[j].0 && json_value(
                    *members@[j].1,
                ) == es[j].1,
            d == path_view(dir),
            start == ops_view(old(ops)@),
            plan_members(es, base as int, len as int, d).1 == plan_members(
                es.subrange(i as int, es.len() as int),
                base as int,
                len as int,
                d,
            ).1,
            start + plan_members(es, base as int, len as int, d).0 == ops_view(ops@) + plan_members(
                es.subrange(i as int, es.len() as int),
                base as int,
                len as int,
                d,
            ).0,
    {
        let ghost rest = es.subrange(i as int, es.len() as int);
        assert(rest[0] == es[i as int]);
        assert(rest.subrange(1, rest.len() as int) == es.subrange(i + 1, es.len() as int));
        let (name, info) = &members[i];
        let mut path = clone_path(&dir);
        path.push(name.clone());
        assert(path_view(path) == d.push(es[i as int].0));
        assert(decreases_to!(json_value(*node) => json_value(**info))) by {
            assert(decreases_to!(json_value(*node) => json_value(*node)->Object_0));
            assert(decreases_to!(es => es[i as int]));
            assert(decreases_to!(es[i as int] => es[i as int].1));
        }
        let ghost before = ops_view(ops@);
        let ghost first = plan_entry(es[i as int].1, base as int, len as int, d.push(es[i as int].0));
        match plan_entry_exec(info, base, len, path, ops) {
            Some(f) => {
                assert(plan_members(rest, base as int, len as int, d) == first);
                return Some(f);
            },
            None => {
                let ghost later = plan_members(es.subrange(i + 1, es.len() as int), base as int, len as int, d);
                assert(before + (first.0 + later.0) == (before + first.0) + later.0);
            },
        }
    }
    assert(es.subrange(n as int, es.len() as int) == Seq::<(Seq<char>, Json)>::empty());
    assert(ops_view(ops@) == ops_view(ops@) + Seq::<OpView>::empty());
    None
}

/// What unpacking an archive does: the steps to perform, in order, and the
/// failure that stops it after them, if any.
pub struct ExtractionPlan {
    pub ops: Vec<ExtractOp>,
    pub failure: Option<(AsarError, Vec<String>)>,
}

/// Unpacking `raw`: the framing and the JSON header are checked first; then
/// the destination is created and every entry of the header's `files` tree
/// is unpacked in header order, until the first entry that fails.
pub open spec fn extraction_plan(raw: Seq<u8>) -> PlanView {
    match layout_of(raw) {
        Err(e) => (seq![], Some((e, seq![]))),
        Ok((jl, base)) => {
            let jb = raw.subrange(16, 16 + jl);
            if !vstd::utf8::valid_utf8(jb) {
                (seq![], Some((AsarError::HeaderNotUtf8, seq![])))
            } else {
                match json_parse(vstd::utf8::decode_utf8(jb)) {
                    None => (seq![], Some((AsarError::HeaderNotJson, seq![]))),
                    Some(h) => match member(h, "files"@) {
                        None => (seq![OpView::Dir(seq![])], Some((AsarError::MissingFiles, seq![]))),
                        Some(files) => {
                            let sub = plan_dir(files, base, raw.len() as int, seq![]);
                            (seq![OpView::Dir(seq![])] + sub.0, sub.1)
                        },
                    },
                }
            }
        },
    }
}

/// The steps that unpack the archive `raw`, and where unpacking fails.
pub fn plan_extraction(raw: &[u8]) -> (r: ExtractionPlan)
    ensures
        (ops_view(r.ops@), failure_view(r.failure)) == extraction_plan(raw@),
{
    let mut ops: Vec<ExtractOp> = Vec::new();
    let empty: Vec<String> = Vec::new();
    assert(path_view(empty) == Seq::<Seq<char>>::empty());
    let layout = match read_layout(raw) {
        Ok(l) => l,
        Err(e) => {
            return ExtractionPlan { ops, failure: Some((e, empty)) };
        },
    };
    assert(raw@.len() == raw.len());
    assert(16 + layout.json_len <= raw.len());
    let jb = vstd::slice::slice_subrange(raw, 16, 16 + layout.json_len);
    let text = match utf8_text(jb) {
        Some(s) => s,
        None => {
            return ExtractionPlan { ops, failure: Some((AsarError::HeaderNotUtf8, empty)) };
        },
    };
    proof {
        vstd::utf8::encode_utf8_decode_utf8(text@);
    }
    let header = match parse_json(text) {
        Some(h) => h,
        None => {
            return ExtractionPlan { ops, failure: Some((AsarError::HeaderNotJson, empty)) };
        },
    };
    ops.push(ExtractOp::CreateDir(Vec::new()));
    assert(ops_view(ops@) == seq![OpView::Dir(Seq::<Seq<char>>::empty())]);
    let files = match get_member(&header, "files") {
        Some(f) => f,
        None => {
            return ExtractionPlan { ops, failure: Some((AsarError::MissingFiles, empty)) };
        },
    };
    let failure = plan_dir_exec(files, layout.data_base, raw.len(), empty, &mut ops);
    ExtractionPlan { ops, failure }
}

} // verus!
