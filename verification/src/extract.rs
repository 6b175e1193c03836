//! Reading MSIX/MSIXBundle containers: which entries are safe to unpack,
//! which inner package to take from a bundle, and the package version.
use vstd::prelude::*;
use crate::text::{
    chars_of, ends_with, ends_with_chars, find, find_chars, lemma_find_from, slice_chars,
    split_on, split_on_chars, starts_with, starts_with_chars, string_of,
};

verus! {

/// The Unicode lower-case mapping of a string, as `str::to_lowercase` computes it.
pub uninterp spec fn unicode_lowercase(s: Seq<char>) -> Seq<char>;

/// `str::to_lowercase`. Its result is named by `unicode_lowercase`: the
/// Unicode case mapping is not restated here.
#[verifier::external_body]
pub(crate) fn to_lowercase(s: &str) -> (r: String)
    ensures
        r@ == unicode_lowercase(s@),
{
    s.to_lowercase()
}

/// An archive entry path whose components are all plain names: it is not
/// absolute, does not start with `.` as a component, and has no `..`
/// component (what `Path::components` yields as `Component::Normal` only).
pub open spec fn is_plain_relative(name: Seq<char>) -> bool {
    &&& !(name.len() > 0 && name[0] == '/')
    &&& !(name == seq!['.'] || starts_with(name, seq!['.', '/']))
    &&& forall|i: int| 0 <= i < split_on(name, '/').len() ==> #[trigger] split_on(name, '/')[i] != seq!['.', '.']
}

/// A ZIP entry path that would leave the extraction directory.
#[derive(Debug)]
pub struct InvalidEntryPath {
    /// The entry path as stored in the archive.
    pub name: String,
}

impl InvalidEntryPath {
    /// The report for this error.
    pub fn message(&self) -> (r: String)
        ensures
            r@ == "invalid zip entry path: "@ + self.name@,
    {
        let mut m = "invalid zip entry path: ".to_owned();
        m.append(self.name.as_str());
        m
    }
}

/// Accepts an entry path made only of plain names, to be joined under the
/// extraction directory.
pub fn sanitize(name: &str) -> (r: Result<String, InvalidEntryPath>)
    ensures
        is_plain_relative(name@) ==> (r matches Ok(p) && p@ == name@),
        !is_plain_relative(name@) ==> (r matches Err(e) && e.name@ == name@),
{
    let s = chars_of(name);
    let n = s.len();
    let bad_start = (n > 0 && s[0] == '/') || (n == 1 && s[0] == '.') || (n >= 2 && s[0] == '.'
        && s[1] == '/');
    proof {
        if n >= 2 {
            assert(starts_with(s@, seq!['.', '/']) == (s@[0] == '.' && s@[1] == '/')) by {
                if s@[0] == '.' && s@[1] == '/' {
                    assert(s@.take(2) =~= seq!['.', '/']);
                }
                if starts_with(s@, seq!['.', '/']) {
                    assert(s@.take(2)[0] == s@[0]);
                    assert(s@.take(2)[1] == s@[1]);
                }
            }
        } else {
            assert(!starts_with(s@, seq!['.', '/']));
        }
        if n == 1 && s@[0] == '.' {
            assert(s@ =~= seq!['.']);
        }
        if s@ == seq!['.'] {
            assert(s@[0] == '.');
        }
    }
    if bad_start {
        return Err(InvalidEntryPath { name: name.to_owned() });
    }
    let parts = split_on_chars(&s, '/');
    let ghost ps = parts@.map_values(|v: Vec<char>| v@);
    let m = parts.len();
    for i in 0..m
        invariant
            m == parts@.len(),
            ps == parts@.map_values(|v: Vec<char>| v@),
            ps == split_on(s@, '/'),
            s@ == name@,
            forall|j: int| 0 <= j < i ==> #[trigger] ps[j] != seq!['.', '.'],
    {
        assert(ps[i as int] == parts@[i as int]@);
        let p = &parts[i];
        if p.len() == 2 && p[0] == '.' && p[1] == '.' {
            assert(p@ =~= seq!['.', '.']);
            return Err(InvalidEntryPath { name: name.to_owned() });
        }
        assert(p@ != seq!['.', '.']) by {
            if p@ == seq!['.', '.'] {
                assert(p@.len() == 2 && p@[0] == '.' && p@[1] == '.');
            }
        }
    }
    Ok(name.to_owned())
}

/// Why the package version could not be read from a manifest.
#[derive(Debug, PartialEq, Eq, Structural)]
pub enum ManifestError {
    /// No `<Identity` element.
    NoIdentity,
    /// The identity has no `Version="` attribute.
    NoVersion,
    /// The version attribute has no closing quote.
    UnclosedVersion,
}

impl ManifestError {
    /// The report for this error.
    pub fn message(&self) -> (r: String)
        ensures
            r@ == match self {
                ManifestError::NoIdentity => "no <Identity> in manifest"@,
                ManifestError::NoVersion => "no Version= attribute"@,
                ManifestError::UnclosedVersion => "unclosed Version attribute"@,
            },
    {
        match self {
            ManifestError::NoIdentity => "no <Identity> in manifest".to_owned(),
            ManifestError::NoVersion => "no Version= attribute".to_owned(),
            ManifestError::UnclosedVersion => "unclosed Version attribute".to_owned(),
        }
    }
}

/// The value of the first `Version="..."` attribute at or after the first
/// `<Identity` of a package manifest.
pub open spec fn manifest_version(xml: Seq<char>) -> Result<Seq<char>, ManifestError> {
    match find(xml, "<Identity"@) {
        None => Err(ManifestError::NoIdentity),
        Some(i) => {
            let after = xml.skip(i);
            match find(after, "Version=\""@) {
                None => Err(ManifestError::NoVersion),
                Some(j) => {
                    let v = after.skip(j + 9);
                    match find(v, "\""@) {
                        None => Err(ManifestError::UnclosedVersion),
                        Some(e) => Ok(v.take(e)),
                    }
                },
            }
        },
    }
}

fn find_lit(s: &[char], pat: &str) -> (r: Option<usize>)
    ensures
        r matches Some(k) ==> find(s@, pat@) == Some(k as int) && k + pat@.len() <= s@.len(),
        r is None ==> find(s@, pat@) is None,
{
    let p = chars_of(pat);
    let r = find_chars(s, &p);
    proof {
        lemma_find_from(s@, p@, 0);
    }
    r
}

/// The package version declared by an `AppxManifest.xml` or
/// `AppxBundleManifest.xml`.
pub fn version_from_xml(xml: &str) -> (r: Result<String, ManifestError>)
    ensures
        match manifest_version(xml@) {
            Ok(v) => r matches Ok(s) && s@ == v,
            Err(e) => r == Err::<String, ManifestError>(e),
        },
{
    let x = chars_of(xml);
    let i = match find_lit(&x, "<Identity") {
        None => {
            return Err(ManifestError::NoIdentity);
        },
        Some(i) => i,
    };
    let after = slice_chars(&x, i, x.len());
    assert(after@ == x@.skip(i as int));
    let j = match find_lit(&after, "Version=\"") {
        None => {
            return Err(ManifestError::NoVersion);
        },
        Some(j) => j,
    };
    proof {
        reveal_strlit("Version=\"");
    }
    assert("Version=\""@.len() == 9);
    let v = slice_chars(&after, j + 9, after.len());
    assert(v@ == after@.skip(j + 9));
    match find_lit(&v, "\"") {
        None => Err(ManifestError::UnclosedVersion),
        Some(e) => {
            let out = slice_chars(&v, 0, e);
            assert(out@ == v@.take(e as int));
            Ok(string_of(&out))
        },
    }
}

/// `name` in lower case names an x64 MSIX or APPX package.
pub open spec fn is_x64_package(name: Seq<char>) -> bool {
    ends_with(unicode_lowercase(name), "_x64.msix"@) || ends_with(
        unicode_lowercase(name),
        "_x64.appx"@,
    )
}

/// Position of the first x64 inner package among the entry names of a bundle.
pub fn find_x64_inner(names: &[String]) -> (r: Option<usize>)
    ensures
        r matches Some(i) ==> i < names@.len() && is_x64_package(names@[i as int]@) && forall|
            j: int,
        | 0 <= j < i ==> !is_x64_package(#[trigger] names@[j]@),
        r is None ==> forall|j: int| 0 <= j < names@.len() ==> !is_x64_package(#[trigger] names@[j]@),
        r matches Some(i) ==> ends_with(unicode_lowercase(names@[i as int]@), "_x64.msix"@) || ends_with(
            unicode_lowercase(names@[i as int]@),
            "_x64.appx"@,
        ),
        forall|k: int|
            0 <= k < names@.len() && (ends_with(unicode_lowercase(names@[k]@), "_x64.msix"@) || ends_with(
                unicode_lowercase(names@[k]@),
                "_x64.appx"@,
            )) ==> (r matches Some(i) && i <= k),
{
    let msix = chars_of("_x64.msix");
    let appx = chars_of("_x64.appx");
    let n = names.len();
    for i in 0..n
        invariant
            n == names@.len(),
            msix@ == "_x64.msix"@,
            appx@ == "_x64.appx"@,
            forall|j: int| 0 <= j < i ==> !is_x64_package(#[trigger] names@[j]@),
    {
        let lower = chars_of(to_lowercase(names[i].as_str()).as_str());
        if ends_with_chars(&lower, &msix) || ends_with_chars(&lower, &appx) {
            return Some(i);
        }
    }
    None
}

/// The two kinds of payload the tool unpacks.
#[derive(Debug, PartialEq, Eq, Structural)]
pub enum PayloadKind {
    /// `.msixbundle` / `.appxbundle`: a bundle holding per-architecture packages.
    Bundle,
    /// `.msix` / `.appx`: a single package.
    Single,
}

/// The payload kind for a file extension, compared in lower case; the
/// lower-cased extension when it is not supported.
pub open spec fn payload_kind_of(ext: Seq<char>) -> Result<PayloadKind, Seq<char>> {
    let l = unicode_lowercase(ext);
    if l == "msixbundle"@ || l == "appxbundle"@ {
        Ok(PayloadKind::Bundle)
    } else if l == "msix"@ || l == "appx"@ {
        Ok(PayloadKind::Single)
    } else {
        Err(l)
    }
}

fn eq_lit(a: &[char], lit: &str) -> (r: bool)
    ensures
        r == (a@ == lit@),
{
    let b = chars_of(lit);
    if a.len() != b.len() {
        return false;
    }
    let r = starts_with_chars(a, &b);
    assert(a@.take(b@.len() as int) == a@);
    r
}

/// How to unpack a payload with file extension `ext`; the unsupported
/// extension, in lower case, otherwise.
pub fn payload_kind(ext: &str) -> (r: Result<PayloadKind, String>)
    ensures
        match payload_kind_of(ext@) {
            Ok(k) => r == Ok::<PayloadKind, String>(k),
            Err(l) => r matches Err(s) && s@ == l,
        },
{
    let lower = to_lowercase(ext);
    let l = chars_of(lower.as_str());
    if eq_lit(&l, "msixbundle") || eq_lit(&l, "appxbundle") {
        Ok(PayloadKind::Bundle)
    } else if eq_lit(&l, "msix") || eq_lit(&l, "appx") {
        Ok(PayloadKind::Single)
    } else {
        Err(lower)
    }
}

/// The inner packages taken from a bundle are exactly those whose
/// lower-case names end in `_x64.msix` or `_x64.appx`: both MSIX and APPX
/// x64 packages count, and nothing else does.
pub proof fn lemma_x64_package_names(name: Seq<char>)
    ensures
        ends_with(unicode_lowercase(name), "_x64.msix"@) ==> is_x64_package(name),
        ends_with(unicode_lowercase(name), "_x64.appx"@) ==> is_x64_package(name),
        is_x64_package(name) ==> ends_with(unicode_lowercase(name), "_x64.msix"@) || ends_with(
            unicode_lowercase(name),
            "_x64.appx"@,
        ),
{
}

/// `find_x64_inner` takes the first entry whose lower-case name ends in
/// `_x64.msix` or `_x64.appx`: given such an entry at `k`, it returns a
/// position no later than `k`, holding such an entry.
pub proof fn lemma_first_x64_entry(names: Seq<Seq<char>>, k: int, r: Option<usize>)
    requires
        0 <= k < names.len(),
        ends_with(unicode_lowercase(names[k]), "_x64.msix"@) || ends_with(
            unicode_lowercase(names[k]),
            "_x64.appx"@,
        ),
        r matches Some(i) ==> i < names.len() && is_x64_package(names[i as int]) && forall|j: int|
            0 <= j < i ==> !is_x64_package(#[trigger] names[j]),
        r is None ==> forall|j: int| 0 <= j < names.len() ==> !is_x64_package(#[trigger] names[j]),
    ensures
        r matches Some(i) && i <= k && (ends_with(unicode_lowercase(names[i as int]), "_x64.msix"@)
            || ends_with(unicode_lowercase(names[i as int]), "_x64.appx"@)),
{
    lemma_x64_package_names(names[k]);
    if let Some(i) = r {
        lemma_x64_package_names(names[i as int]);
    }
}

} // verus!
