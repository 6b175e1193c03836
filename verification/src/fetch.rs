//! Choosing the package to download from the rg-adguard link list, and the
//! names under which downloads are fetched and cached.
use vstd::prelude::*;
use crate::text::{
    ascii_lowercase, chars_of, contains, ends_with, ends_with_chars, find, find_chars,
    lemma_find_from, replace_all, replace_all_chars, slice_chars, starts_with, starts_with_chars,
    string_of, to_ascii_lowercase_chars, trim, trim_chars, utf8_len, utf8_len_wide,
};

verus! {

/// Rank of a listed file name: bundles first, then single packages, x64 and
/// neutral builds preferred, block maps, encrypted, symbol and test packages last.
pub open spec fn score_of(name: Seq<char>) -> int {
    let l = ascii_lowercase(name);
    (if ends_with(l, ".msixbundle"@) || ends_with(l, ".appxbundle"@) {
        100int
    } else {
        0int
    }) + (if ends_with(l, ".msix"@) || ends_with(l, ".appx"@) {
        50int
    } else {
        0int
    }) + (if contains(l, "_x64"@) {
        20int
    } else {
        0int
    }) + (if contains(l, "neutral"@) {
        5int
    } else {
        0int
    }) - (if contains(l, "blockmap"@) || contains(l, "eappx"@) || contains(l, "symbol"@)
        || contains(l, "test"@) {
        200int
    } else {
        0int
    })
}

/// A package file (bundle or single MSIX/APPX) that is not a block map,
/// encrypted package, symbol package or test package.
pub open spec fn is_candidate(name: Seq<char>) -> bool {
    let l = ascii_lowercase(name);
    (ends_with(l, ".msixbundle"@) || ends_with(l, ".appxbundle"@) || ends_with(l, ".msix"@)
        || ends_with(l, ".appx"@)) && !contains(l, "blockmap"@) && !contains(l, "eappx"@)
        && !contains(l, "symbol"@) && !contains(l, "test"@)
}

fn ends_with_lit(l: &[char], pat: &str) -> (r: bool)
    ensures
        r == ends_with(l@, pat@),
{
    ends_with_chars(l, &chars_of(pat))
}

fn contains_lit(l: &[char], pat: &str) -> (r: bool)
    ensures
        r == contains(l@, pat@),
{
    find_chars(l, &chars_of(pat)).is_some()
}

/// Rank of a listed file name (higher is preferred).
pub fn classify_score(name: &str) -> (r: i32)
    ensures
        r == score_of(name@),
        is_candidate(name@) && (ends_with(ascii_lowercase(name@), ".msixbundle"@) || ends_with(
            ascii_lowercase(name@),
            ".appxbundle"@,
        )) ==> 100 <= r <= 125,
        is_candidate(name@) && (ends_with(ascii_lowercase(name@), ".msix"@) || ends_with(
            ascii_lowercase(name@),
            ".appx"@,
        )) ==> 50 <= r <= 75,
{
    proof {
        lemma_score_value(name@);
    }
    let lower = to_ascii_lowercase_chars(&chars_of(name));
    let mut score: i32 = 0;
    if ends_with_lit(&lower, ".msixbundle") || ends_with_lit(&lower, ".appxbundle") {
        score += 100;
    }
    if ends_with_lit(&lower, ".msix") || ends_with_lit(&lower, ".appx") {
        score += 50;
    }
    if contains_lit(&lower, "_x64") {
        score += 20;
    }
    if contains_lit(&lower, "neutral") {
        score += 5;
    }
    if contains_lit(&lower, "blockmap") || contains_lit(&lower, "eappx") || contains_lit(
        &lower,
        "symbol",
    ) || contains_lit(&lower, "test") {
        score -= 200;
    }
    score
}

/// Whether a listed file is an installable package worth considering.
pub fn is_package_candidate(name: &str) -> (r: bool)
    ensures
        r == is_candidate(name@),
{
    let lower = to_ascii_lowercase_chars(&chars_of(name));
    (ends_with_lit(&lower, ".msixbundle") || ends_with_lit(&lower, ".appxbundle")
        || ends_with_lit(&lower, ".msix") || ends_with_lit(&lower, ".appx")) && !contains_lit(
        &lower,
        "blockmap",
    ) && !contains_lit(&lower, "eappx") && !contains_lit(&lower, "symbol") && !contains_lit(
        &lower,
        "test",
    )
}

/// ASCII letters, digits, `.`, `-` and `_` stay; anything else becomes `_`.
pub open spec fn safe_char(c: char) -> char {
    if ('0' <= c <= '9') || ('a' <= c <= 'z') || ('A' <= c <= 'Z') || c == '.' || c == '-' || c
        == '_' {
        c
    } else {
        '_'
    }
}

/// A file name safe to create in the cache directory.
pub fn sanitize_filename(name: &str) -> (r: String)
    ensures
        r@ == name@.map_values(|c: char| safe_char(c)),
{
    let cs = chars_of(name);
    let mut out: Vec<char> = Vec::new();
    let n = cs.len();
    for i in 0..n
        invariant
            n == cs@.len(),
            cs@ == name@,
            out@ == cs@.take(i as int).map_values(|c: char| safe_char(c)),
    {
        let c = cs[i];
        let k = if ('0' <= c && c <= '9') || ('a' <= c && c <= 'z') || ('A' <= c && c <= 'Z') || c
            == '.' || c == '-' || c == '_' {
            c
        } else {
            '_'
        };
        out.push(k);
        assert(cs@.take(i + 1).map_values(|c: char| safe_char(c)) == cs@.take(i as int).map_values(
            |c: char| safe_char(c),
        ).push(k));
    }
    assert(cs@.take(n as int) == cs@);
    string_of(&out)
}

/// The part of `s` after its last `c` (all of `s` if there is none).
pub open spec fn after_last(s: Seq<char>, c: char) -> Seq<char>
    decreases s.len(),
{
    if s.len() == 0 {
        s
    } else if s.last() == c {
        seq![]
    } else {
        after_last(s.drop_last(), c).push(s.last())
    }
}

/// The last path segment of `url` with its query removed, unless empty.
pub open spec fn url_file_name(url: Seq<char>) -> Option<Seq<char>> {
    let no_query = match find(url, seq!['?']) {
        Some(i) => url.take(i),
        None => url,
    };
    let raw = after_last(no_query, '/');
    if raw.len() == 0 {
        None
    } else {
        Some(raw)
    }
}

fn after_last_chars(s: &[char], c: char) -> (r: Vec<char>)
    ensures
        r@ == after_last(s@, c),
{
    let n = s.len();
    let mut k = n;
    assert(s@.take(n as int) == s@);
    assert(s@.subrange(n as int, n as int) == Seq::<char>::empty());
    while k > 0 && s[k - 1] != c
        invariant
            k <= n,
            n == s@.len(),
            after_last(s@, c) == after_last(s@.take(k as int), c) + s@.subrange(k as int, n as int),
        decreases k,
    {
        assert(s@.take(k as int).drop_last() == s@.take(k - 1));
        assert(s@.subrange(k - 1, n as int) == seq![s@[k - 1]] + s@.subrange(k as int, n as int));
        assert(after_last(s@.take(k as int), c) == after_last(s@.take(k - 1), c).push(s@[k - 1]));
        assert(after_last(s@.take(k - 1), c).push(s@[k - 1]) + s@.subrange(k as int, n as int)
            == after_last(s@.take(k - 1), c) + s@.subrange(k - 1, n as int));
        k = k - 1;
    }
    proof {
        if k > 0 {
            assert(s@.take(k as int).last() == c);
        }
        assert(after_last(s@.take(k as int), c) == Seq::<char>::empty());
    }
    slice_chars(s, k, n)
}

/// The file name at the end of `url`, ignoring any query string.
pub fn filename_from_url(url: &str) -> (r: Option<String>)
    ensures
        match url_file_name(url@) {
            Some(f) => r matches Some(s) && s@ == f,
            None => r is None,
        },
{
    let u = chars_of(url);
    let q = vec!['?'];
    assert(q@ == seq!['?']);
    let no_query = match find_chars(&u, &q) {
        Some(i) => {
            proof {
                lemma_find_from(u@, q@, 0);
            }
            slice_chars(&u, 0, i)
        },
        None => slice_chars(&u, 0, u.len()),
    };
    assert(u@.subrange(0, u@.len() as int) == u@);
    let raw = after_last_chars(&no_query, '/');
    if raw.len() == 0 {
        None
    } else {
        Some(string_of(&raw))
    }
}

/// `s` without markup: characters from a `<` up to the next `>` are dropped,
/// as are the brackets; `in_tag` tells whether a tag is open at the start.
pub open spec fn strip_tags_from(s: Seq<char>, in_tag: bool) -> Seq<char>
    decreases s.len(),
{
    if s.len() == 0 {
        seq![]
    } else if s[0] == '<' {
        strip_tags_from(s.drop_first(), true)
    } else if s[0] == '>' {
        strip_tags_from(s.drop_first(), false)
    } else if !in_tag {
        seq![s[0]] + strip_tags_from(s.drop_first(), in_tag)
    } else {
        strip_tags_from(s.drop_first(), in_tag)
    }
}

fn strip_tags_chars(s: &[char]) -> (r: Vec<char>)
    ensures
        r@ == strip_tags_from(s@, false),
{
    let mut out: Vec<char> = Vec::new();
    let mut in_tag = false;
    let n = s.len();
    assert(s@.skip(0) == s@);
    for i in 0..n
        invariant
            n == s@.len(),
            out@ + strip_tags_from(s@.skip(i as int), in_tag) == strip_tags_from(s@, false),
    {
        let ch = s[i];
        assert(s@.skip(i as int).drop_first() == s@.skip(i + 1));
        assert(s@.skip(i as int)[0] == ch);
        if ch == '<' {
            in_tag = true;
        } else if ch == '>' {
            in_tag = false;
        } else if !in_tag {
            out.push(ch);
            assert(out@ + strip_tags_from(s@.skip(i + 1), in_tag) == (out@.drop_last() + seq![ch])
                + strip_tags_from(s@.skip(i + 1), in_tag));
        }
    }
    assert(s@.skip(n as int) == Seq::<char>::empty());
    out
}

/// The text of `s` with markup removed.
pub fn strip_tags(s: &str) -> (r: String)
    ensures
        r@ == strip_tags_from(s@, false),
{
    string_of(&strip_tags_chars(&chars_of(s)))
}

/// A package link found in the rg-adguard answer.
pub struct RgFile {
    /// The link text, or the file name taken from the URL when the text is blank.
    pub filename: String,
    /// The link target, with `&amp;` decoded.
    pub url: String,
}

/// An `RgFile` as a pair (file name, URL).
pub open spec fn rg_view(f: RgFile) -> (Seq<char>, Seq<char>) {
    (f.filename@, f.url@)
}

/// The value of the `href="..."` attribute of an opening tag.
pub open spec fn href_of(tag: Seq<char>) -> Option<Seq<char>> {
    match find(tag, "href=\""@) {
        None => None,
        Some(hp) => {
            let ha = tag.skip(hp + 6);
            match find(ha, "\""@) {
                None => None,
                Some(he) => Some(ha.take(he)),
            }
        },
    }
}

/// The file a link stands for: absolute (`http...`) links only, named by
/// their trimmed text or, when that is blank, by the URL's last segment.
pub open spec fn listed_file(href: Seq<char>, text: Seq<char>) -> Option<(Seq<char>, Seq<char>)> {
    if !starts_with(href, "http"@) {
        None
    } else {
        let url = replace_all(href, "&amp;"@, "&"@);
        let t = trim(text);
        if t.len() == 0 {
            match url_file_name(url) {
                Some(f) => Some((f, url)),
                None => None,
            }
        } else {
            Some((t, url))
        }
    }
}

/// The files linked from `rest`, in document order. Each `<a` starts a tag
/// that ends at the next `>`; its text runs to the next `</a>`. Scanning
/// stops when a tag or its closing `</a>` is missing.
pub open spec fn anchors(rest: Seq<char>) -> Seq<(Seq<char>, Seq<char>)>
    decreases rest.len(),
{
    match find(rest, "<a"@) {
        None => seq![],
        Some(a) => {
            let after_a = rest.skip(a);
            match find(after_a, ">"@) {
                None => seq![],
                Some(te) => {
                    let tag = after_a.take(te + 1);
                    let content = after_a.skip(te + 1);
                    if !(0 <= a && 0 <= te && a + te + 1 <= rest.len()) {
                        seq![]
                    } else {
                        match href_of(tag) {
                            None => anchors(content),
                            Some(href) => match find(content, "</a>"@) {
                                None => seq![],
                                Some(cp) => {
                                    let next = content.skip(cp + 4);
                                    if !(0 <= cp && cp + 4 <= content.len()) {
                                        seq![]
                                    } else {
                                        match listed_file(href, strip_tags_from(content.take(cp), false)) {
                                            None => anchors(next),
                                            Some(f) => seq![f] + anchors(next),
                                        }
                                    }
                                },
                            },
                        }
                    }
                },
            }
        },
    }
}

fn find_lit(s: &[char], pat: &str) -> (r: Option<usize>)
    ensures
        r matches Some(k) ==> find(s@, pat@) == Some(k as int) && k + pat@.len() <= s@.len(),
        r is None ==> find(s@, pat@) is None,
{
    let p = chars_of(pat);
    let r = find_chars(s, &p);
    proof {
        lemma_find_from(s@, p@, 0);
    }
    r
}

fn href_of_chars(tag: &[char]) -> (r: Option<Vec<char>>)
    ensures
        match href_of(tag@) {
            Some(h) => r matches Some(v) && v@ == h,
            None => r is None,
        },
{
    match find_lit(tag, "href=\"") {
        None => None,
        Some(hp) => {
            proof {
                reveal_strlit("href=\"");
            }
            assert("href=\""@.len() == 6);
            assert(hp + 6 <= tag.len());
            let ha = slice_chars(tag, hp + 6, tag.len());
            match find_lit(&ha, "\"") {
                None => None,
                Some(he) => Some(slice_chars(&ha, 0, he)),
            }
        },
    }
}

fn listed_file_chars(href: &[char], text: &[char]) -> (r: Option<RgFile>)
    ensures
        match listed_file(href@, text@) {
            Some(f) => r matches Some(v) && rg_view(v) == f,
            None => r is None,
        },
{
    if !starts_with_chars(href, &chars_of("http")) {
        return None;
    }
    let amp = chars_of("&amp;");
    proof {
        reveal_strlit("&amp;");
    }
    let url_chars = replace_all_chars(href, &amp, &chars_of("&"));
    let url = string_of(&url_chars);
    let t = trim_chars(text);
    if t.len() == 0 {
        match filename_from_url(url.as_str()) {
            Some(f) => Some(RgFile { filename: f, url }),
            None => None,
        }
    } else {
        Some(RgFile { filename: string_of(&t), url })
    }
}

/// The package links listed in an rg-adguard answer, in document order.
pub fn parse_rg_adguard_html(body: &str) -> (r: Vec<RgFile>)
    ensures
        r@.map_values(|f: RgFile| rg_view(f)) == anchors(body@),
{
    let mut out: Vec<RgFile> = Vec::new();
    let mut rest = chars_of(body);
    loop
        invariant
            out@.map_values(|f: RgFile| rg_view(f)) + anchors(rest@) == anchors(body@),
        decreases rest@.len(),
    {
        let a = match find_lit(&rest, "<a") {
            None => {
                assert(out@.map_values(|f: RgFile| rg_view(f)) + anchors(rest@) == out@.map_values(
                    |f: RgFile| rg_view(f),
                ));
                return out;
            },
            Some(a) => a,
        };
        let after_a = slice_chars(&rest, a, rest.len());
        assert(after_a@ == rest@.skip(a as int));
        let te = match find_lit(&after_a, ">") {
            None => {
                assert(out@.map_values(|f: RgFile| rg_view(f)) + anchors(rest@) == out@.map_values(
                    |f: RgFile| rg_view(f),
                ));
                return out;
            },
            Some(te) => te,
        };
        proof {
            reveal_strlit(">");
        }
        let tag = slice_chars(&after_a, 0, te + 1);
        let content = slice_chars(&after_a, te + 1, after_a.len());
        assert(tag@ == after_a@.take(te + 1));
        assert(content@ == after_a@.skip(te + 1));
        let href = match href_of_chars(&tag) {
            None => {
                rest = content;
                continue;
            },
            Some(h) => h,
        };
        let cp = match find_lit(&content, "</a>") {
            None => {
                assert(out@.map_values(|f: RgFile| rg_view(f)) + anchors(rest@) == out@.map_values(
                    |f: RgFile| rg_view(f),
                ));
                return out;
            },
            Some(cp) => cp,
        };
        proof {
            reveal_strlit("</a>");
        }
        let inner = slice_chars(&content, 0, cp);
        assert(inner@ == content@.take(cp as int));
        let text = strip_tags_chars(&inner);
        let next = slice_chars(&content, cp + 4, content.len());
        assert(next@ == content@.skip(cp + 4));
        let ghost old_out = out@.map_values(|f: RgFile| rg_view(f));
        match listed_file_chars(&href, &text) {
            Some(f) => {
                out.push(f);
                assert(out@.map_values(|f: RgFile| rg_view(f)) == old_out.push(rg_view(f)));
            },
            None => {},
        }
        rest = next;
    }
}

/// Why no package could be chosen from an rg-adguard answer.
#[derive(Debug, PartialEq, Eq, Structural)]
pub enum RgError {
    /// The answer is a Cloudflare challenge page.
    CloudflareChallenge,
    /// The answer lists no usable package.
    NoPackages,
}

impl RgError {
    /// The report for this error.
    pub fn message(&self) -> (r: String)
        ensures
            r@ == match self {
                RgError::CloudflareChallenge =>
                    "rg-adguard request blocked by Cloudflare challenge (try again later)"@,
                RgError::NoPackages => "rg-adguard returned no usable msix/appx package links"@,
            },
    {
        match self {
            RgError::CloudflareChallenge => "rg-adguard request blocked by Cloudflare challenge (try again later)".to_owned(),
            RgError::NoPackages => "rg-adguard returned no usable msix/appx package links".to_owned(),
        }
    }
}

/// The answer is a Cloudflare challenge page rather than a link list.
pub open spec fn is_challenge_page(body: Seq<char>) -> bool {
    contains(body, "Just a moment"@) || contains(body, "cf_chl_opt"@)
}

/// File name `a` ranks above `b`: higher score, or equal score and more bytes.
pub open spec fn ranks_above(a: Seq<char>, b: Seq<char>) -> bool {
    score_of(a) > score_of(b) || (score_of(a) == score_of(b) && utf8_len(a) > utf8_len(b))
}

/// `files[i]` is the candidate that a stable sort of the candidates by
/// descending (score, byte length) puts first: none ranks above it, and it
/// ranks above every candidate listed before it.
pub open spec fn is_best(files: Seq<(Seq<char>, Seq<char>)>, i: int) -> bool {
    &&& 0 <= i < files.len()
    &&& is_candidate(files[i].0)
    &&& forall|j: int|
        0 <= j < files.len() && is_candidate(#[trigger] files[j].0) ==> !ranks_above(
            files[j].0,
            files[i].0,
        )
    &&& forall|j: int| 0 <= j < i && is_candidate(#[trigger] files[j].0) ==> ranks_above(files[i].0, files[j].0)
}

/// At most one listed file is the best.
pub proof fn lemma_best_is_unique(files: Seq<(Seq<char>, Seq<char>)>, i: int, k: int)
    requires
        is_best(files, i),
        is_best(files, k),
    ensures
        i == k,
{
    if i < k {
        assert(is_candidate(files[i].0));
    } else if k < i {
        assert(is_candidate(files[k].0));
    }
}

/// The package to download from an rg-adguard answer `body`.
pub fn select_package(body: &str) -> (r: Result<RgFile, RgError>)
    ensures
        is_challenge_page(body@) ==> r == Err::<RgFile, RgError>(RgError::CloudflareChallenge),
        !is_challenge_page(body@) ==> {
            let files = anchors(body@);
            &&& (r == Err::<RgFile, RgError>(RgError::NoPackages) <==> forall|j: int|
                0 <= j < files.len() ==> !is_candidate(#[trigger] files[j].0))
            &&& r matches Ok(f) ==> exists|i: int| is_best(files, i) && files[i] == rg_view(f)
            &&& r != Err::<RgFile, RgError>(RgError::CloudflareChallenge)
        },
{
    let b = chars_of(body);
    if contains_lit(&b, "Just a moment") || contains_lit(&b, "cf_chl_opt") {
        return Err(RgError::CloudflareChallenge);
    }
    let mut files = parse_rg_adguard_html(body);
    let ghost fs = files@.map_values(|f: RgFile| rg_view(f));
    let n = files.len();
    let mut best: Option<usize> = None;
    let mut best_score: i32 = 0;
    let mut best_len: u128 = 0;
    for i in 0..n
        invariant
            n == files@.len(),
            fs == files@.map_values(|f: RgFile| rg_view(f)),
            fs == anchors(body@),
            best matches Some(k) ==> {
                &&& k < i
                &&& is_candidate(fs[k as int].0)
                &&& best_score == score_of(fs[k as int].0)
                &&& best_len == utf8_len(fs[k as int].0)
                &&& forall|j: int|
                    0 <= j < i && is_candidate(#[trigger] fs[j].0) ==> !ranks_above(fs[j].0, fs[k as int].0)
                &&& forall|j: int|
                    0 <= j < k && is_candidate(#[trigger] fs[j].0) ==> ranks_above(fs[k as int].0, fs[j].0)
            },
            best is None ==> forall|j: int| 0 <= j < i ==> !is_candidate(#[trigger] fs[j].0),
    {
        assert(fs[i as int] == rg_view(files@[i as int]));
        let name = files[i].filename.as_str();
        if is_package_candidate(name) {
            let score = classify_score(name);
            let len = utf8_len_wide(&chars_of(name));
            let take = match best {
                None => true,
                Some(_) => score > best_score || (score == best_score && len > best_len),
            };
            if take {
                best = Some(i);
                best_score = score;
                best_len = len;
            }
        }
    }
    match best {
        None => Err(RgError::NoPackages),
        Some(k) => {
            assert(is_best(fs, k as int));
            let f = files.swap_remove(k);
            assert(rg_view(f) == fs[k as int]);
            Ok(f)
        },
    }
}

/// Where Electron releases are downloaded from.
pub const ELECTRON_BASE: &'static str = "https://github.com/electron/electron/releases/download";

/// The rg-adguard endpoint that lists Store package links.
pub const RG_ADGUARD_API: &'static str = "https://store.rg-adguard.net/api/GetFiles";

/// The user agent sent with every request.
pub const USER_AGENT: &'static str = "Mozilla/5.0 (X11; Linux x86_64) AppleWebKit/537.36 (KHTML, like Gecko) Chrome/124.0.0.0 Safari/537.36";

/// The names under which an Electron release is fetched and cached.
pub struct ElectronRelease {
    /// Cache directory holding the unpacked release: `electron-<version>`.
    pub dir_name: String,
    /// Release archive: `electron-v<version>-linux-x64.zip`.
    pub zip_name: String,
    /// Download URL of the archive.
    pub url: String,
}

/// The cache directory, archive name and download URL of Electron `version`.
pub fn electron_release(version: &str) -> (r: ElectronRelease)
    ensures
        r.dir_name@ == "electron-"@ + version@,
        r.zip_name@ == "electron-v"@ + version@ + "-linux-x64.zip"@,
        r.url@ == ELECTRON_BASE@ + "/v"@ + version@ + "/"@ + r.zip_name@,
{
    let mut dir_name = "electron-".to_owned();
    dir_name.append(version);
    let mut zip_name = "electron-v".to_owned();
    zip_name.append(version);
    zip_name.append("-linux-x64.zip");
    let mut url = ELECTRON_BASE.to_owned();
    url.append("/v");
    url.append(version);
    url.append("/");
    url.append(zip_name.as_str());
    ElectronRelease { dir_name, zip_name, url }
}

/// Name of this tool's directory inside the user cache.
pub const CACHE_SUBDIR: &'static str = "chatgpt-linux-desktop";

/// The user-level cache directory, as path segments to join in order:
/// `$XDG_CACHE_HOME` when set, else `$HOME/.cache`, else `/tmp/.cache`,
/// then this tool's own directory.
pub fn cache_dir_parts(xdg_cache_home: Option<String>, home: Option<String>) -> (r: Vec<String>)
    ensures
        r@.map_values(|s: String| s@) == match xdg_cache_home {
            Some(x) => seq![x@, CACHE_SUBDIR@],
            None => match home {
                Some(h) => seq![h@, ".cache"@, CACHE_SUBDIR@],
                None => seq!["/tmp"@, ".cache"@, CACHE_SUBDIR@],
            },
        },
{
    let mut r: Vec<String> = Vec::new();
    match xdg_cache_home {
        Some(x) => {
            r.push(x);
        },
        None => {
            match home {
                Some(h) => r.push(h),
                None => r.push("/tmp".to_owned()),
            }
            r.push(".cache".to_owned());
        },
    }
    r.push(CACHE_SUBDIR.to_owned());
    assert(r@.map_values(|s: String| s@) =~= match xdg_cache_home {
        Some(x) => seq![x@, CACHE_SUBDIR@],
        None => match home {
            Some(h) => seq![h@, ".cache"@, CACHE_SUBDIR@],
            None => seq!["/tmp"@, ".cache"@, CACHE_SUBDIR@],
        },
    });
    r
}

/// A name ending in a bundle suffix ends in `e`, one ending in a single
/// package suffix ends in `x`: no name is both.
proof fn lemma_bundle_not_single(l: Seq<char>)
    ensures
        ends_with(l, ".msixbundle"@) || ends_with(l, ".appxbundle"@) ==> !ends_with(l, ".msix"@)
            && !ends_with(l, ".appx"@),
{
    reveal_strlit(".msixbundle");
    reveal_strlit(".appxbundle");
    reveal_strlit(".msix");
    reveal_strlit(".appx");
    if l.len() > 0 {
        let n = l.len() as int;
        if ends_with(l, ".msixbundle"@) {
            assert(l[n - 1] == l.skip(n - 11)[10]);
        }
        if ends_with(l, ".appxbundle"@) {
            assert(l[n - 1] == l.skip(n - 11)[10]);
        }
        if ends_with(l, ".msix"@) {
            assert(l[n - 1] == l.skip(n - 5)[4]);
        }
        if ends_with(l, ".appx"@) {
            assert(l[n - 1] == l.skip(n - 5)[4]);
        }
    }
}

/// The rank of a listed name, with its name compared in ASCII lower case:
/// 100 for a `.msixbundle` or `.appxbundle`, 50 for a `.msix` or `.appx`,
/// 0 otherwise; 20 more when it names an `_x64` build and 5 more for a
/// `neutral` one; 200 less for block maps, encrypted, symbol and test
/// packages.
pub proof fn lemma_score_value(name: Seq<char>)
    ensures
        ({
            let l = ascii_lowercase(name);
            let base: int = if ends_with(l, ".msixbundle"@) || ends_with(l, ".appxbundle"@) {
                100
            } else if ends_with(l, ".msix"@) || ends_with(l, ".appx"@) {
                50
            } else {
                0
            };
            let x64: int = if contains(l, "_x64"@) { 20 } else { 0 };
            let neutral: int = if contains(l, "neutral"@) { 5 } else { 0 };
            let excluded: int = if contains(l, "blockmap"@) || contains(l, "eappx"@) || contains(
                l,
                "symbol"@,
            ) || contains(l, "test"@) {
                200
            } else {
                0
            };
            score_of(name) == base + x64 + neutral - excluded
        }),
{
    lemma_bundle_not_single(ascii_lowercase(name));
}

/// Among candidates, any bundle outranks any single `.msix` or `.appx`
/// package, whatever else their names say.
pub proof fn lemma_bundle_outranks_single(bundle: Seq<char>, single: Seq<char>)
    requires
        is_candidate(bundle),
        is_candidate(single),
        ends_with(ascii_lowercase(bundle), ".msixbundle"@) || ends_with(
            ascii_lowercase(bundle),
            ".appxbundle"@,
        ),
        ends_with(ascii_lowercase(single), ".msix"@) || ends_with(ascii_lowercase(single), ".appx"@),
    ensures
        score_of(bundle) > score_of(single),
        ranks_above(bundle, single),
{
    lemma_score_value(bundle);
    lemma_score_value(single);
    lemma_bundle_not_single(ascii_lowercase(single));
}

/// The URL of a listed file is its link with every `&amp;` decoded to `&`,
/// left to right and without overlap, as `str::replace` does.
pub proof fn lemma_listed_url_decoded(href: Seq<char>, text: Seq<char>)
    requires
        listed_file(href, text) is Some,
    ensures
        (listed_file(href, text)->0).1 == replace_all(href, "&amp;"@, "&"@),
{
}

/// Decoding `&amp;` replaces the first entity and goes on with the rest of
/// the text: every entity in a link is decoded, not just the first.
pub proof fn lemma_amp_decoded_each(a: Seq<char>, b: Seq<char>)
    requires
        forall|i: int| 0 <= i < a.len() ==> a[i] != '&',
    ensures
        replace_all(a + "&amp;"@ + b, "&amp;"@, "&"@) == a + "&"@ + replace_all(b, "&amp;"@, "&"@),
{
    reveal_strlit("&amp;");
    reveal_strlit("&");
    let p = "&amp;"@;
    let s = a + p + b;
    let n = a.len() as int;
    assert(s.subrange(n, n + 5) =~= p);
    lemma_find_from(s, p, 0);
    match find(s, p) {
        Some(k) => {
            if k < n {
                assert(s.subrange(k, k + 5)[0] == s[k]);
                assert(s[k] == a[k]);
            }
            if k > n {
                assert(crate::text::occurs_at(s, p, n));
            }
            assert(k == n);
            assert(s.take(n) =~= a);
            assert(s.skip(n + 5) =~= b);
        },
        None => {
            assert(crate::text::occurs_at(s, p, n));
        },
    }
}

/// When the answer lists any bundle among its candidates, the package
/// chosen is a bundle: a single `.msix` or `.appx` package (such as a
/// framework dependency) is never taken over it.
pub proof fn lemma_best_is_bundle(files: Seq<(Seq<char>, Seq<char>)>, i: int, j: int)
    requires
        is_best(files, i),
        0 <= j < files.len(),
        is_candidate(files[j].0),
        ends_with(ascii_lowercase(files[j].0), ".msixbundle"@) || ends_with(
            ascii_lowercase(files[j].0),
            ".appxbundle"@,
        ),
    ensures
        ends_with(ascii_lowercase(files[i].0), ".msixbundle"@) || ends_with(
            ascii_lowercase(files[i].0),
            ".appxbundle"@,
        ),
{
    let l = ascii_lowercase(files[i].0);
    if !(ends_with(l, ".msixbundle"@) || ends_with(l, ".appxbundle"@)) {
        assert(ends_with(l, ".msix"@) || ends_with(l, ".appx"@));
        lemma_bundle_outranks_single(files[j].0, files[i].0);
        assert(!ranks_above(files[j].0, files[i].0));
    }
}

} // verus!
