//! The textual patches that make the bundled JavaScript work on Linux, and
//! the diagnostics reported when a patch target has gone missing.
use vstd::prelude::*;
use crate::text::{
    char_len_utf8, chars_of, ends_with, ends_with_chars, starts_with, starts_with_chars, contains, find, find_chars, lemma_find_from,
    lemma_utf8_len_strictly_increasing, replace_first, replace_first_chars, slice_chars,
    split_on, split_on_chars, string_of, trim, trim_chars, utf8_len, utf8_len_at_most, words,
    words_chars,
};

verus! {

/// One edit: an exact snippet to find and the text that replaces it.
pub struct Patch {
    pub from: &'static str,
    pub to: &'static str,
}

/// A patch as a pair of character sequences.
pub open spec fn patch_view(p: Patch) -> (Seq<char>, Seq<char>) {
    (p.from@, p.to@)
}

/// A list of patches as pairs of character sequences.
pub open spec fn patches_view(ps: Seq<Patch>) -> Seq<(Seq<char>, Seq<char>)> {
    ps.map_values(|p: Patch| patch_view(p))
}

/// Applies `ps` in order, each to the first occurrence of its target.
/// Stops at the first patch whose target does not occur, giving its index
/// and the text reached so far.
pub open spec fn run_patches(s: Seq<char>, ps: Seq<(Seq<char>, Seq<char>)>) -> Result<
    Seq<char>,
    (int, Seq<char>),
>
    decreases ps.len(),
{
    if ps.len() == 0 {
        Ok(s)
    } else {
        match run_patches(s, ps.drop_last()) {
            Ok(t) => if contains(t, ps.last().0) {
                Ok(replace_first(t, ps.last().0, ps.last().1))
            } else {
                Err((ps.len() - 1, t))
            },
            Err(e) => Err(e),
        }
    }
}

/// A patch whose target was not found.
pub struct PatchFailure {
    /// Position of the patch in its list.
    pub index: usize,
    /// The snippet that was looked for.
    pub expected: String,
    /// The text as it stood when the snippet was looked for.
    pub text: String,
}

/// Applies `patches` in order to `src`, each replacing the first occurrence
/// of its target; fails at the first patch whose target is absent.
pub fn prepare_patches(src: &str, patches: &[Patch]) -> (r: Result<String, PatchFailure>)
    ensures
        match run_patches(src@, patches_view(patches@)) {
            Ok(t) => r matches Ok(s) && s@ == t,
            Err((i, t)) => r matches Err(f) && f.index == i && f.text@ == t && f.expected@
                == patches@[i].from@,
        },
{
    let ghost ps = patches_view(patches@);
    let mut cur = chars_of(src);
    let n = patches.len();
    assert(ps.take(0) == Seq::<(Seq<char>, Seq<char>)>::empty());
    for i in 0..n
        invariant
            n == patches@.len(),
            ps == patches_view(patches@),
            run_patches(src@, ps.take(i as int)) == Ok::<Seq<char>, (int, Seq<char>)>(cur@),
    {
        let p = &patches[i];
        let from = chars_of(p.from);
        let to = chars_of(p.to);
        assert(ps.take(i + 1).drop_last() == ps.take(i as int));
        assert(ps.take(i + 1).last() == (p.from@, p.to@));
        match find_chars(&cur, &from) {
            Some(_) => {
                cur = replace_first_chars(&cur, &from, &to);
            },
            None => {
                proof {
                    lemma_run_patches_stops(src@, ps, i as int);
                }
                return Err(PatchFailure { index: i, expected: p.from.to_owned(), text: string_of(&cur) });
            },
        }
    }
    assert(ps.take(n as int) == ps);
    Ok(string_of(&cur))
}

/// Once a run stops, later patches do not change where it stopped.
proof fn lemma_run_patches_stops(s: Seq<char>, ps: Seq<(Seq<char>, Seq<char>)>, i: int)
    requires
        0 <= i < ps.len(),
        run_patches(s, ps.take(i + 1)) is Err,
    ensures
        run_patches(s, ps) == run_patches(s, ps.take(i + 1)),
    decreases ps.len() - i,
{
    if i + 1 == ps.len() {
        assert(ps.take(i + 1) == ps);
    } else {
        assert(ps.drop_last().take(i + 1) == ps.take(i + 1));
        lemma_run_patches_stops(s, ps.drop_last(), i);
    }
}

/// `s` with every line feed written as a backslash followed by `n`.
pub open spec fn escape_newlines(s: Seq<char>) -> Seq<char>
    decreases s.len(),
{
    if s.len() == 0 {
        seq![]
    } else {
        escape_newlines(s.drop_last()) + if s.last() == '\n' {
            seq!['\\', 'n']
        } else {
            seq![s.last()]
        }
    }
}

/// The escaped text either fits in `max` bytes or can be cut after exactly
/// `max` bytes without splitting a character; otherwise `preview` panics.
pub open spec fn preview_fits(s: Seq<char>, max: nat) -> bool {
    let v = escape_newlines(s);
    utf8_len(v) <= max || exists|k: int| 0 <= k <= v.len() && #[trigger] utf8_len(v.take(k)) == max
}

/// The escaped text, or its first `max` bytes followed by `...`.
pub open spec fn preview_text(s: Seq<char>, max: nat) -> Seq<char> {
    let v = escape_newlines(s);
    if utf8_len(v) <= max {
        v
    } else {
        v.take(choose|k: int| 0 <= k <= v.len() && #[trigger] utf8_len(v.take(k)) == max) + seq![
            '.',
            '.',
            '.',
        ]
    }
}

fn escape_newlines_chars(s: &[char]) -> (r: Vec<char>)
    ensures
        r@ == escape_newlines(s@),
{
    let mut r: Vec<char> = Vec::new();
    let n = s.len();
    for i in 0..n
        invariant
            n == s@.len(),
            r@ == escape_newlines(s@.take(i as int)),
    {
        assert(s@.take(i + 1).drop_last() == s@.take(i as int));
        if s[i] == '\n' {
            r.push('\\');
            r.push('n');
        } else {
            r.push(s[i]);
        }
    }
    assert(s@.take(n as int) == s@);
    r
}

/// Number of characters of `v` that take exactly `max` bytes, if some prefix does.
fn cut_point(v: &[char], max: usize) -> (r: Option<usize>)
    ensures
        r matches Some(k) ==> k <= v@.len() && utf8_len(v@.take(k as int)) == max,
        r is None ==> !exists|k: int| 0 <= k <= v@.len() && #[trigger] utf8_len(v@.take(k)) == max,
{
    let n = v.len();
    let mut acc: usize = 0;
    let mut i: usize = 0;
    assert(v@.take(0).len() == 0);
    while acc < max
        invariant
            i <= n,
            n == v@.len(),
            acc == utf8_len(v@.take(i as int)),
            acc <= max,
        decreases max - acc,
    {
        if i == n {
            proof {
                assert(v@.take(n as int) == v@);
                assert forall|k: int| 0 <= k <= v@.len() implies #[trigger] utf8_len(v@.take(k)) != max by {
                    if k < n {
                        lemma_utf8_len_strictly_increasing(v@, k, n as int);
                    }
                }
            }
            return None;
        }
        let w = char_len_utf8(v[i]);
        assert(v@.take(i + 1).drop_last() == v@.take(i as int));
        if w > max - acc {
            proof {
                assert forall|k: int| 0 <= k <= v@.len() implies #[trigger] utf8_len(v@.take(k)) != max by {
                    if k < i {
                        lemma_utf8_len_strictly_increasing(v@, k, i as int);
                    } else if k > i + 1 {
                        lemma_utf8_len_strictly_increasing(v@, i + 1, k);
                    }
                }
            }
            return None;
        }
        acc = acc + w;
        i = i + 1;
    }
    Some(i)
}

/// Whether `preview(value, max_chars)` is defined.
pub fn fits_preview(value: &str, max_chars: usize) -> (r: bool)
    ensures
        r == preview_fits(value@, max_chars as nat),
{
    let v = escape_newlines_chars(&chars_of(value));
    if utf8_len_at_most(&v, max_chars) {
        true
    } else {
        cut_point(&v, max_chars).is_some()
    }
}

/// A one-line rendering of `value` of at most `max_chars` bytes plus `...`.
pub fn preview(value: &str, max_chars: usize) -> (r: String)
    requires
        preview_fits(value@, max_chars as nat),
    ensures
        r@ == preview_text(value@, max_chars as nat),
{
    let v = escape_newlines_chars(&chars_of(value));
    if utf8_len_at_most(&v, max_chars) {
        string_of(&v)
    } else {
        match cut_point(&v, max_chars) {
            Some(k) => {
                let ghost c = choose|j: int| 0 <= j <= v@.len() && #[trigger] utf8_len(v@.take(j)) == max_chars;
                proof {
                    if c < k {
                        lemma_utf8_len_strictly_increasing(v@, c, k as int);
                    } else if k < c {
                        lemma_utf8_len_strictly_increasing(v@, k as int, c);
                    }
                }
                let mut out = slice_chars(&v, 0, k);
                assert(out@ == v@.take(k as int));
                out.push('.');
                out.push('.');
                out.push('.');
                assert(out@ == v@.take(k as int) + seq!['.', '.', '.']);
                string_of(&out)
            },
            None => {
                assert(false);
                String::new()
            },
        }
    }
}

/// The first of `parts` that takes at least `min` bytes.
pub open spec fn first_at_least(parts: Seq<Seq<char>>, min: nat) -> Option<Seq<char>>
    decreases parts.len(),
{
    if parts.len() == 0 {
        None
    } else if utf8_len(parts[0]) >= min {
        Some(parts[0])
    } else {
        first_at_least(parts.drop_first(), min)
    }
}

/// The snippet searched for when a patch target is missing: the first line
/// of `expected` that, trimmed, takes at least 12 bytes; failing that, the
/// first word that does. (Splitting at every line feed gives the same
/// trimmed lines as `str::lines`, up to empty ones, which never qualify.)
pub open spec fn context_needle(expected: Seq<char>) -> Option<Seq<char>> {
    match first_at_least(split_on(expected, '\n').map_values(|l: Seq<char>| trim(l)), 12) {
        Some(n) => Some(n),
        None => first_at_least(words(expected), 12),
    }
}

/// The text around the first occurrence of the needle in `src`: up to 101
/// characters before it and 200 from it on, trimmed.
pub open spec fn context_window(src: Seq<char>, expected: Seq<char>) -> Option<Seq<char>> {
    match context_needle(expected) {
        None => None,
        Some(needle) => match find(src, needle) {
            None => None,
            Some(pos) => {
                let start = if pos >= 101 {
                    pos - 101
                } else {
                    0
                };
                let end = if pos + 200 <= src.len() {
                    pos + 200
                } else {
                    src.len() as int
                };
                Some(trim(src.subrange(start, end)))
            },
        },
    }
}

/// `diagnostic_context` is defined: the window, if any, can be previewed.
pub open spec fn context_fits(src: Seq<char>, expected: Seq<char>) -> bool {
    match context_window(src, expected) {
        Some(w) => preview_fits(w, 240),
        None => true,
    }
}

fn first_at_least_chars(parts: &Vec<Vec<char>>, min: usize) -> (r: Option<Vec<char>>)
    ensures
        r matches Some(p) ==> first_at_least(parts@.map_values(|v: Vec<char>| v@), min as nat)
            == Some(p@),
        r is None ==> first_at_least(parts@.map_values(|v: Vec<char>| v@), min as nat) is None,
{
    let ghost ps = parts@.map_values(|v: Vec<char>| v@);
    let n = parts.len();
    assert(ps.skip(0) == ps);
    for i in 0..n
        invariant
            n == parts@.len(),
            ps == parts@.map_values(|v: Vec<char>| v@),
            first_at_least(ps, min as nat) == first_at_least(ps.skip(i as int), min as nat),
    {
        assert(ps.skip(i as int)[0] == parts@[i as int]@);
        assert(ps.skip(i as int).drop_first() == ps.skip(i + 1));
        if min == 0 || !utf8_len_at_most(&parts[i], min - 1) {
            return Some(slice_chars(&parts[i], 0, parts[i].len()));
        }
    }
    None
}

fn context_window_chars(src: &[char], expected: &[char]) -> (r: Option<Vec<char>>)
    ensures
        r matches Some(w) ==> context_window(src@, expected@) == Some(w@),
        r is None ==> context_window(src@, expected@) is None,
{
    let lines = split_on_chars(expected, '\n');
    let mut trimmed: Vec<Vec<char>> = Vec::new();
    let n = lines.len();
    for i in 0..n
        invariant
            n == lines@.len(),
            trimmed@.map_values(|v: Vec<char>| v@) == lines@.take(i as int).map_values(
                |v: Vec<char>| trim(v@),
            ),
    {
        let ghost old_t = trimmed@;
        trimmed.push(trim_chars(&lines[i]));
        assert(trimmed@.map_values(|v: Vec<char>| v@) == old_t.map_values(|v: Vec<char>| v@).push(
            trim(lines@[i as int]@),
        ));
        assert(lines@.take(i + 1).map_values(|v: Vec<char>| trim(v@)) == lines@.take(
            i as int,
        ).map_values(|v: Vec<char>| trim(v@)).push(trim(lines@[i as int]@)));
    }
    assert(lines@.take(n as int) == lines@);
    assert(trimmed@.map_values(|v: Vec<char>| v@) == split_on(expected@, '\n').map_values(
        |l: Seq<char>| trim(l),
    ));
    let needle = match first_at_least_chars(&trimmed, 12) {
        Some(found) => found,
        None => match first_at_least_chars(&words_chars(expected), 12) {
            Some(found) => found,
            None => {
                return None;
            },
        },
    };
    let pos = match find_chars(src, &needle) {
        Some(p) => p,
        None => {
            return None;
        },
    };
    proof {
        lemma_find_from(src@, needle@, 0);
    }
    let start = if pos >= 101 {
        pos - 101
    } else {
        0
    };
    let end = if pos <= src.len() && src.len() - pos >= 200 {
        pos + 200
    } else {
        src.len()
    };
    let window = slice_chars(src, start, end);
    Some(trim_chars(&window))
}

/// Whether `diagnostic_context(src, expected)` is defined.
pub fn fits_diagnostic_context(src: &str, expected: &str) -> (r: bool)
    ensures
        r == context_fits(src@, expected@),
{
    match context_window_chars(&chars_of(src), &chars_of(expected)) {
        Some(w) => fits_preview(&string_of(&w), 240),
        None => true,
    }
}

/// A short excerpt of `src` around the first line of `expected` that
/// still occurs in it, to show what changed.
pub fn diagnostic_context(src: &str, expected: &str) -> (r: Option<String>)
    requires
        context_fits(src@, expected@),
    ensures
        match context_window(src@, expected@) {
            Some(w) => r matches Some(c) && c@ == preview_text(w, 240),
            None => r is None,
        },
{
    match context_window_chars(&chars_of(src), &chars_of(expected)) {
        Some(w) => Some(preview(&string_of(&w), 240)),
        None => None,
    }
}

/// The report for a patch whose target is missing.
pub open spec fn failure_message(expected: Seq<char>, text: Seq<char>) -> Seq<char> {
    "patch target not found (app may have updated):\n  expected: "@ + preview_text(expected, 120)
        + "\n  nearest context: "@ + match context_window(text, expected) {
        Some(w) => preview_text(w, 240),
        None => "no related context found"@,
    }
}

impl PatchFailure {
    /// The report can be built (the previews it holds are defined).
    pub open spec fn describable(&self) -> bool {
        preview_fits(self.expected@, 120) && context_fits(self.text@, self.expected@)
    }

    /// Whether `message` is defined for this failure.
    pub fn can_describe(&self) -> (r: bool)
        ensures
            r == self.describable(),
    {
        fits_preview(self.expected.as_str(), 120) && fits_diagnostic_context(
            self.text.as_str(),
            self.expected.as_str(),
        )
    }

    /// The report for this failure, with a preview of the missing snippet
    /// and the nearest context found in the text.
    pub fn message(&self) -> (r: String)
        requires
            self.describable(),
        ensures
            r@ == failure_message(self.expected@, self.text@),
    {
        let mut m = String::new();
        m.append("patch target not found (app may have updated):\n  expected: ");
        let p = preview(self.expected.as_str(), 120);
        m.append(p.as_str());
        m.append("\n  nearest context: ");
        match diagnostic_context(self.text.as_str(), self.expected.as_str()) {
            Some(c) => m.append(c.as_str()),
            None => m.append("no related context found"),
        }
        m
    }
}

/// The first of `names` that starts with `prefix` and ends with `.js`.
pub fn find_build_js(names: &[String], prefix: &str) -> (r: Option<usize>)
    ensures
        r matches Some(i) ==> i < names@.len() && is_build_js(names@[i as int]@, prefix@) && forall|
            j: int,
        | 0 <= j < i ==> !is_build_js(#[trigger] names@[j]@, prefix@),
        r is None ==> forall|j: int| 0 <= j < names@.len() ==> !is_build_js(#[trigger] names@[j]@, prefix@),
{
    let p = chars_of(prefix);
    let js = chars_of(".js");
    let n = names.len();
    for i in 0..n
        invariant
            n == names@.len(),
            p@ == prefix@,
            js@ == ".js"@,
            forall|j: int| 0 <= j < i ==> !is_build_js(#[trigger] names@[j]@, prefix@),
    {
        let name = chars_of(names[i].as_str());
        if starts_with_chars(&name, &p) && ends_with_chars(&name, &js) {
            return Some(i);
        }
    }
    None
}

/// A file name of the Vite build that holds the code patched under `prefix`.
pub open spec fn is_build_js(name: Seq<char>, prefix: Seq<char>) -> bool {
    starts_with(name, prefix) && ends_with(name, ".js"@)
}

/// The patches for the Electron main-process bundle (`main-*.js`), in order.
pub open spec fn main_patch_table() -> Seq<(Seq<char>, Seq<char>)> {
    seq![
        (MAIN_FROM_0@, MAIN_TO_0@),
        (MAIN_FROM_1@, MAIN_TO_1@),
        (MAIN_FROM_2@, MAIN_TO_2@),
        (MAIN_FROM_3@, MAIN_TO_3@),
        (MAIN_FROM_4@, MAIN_TO_4@),
        (MAIN_FROM_5@, MAIN_TO_5@),
        (MAIN_FROM_6@, MAIN_TO_6@),
        (MAIN_FROM_7@, MAIN_TO_7@),
    ]
}

/// The patches for the app bootstrap bundle (`app-bootstrap-*.js`).
pub open spec fn app_bootstrap_patch_table() -> Seq<(Seq<char>, Seq<char>)> {
    seq![(BOOTSTRAP_FROM_0@, BOOTSTRAP_TO_0@)]
}

/// Detects Linux next to the macOS and Windows platform flags.
pub const MAIN_FROM_0: &'static str = "const _ua = process.platform === \"darwin\", Mua = process.platform === \"win32\";";
pub const MAIN_TO_0: &'static str = "const _ua = process.platform === \"darwin\", Mua = process.platform === \"win32\", oqa_linux = process.platform === \"linux\";";
/// Skips the macOS-only voice read-aloud path on Linux too.
pub const MAIN_FROM_1: &'static str = "if (_ua)\n    return u();";
pub const MAIN_TO_1: &'static str = "if (_ua || oqa_linux)\n    return u();";
/// Reports a Linux build OS identifier.
pub const MAIN_FROM_2: &'static str = "  getBuildOsIdentifier() {\n    return `Mac OS X ${hu.release()}`;\n  }";
pub const MAIN_TO_2: &'static str = "  getBuildOsIdentifier() {\n    return process.platform === \"linux\" ? `Linux ${hu.release()}` : `Mac OS X ${hu.release()}`;\n  }";
/// Applies window vibrancy on macOS only (main window).
pub const MAIN_FROM_3: &'static str = "  applyMainWindowStyle(u) {\n    u.setVibrancy(\"sidebar\");\n  }";
pub const MAIN_TO_3: &'static str = "  applyMainWindowStyle(u) {\n    process.platform === \"darwin\" && u.setVibrancy(\"sidebar\");\n  }";
/// Applies window vibrancy on macOS only (companion window).
pub const MAIN_FROM_4: &'static str = "  applyCompanionWindowStyle(u) {\n    u.setVibrancy(\"hud\");\n  }";
pub const MAIN_TO_4: &'static str = "  applyCompanionWindowStyle(u) {\n    process.platform === \"darwin\" && u.setVibrancy(\"hud\");\n  }";
/// Builds the tray icon from the Linux asset path. Only the stable start of
/// the macOS tray code is matched: the minified path-module name changes
/// between releases.
pub const MAIN_FROM_5: &'static str = "  createTray() {\n    const u = jnr.createFromPath(";
pub const MAIN_TO_5: &'static str = "  createTray() {\n    const u = process.platform === \"linux\" ? $Ye() : jnr.createFromPath(";
/// Reads the host name directly on Linux.
pub const MAIN_FROM_6: &'static str = "function jpa() {\n  try {";
pub const MAIN_TO_6: &'static str = "function jpa() {\n  if (process.platform === \"linux\")\n    return hu.hostname();\n  try {";
/// Adds a Linux branch to the tray image lookup without naming the
/// release-specific path module of the Windows branch.
pub const MAIN_FROM_7: &'static str = "function $Ye() {\n";
pub const MAIN_TO_7: &'static str = "function $Ye() {\n  if (process.platform === \"linux\") {\n    const assetPath = `${process.resourcesPath}/../../assets/TrayTemplateDark.png`;\n    return jnr.createFromPath(assetPath);\n  }\n";
/// Opens a `chatgpt://` link passed on the command line once the app is ready.
pub const BOOTSTRAP_FROM_0: &'static str = "Gu(), await Promise.allSettled(t), we().getState().appReady(), Pe && console.log(e);";
pub const BOOTSTRAP_TO_0: &'static str = "Gu(), await Promise.allSettled(t), we().getState().appReady();\n    const c = process.argv.find((u) => u.startsWith(`${ut.defaultDesktopURLScheme}://`) || u.startsWith(`${ut.altDesktopURLScheme}://`));\n    c && bi(c), Pe && console.log(e);";

/// The patches for the main-process bundle, in the order they apply.
pub fn main_patches() -> (r: Vec<Patch>)
    ensures
        patches_view(r@) == main_patch_table(),
        r@.len() == 8,
        r@[0].from@ == MAIN_FROM_0@ && r@[0].to@ == MAIN_TO_0@,
        r@[1].from@ == MAIN_FROM_1@ && r@[1].to@ == MAIN_TO_1@,
        r@[2].from@ == MAIN_FROM_2@ && r@[2].to@ == MAIN_TO_2@,
        r@[3].from@ == MAIN_FROM_3@ && r@[3].to@ == MAIN_TO_3@,
        r@[4].from@ == MAIN_FROM_4@ && r@[4].to@ == MAIN_TO_4@,
        r@[5].from@ == MAIN_FROM_5@ && r@[5].to@ == MAIN_TO_5@,
        r@[6].from@ == MAIN_FROM_6@ && r@[6].to@ == MAIN_TO_6@,
        r@[7].from@ == MAIN_FROM_7@ && r@[7].to@ == MAIN_TO_7@,
{
    let r = vec![
        Patch { from: MAIN_FROM_0, to: MAIN_TO_0 },
        Patch { from: MAIN_FROM_1, to: MAIN_TO_1 },
        Patch { from: MAIN_FROM_2, to: MAIN_TO_2 },
        Patch { from: MAIN_FROM_3, to: MAIN_TO_3 },
        Patch { from: MAIN_FROM_4, to: MAIN_TO_4 },
        Patch { from: MAIN_FROM_5, to: MAIN_TO_5 },
        Patch { from: MAIN_FROM_6, to: MAIN_TO_6 },
        Patch { from: MAIN_FROM_7, to: MAIN_TO_7 },
    ];
    assert(patches_view(r@) =~= main_patch_table());
    r
}

/// The patches for the app bootstrap bundle.
pub fn app_bootstrap_patches() -> (r: Vec<Patch>)
    ensures
        patches_view(r@) == app_bootstrap_patch_table(),
        r@.len() == 1,
        r@[0].from@ == BOOTSTRAP_FROM_0@ && r@[0].to@ == BOOTSTRAP_TO_0@,
{
    let r = vec![Patch { from: BOOTSTRAP_FROM_0, to: BOOTSTRAP_TO_0 }];
    assert(patches_view(r@) =~= app_bootstrap_patch_table());
    r
}

/// The main-process patches are the eight edits that make the bundle run
/// on Linux, in this order: the platform flag, the quit-on-close guard, the
/// OS identifier, the two window styles, the tray creation, the host name,
/// and the tray icon lookup.
pub proof fn lemma_main_patch_list()
    ensures
        main_patch_table().len() == 8,
        main_patch_table()[0] == (MAIN_FROM_0@, MAIN_TO_0@),
        main_patch_table()[1] == (MAIN_FROM_1@, MAIN_TO_1@),
        main_patch_table()[2] == (MAIN_FROM_2@, MAIN_TO_2@),
        main_patch_table()[3] == (MAIN_FROM_3@, MAIN_TO_3@),
        main_patch_table()[4] == (MAIN_FROM_4@, MAIN_TO_4@),
        main_patch_table()[5] == (MAIN_FROM_5@, MAIN_TO_5@),
        main_patch_table()[6] == (MAIN_FROM_6@, MAIN_TO_6@),
        main_patch_table()[7] == (MAIN_FROM_7@, MAIN_TO_7@),
{
}

/// The bootstrap patch list is the one edit that opens a `chatgpt://` link
/// given on the command line.
pub proof fn lemma_bootstrap_patch_list()
    ensures
        app_bootstrap_patch_table() == seq![(BOOTSTRAP_FROM_0@, BOOTSTRAP_TO_0@)],
{
}

} // verus!
