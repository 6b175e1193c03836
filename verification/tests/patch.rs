use chatgpt_linux_desktop::patch::{
    app_bootstrap_patches, diagnostic_context, find_build_js, fits_preview, main_patches,
    prepare_patches, preview, Patch,
};

fn joined_targets(patches: &[Patch]) -> String {
    patches
        .iter()
        .map(|patch| patch.from)
        .collect::<Vec<_>>()
        .join("\n\n")
}

#[test]
fn apply_replaces_each_patch_target() {
    let main = main_patches();
    let bootstrap = app_bootstrap_patches();
    let main_src = joined_targets(&main);
    let app_bootstrap_src = joined_targets(&bootstrap);

    let patched_main = prepare_patches(&main_src, &main).ok().unwrap();
    for patch in &main {
        if !patch.to.contains(patch.from) {
            assert!(!patched_main.contains(patch.from));
        }
        assert!(patched_main.contains(patch.to));
    }
    let patched_app_bootstrap = prepare_patches(&app_bootstrap_src, &bootstrap).ok().unwrap();
    for patch in &bootstrap {
        if !patch.to.contains(patch.from) {
            assert!(!patched_app_bootstrap.contains(patch.from));
        }
        assert!(patched_app_bootstrap.contains(patch.to));
    }
}

#[test]
fn apply_reports_context_for_missing_patch_target() {
    let main = main_patches();
    let source = "function $Ye() {\n  changed();\n}";
    let failure = match prepare_patches(source, &main) {
        Ok(_) => panic!("patching should fail"),
        Err(f) => f,
    };
    assert!(failure.can_describe());
    let err = failure.message();
    assert!(err.contains("patch target not found"));
    assert!(err.contains("nearest context"));
    assert_eq!(failure.index, 0);
    assert_eq!(failure.text, source);
}

#[test]
fn apply_does_not_write_main_when_bootstrap_patch_is_missing() {
    let main = main_patches();
    let main_src = joined_targets(&main);
    assert!(prepare_patches(&main_src, &main).is_ok());
    assert!(prepare_patches("changed bootstrap", &app_bootstrap_patches()).is_err());
}

#[test]
fn patches_apply_in_order_to_first_occurrence() {
    let patches = [
        Patch { from: "ab", to: "X" },
        Patch { from: "Xc", to: "done" },
    ];
    assert_eq!(prepare_patches("abcab", &patches).ok().unwrap(), "doneab");
    let failure = match prepare_patches("zzz", &patches) {
        Ok(_) => panic!("no target"),
        Err(f) => f,
    };
    assert_eq!(failure.index, 0);
    assert_eq!(failure.expected, "ab");
    let failure = match prepare_patches("abd", &patches) {
        Ok(_) => panic!("second target missing"),
        Err(f) => f,
    };
    assert_eq!(failure.index, 1);
    assert_eq!(failure.text, "Xd");
}

#[test]
fn preview_escapes_newlines_and_cuts_at_byte_limit() {
    assert_eq!(preview("a\nb", 10), "a\\nb");
    assert_eq!(preview("abcdef", 3), "abc...");
    assert_eq!(preview("abc", 3), "abc");
    assert!(fits_preview("héllo", 3));
    assert_eq!(preview("héllo", 3), "hé...");
    assert!(!fits_preview("héllo", 2));
}

#[test]
fn diagnostic_context_finds_nearest_line() {
    let expected = "short\n   a long enough line\nmore";
    let src = "xx a long enough line yy";
    assert_eq!(
        diagnostic_context(src, expected),
        Some("xx a long enough line yy".to_string())
    );
    assert_eq!(diagnostic_context("nothing here", expected), None);
    assert_eq!(diagnostic_context("anything", "tiny\nbits"), None);
    let long_src = format!("{}NEEDLE-NEEDLE-NEEDLE{}", "a".repeat(150), "b".repeat(300));
    let ctx = diagnostic_context(&long_src, "NEEDLE-NEEDLE-NEEDLE").unwrap();
    assert_eq!(ctx, format!("{}...", &format!("{}NEEDLE-NEEDLE-NEEDLE{}", "a".repeat(101), "b".repeat(180))[..240]));
}

#[test]
fn missing_target_message_without_context() {
    let patches = [Patch { from: "something that is long", to: "x" }];
    let failure = match prepare_patches("unrelated", &patches) {
        Ok(_) => panic!("no target"),
        Err(f) => f,
    };
    assert_eq!(
        failure.message(),
        "patch target not found (app may have updated):\n  expected: something that is long\n  nearest context: no related context found"
    );
}

#[test]
fn find_build_js_takes_first_matching_name() {
    let names = vec![
        "main.css".to_string(),
        "app-bootstrap-x.js".to_string(),
        "main-1.js.map".to_string(),
        "main-2.js".to_string(),
    ];
    assert_eq!(find_build_js(&names, "main-"), Some(3));
    assert_eq!(find_build_js(&names, "app-bootstrap-"), Some(1));
    assert_eq!(find_build_js(&names, "renderer-"), None);
}
