use chatgpt_linux_desktop::fetch::{
    cache_dir_parts, classify_score, electron_release, filename_from_url, is_package_candidate,
    parse_rg_adguard_html, sanitize_filename, select_package, strip_tags, RgError,
};

#[test]
fn classify_score_ranks_bundles_and_x64() {
    assert_eq!(classify_score("OpenAI.ChatGPT_1.0_neutral_~_x.MsixBundle"), 105);
    assert_eq!(classify_score("OpenAI.ChatGPT_1.0_x64__x.msix"), 70);
    assert_eq!(classify_score("OpenAI.ChatGPT_1.0_x64__x.BlockMap"), -180);
    assert_eq!(classify_score("readme.txt"), 0);
}

#[test]
fn package_candidates() {
    assert!(is_package_candidate("App_1.0_x64.appx"));
    assert!(is_package_candidate("App.MSIXBUNDLE"));
    assert!(!is_package_candidate("App.eappx"));
    assert!(!is_package_candidate("App_test.msix"));
    assert!(!is_package_candidate("App.zip"));
}

#[test]
fn sanitize_filename_keeps_safe_characters() {
    assert_eq!(sanitize_filename("a b/c?é_-.x"), "a_b_c___-.x");
}

#[test]
fn filename_from_url_takes_last_segment_without_query() {
    assert_eq!(
        filename_from_url("http://h/p/file.msix?x=1/2"),
        Some("file.msix".to_string())
    );
    assert_eq!(filename_from_url("http://h/p/"), None);
    assert_eq!(filename_from_url("name"), Some("name".to_string()));
}

#[test]
fn strip_tags_removes_markup() {
    assert_eq!(strip_tags("a<b>c</b>d"), "acd");
    assert_eq!(strip_tags("x>y<z"), "xy");
}

#[test]
fn parse_and_select_from_link_list() {
    let body = [
        "<html><a href=\"/local\">skip</a>",
        "<a class=\"x\" href=\"http://dl/a.BlockMap?k=1&amp;v=2\">a.BlockMap</a>",
        "<a href=\"http://dl/App_x64.msix\"> <b>App_x64.msix</b> </a>",
        "<a href=\"http://dl/App_neutral.msixbundle?t=1&amp;u=2\"></a>",
        "<a name=\"anchor\">no href</a>",
        "<a href=\"https://dl/App_neutral_long.msixbundle\">App_neutral_long.msixbundle</a>",
        "</html>",
    ]
    .join("");
    let body = body.as_str();
    let files = parse_rg_adguard_html(body);
    let names: Vec<&str> = files.iter().map(|f| f.filename.as_str()).collect();
    assert_eq!(
        names,
        vec![
            "a.BlockMap",
            "App_x64.msix",
            "App_neutral.msixbundle",
            "App_neutral_long.msixbundle"
        ]
    );
    assert_eq!(files[0].url, "http://dl/a.BlockMap?k=1&v=2");
    let best = select_package(body).ok().unwrap();
    assert_eq!(best.filename, "App_neutral_long.msixbundle");
}

#[test]
fn select_package_errors() {
    assert_eq!(
        select_package("<title>Just a moment...</title>").err(),
        Some(RgError::CloudflareChallenge)
    );
    assert_eq!(
        select_package("<a href=\"http://x/readme.txt\">readme.txt</a>").err(),
        Some(RgError::NoPackages)
    );
    assert!(RgError::NoPackages.message().contains("no usable msix/appx"));
}

#[test]
fn select_package_keeps_first_of_equal_rank() {
    let body = "<a href=\"http://a/1\">A_x64.msix</a><a href=\"http://a/2\">B_x64.msix</a>";
    assert_eq!(select_package(body).ok().unwrap().url, "http://a/1");
}

#[test]
fn electron_release_names() {
    let r = electron_release("41.2.2");
    assert_eq!(r.dir_name, "electron-41.2.2");
    assert_eq!(r.zip_name, "electron-v41.2.2-linux-x64.zip");
    assert_eq!(
        r.url,
        "https://github.com/electron/electron/releases/download/v41.2.2/electron-v41.2.2-linux-x64.zip"
    );
}

#[test]
fn cache_dir_prefers_xdg_then_home() {
    assert_eq!(
        cache_dir_parts(Some("/x".into()), Some("/h".into())),
        vec!["/x", "chatgpt-linux-desktop"]
    );
    assert_eq!(
        cache_dir_parts(None, Some("/h".into())),
        vec!["/h", ".cache", "chatgpt-linux-desktop"]
    );
    assert_eq!(
        cache_dir_parts(None, None),
        vec!["/tmp", ".cache", "chatgpt-linux-desktop"]
    );
}
