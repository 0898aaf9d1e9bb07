use appmanager::matching::build_name_tokens;
use appmanager::matching::build_publisher_tokens;
use appmanager::matching::is_stop_token_name;
use appmanager::matching::is_stop_token_publisher;
use appmanager::matching::score_folder;
use appmanager::matching::split_tokens;
use appmanager::matching::AppTokens;
use appmanager::uninstall::is_version_like;
use appmanager::uninstall::normalize_key;
use appmanager::uninstall::strip_version_suffix;

#[test]
fn version_stripping_trailing_word() {
    assert_eq!(strip_version_suffix("Foo Bar 1.2.3"), "Foo Bar");
}

#[test]
fn version_stripping_parenthesized() {
    assert_eq!(strip_version_suffix("Foo Bar (1.2.3)"), "Foo Bar");
}

#[test]
fn version_stripping_bracketed() {
    assert_eq!(strip_version_suffix("Foo Bar [2.0.1]"), "Foo Bar");
}

#[test]
fn version_stripping_v_prefix() {
    assert_eq!(strip_version_suffix("Foo Bar v1.2"), "Foo Bar");
}

#[test]
fn version_stripping_year_kept() {
    assert_eq!(strip_version_suffix("Foo Bar 2024"), "Foo Bar 2024");
}

#[test]
fn version_stripping_single_digit_kept() {
    assert_eq!(strip_version_suffix("Foo 1"), "Foo 1");
}

#[test]
fn version_stripping_trims() {
    assert_eq!(strip_version_suffix("  Foo Bar 1.2.3  "), "Foo Bar");
    assert_eq!(strip_version_suffix("   "), "");
}

#[test]
fn version_like_words() {
    assert!(is_version_like("1.2.3"));
    assert!(is_version_like("v1.2"));
    assert!(is_version_like("V1.0"));
    assert!(is_version_like("1.2_3-4"));
    assert!(!is_version_like("2024"));
    assert!(!is_version_like("1-2"));
    assert!(!is_version_like(""));
    assert!(!is_version_like("v"));
    assert!(!is_version_like("abc1.2"));
}

#[test]
fn normalize_collapses() {
    assert_eq!(
        normalize_key("JetBrains PyCharm 2024.1"),
        "jetbrainspycharm20241"
    );
    assert_eq!(normalize_key("  !!  "), "");
}

#[test]
fn split_tokens_lowers_and_splits() {
    assert_eq!(
        split_tokens("JetBrains PyCharm 2024.1"),
        vec!["jetbrains", "pycharm", "2024", "1"]
    );
}

#[test]
fn name_tokens_skip_stop_words_and_digits() {
    // collapsed key first, then filtered split tokens without duplicates
    assert_eq!(
        build_name_tokens("Notion 2.1.0"),
        vec!["notion210", "notion"]
    );
    assert_eq!(
        build_name_tokens("Windows Driver Tool"),
        vec!["windowsdrivertool"]
    );
}

#[test]
fn publisher_tokens_skip_stop_words() {
    assert_eq!(build_publisher_tokens("Microsoft Corporation"), Vec::<String>::new());
    assert_eq!(build_publisher_tokens("Notion Labs Inc"), vec!["notion", "labs"]);
}

#[test]
fn stop_word_membership() {
    assert!(is_stop_token_name("windows"));
    assert!(is_stop_token_name("sdk"));
    assert!(!is_stop_token_name("notion"));
    assert!(is_stop_token_publisher("gmbh"));
    assert!(is_stop_token_publisher("solutions"));
    assert!(!is_stop_token_publisher("jetbrains"));
}

fn tokens(
    name_tokens: Vec<&str>,
    publisher_tokens: Vec<&str>,
    allow_publisher_only: bool,
) -> AppTokens {
    AppTokens {
        app_id: "hklm64:test".to_string(),
        name_tokens: name_tokens.into_iter().map(|s| s.to_string()).collect(),
        publisher_tokens: publisher_tokens.into_iter().map(|s| s.to_string()).collect(),
        allow_publisher_only,
    }
}

#[test]
fn score_with_name_evidence() {
    let t = tokens(vec!["notion"], vec!["notionlabs"], false);
    assert_eq!(score_folder("notion", &t), 600);
    assert_eq!(score_folder("no", &t), 0);
}

#[test]
fn score_publisher_only() {
    let t = tokens(vec![], vec!["jetbrains"], true);
    assert_eq!(score_folder("jetbrains", &t), 450);
}

#[test]
fn score_below_thresholds() {
    // a 2-character name token alone cannot reach 300
    let t = tokens(vec!["ab"], vec![], false);
    assert_eq!(score_folder("ab", &t), 0);
    // publisher evidence of weight 3 cannot reach 200
    let t2 = tokens(vec![], vec!["abc"], true);
    assert_eq!(score_folder("abc", &t2), 0);
    // publisher-only evidence is ignored when name tokens exist
    let t3 = tokens(vec!["zzz"], vec!["jetbrains"], false);
    assert_eq!(score_folder("jetbrains", &t3), 0);
}

#[test]
fn candidate_keys_sorted_unique() {
    let t = tokens(vec!["notion", "notion210"], vec!["notion", "labs"], false);
    assert_eq!(
        appmanager::matching::build_candidate_folder_keys(&t),
        vec!["labs", "notion", "notion210", "notionlabs"]
    );
}

#[test]
fn score_never_drops_when_matching_token_added() {
    let t1 = tokens(vec!["notion"], vec![], false);
    let t2 = tokens(vec!["notion", "otio"], vec![], false);
    let s1 = score_folder("notionx", &t1);
    let s2 = score_folder("notionx", &t2);
    assert_eq!(s1, 600);
    assert_eq!(s2, 1000);
    assert!(s2 >= s1);
    let p1 = tokens(vec![], vec!["jetbrains"], true);
    let p2 = tokens(vec![], vec!["jetbrains", "rain"], true);
    assert!(score_folder("jetbrains", &p2) >= score_folder("jetbrains", &p1));
}

#[test]
fn stop_words_cannot_contribute() {
    // the split tokens of a stop-word-only name are all dropped, so only
    // the collapsed key can match a folder
    let bag = build_name_tokens("Windows Tools");
    assert_eq!(bag, vec!["windowstools"]);
    let t = tokens(vec!["windowstools"], vec![], false);
    assert_eq!(score_folder("windows", &t), 0);
}

#[test]
fn version_stripping_is_single_pass() {
    // one pass strips one trailing suffix; a once-stripped name with no
    // further suffix is a fixed point
    assert_eq!(strip_version_suffix("Foo 1.2 3.4"), "Foo 1.2");
    assert_eq!(strip_version_suffix("Foo Bar"), "Foo Bar");
    let once = strip_version_suffix("Foo Bar 1.2.3");
    assert_eq!(strip_version_suffix(&once), once);
}
