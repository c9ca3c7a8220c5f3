use pscan::updater::{
    cache_is_fresh, check_now, is_newer, prompt_answer, should_prompt, should_skip_check,
    PromptAnswer, CACHE_TTL_SECS,
};

#[test]
fn semver_comparison_detects_newer_patch() {
    assert!(is_newer("2.0.0", "2.0.1"));
    assert!(is_newer("2.0.0", "v2.0.1"));
    assert!(is_newer("v2.0.0", "2.0.1"));
}

#[test]
fn semver_comparison_rejects_older_or_same() {
    assert!(!is_newer("2.0.1", "2.0.0"));
    assert!(!is_newer("2.0.0", "2.0.0"));
    assert!(!is_newer("v2.0.0", "v2.0.0"));
}

#[test]
fn semver_comparison_detects_minor_and_major_bumps() {
    assert!(is_newer("2.0.9", "2.1.0"));
    assert!(is_newer("2.9.9", "3.0.0"));
    assert!(!is_newer("3.0.0", "2.9.9"));
}

#[test]
fn semver_comparison_handles_partial_versions() {
    assert!(is_newer("2.0", "2.0.1"));
    assert!(is_newer("2", "2.1"));
    assert!(!is_newer("2.1", "2"));
}

#[test]
fn non_numeric_versions_fall_back_to_text_order() {
    assert!(is_newer("beta", "gamma"));
    assert!(!is_newer("gamma", "beta"));
    assert!(!is_newer("rc", "2.0.0"));
    assert!(is_newer("2.0.0", "rc"));
    assert!(!is_newer("", ""));
}

#[test]
fn any_non_numeric_piece_forces_text_order() {
    assert!(is_newer("1.0.a", "1.0.b"));
    assert!(!is_newer("1.0.b", "1.0.a"));
    assert!(is_newer("2.0.9", "2.0.a"));
    assert!(is_newer("2.0.10-rc1", "2.0.9"));
    assert!(is_newer("2.0.0-rc1", "2.0.1"));
    assert!(!is_newer("2.x.1", "2.1"));
    assert!(is_newer("2.0.0", "2.0.0.1"));
    assert!(!is_newer("2.0.0.0", "2.0.0"));
}

#[test]
fn newer_is_never_both_ways() {
    let versions = ["1", "1.0", "1.0.1", "v1.2", "2", "x", "rc1", "", "10.0"];
    for a in versions {
        assert!(!is_newer(a, a));
        for b in versions {
            assert!(!(is_newer(a, b) && is_newer(b, a)), "{a} {b}");
        }
    }
}

#[test]
fn leading_v_does_not_matter() {
    for (a, b) in [("1.0", "1.1"), ("2.1", "2.0"), ("abc", "abd"), ("3", "3")] {
        assert_eq!(is_newer(a, b), is_newer(&format!("v{a}"), b));
        assert_eq!(is_newer(a, b), is_newer(a, &format!("vv{b}")));
    }
}

#[test]
fn check_outcome_compares_the_two_versions() {
    let outcome = check_now("2.0.0".to_string(), "v2.1.0".to_string());
    assert_eq!(outcome.current, "2.0.0");
    assert_eq!(outcome.latest, "v2.1.0");
    assert!(outcome.is_newer);
    assert!(!check_now("2.1.0".to_string(), "2.1.0".to_string()).is_newer);
}

#[test]
fn cache_stays_fresh_for_a_day() {
    assert_eq!(CACHE_TTL_SECS, 86400);
    assert!(cache_is_fresh(1000, 1000));
    assert!(cache_is_fresh(1000, 1000 + 86399));
    assert!(!cache_is_fresh(1000, 1000 + 86400));
    assert!(cache_is_fresh(5000, 10));
    assert!(!should_skip_check(None, 10));
    assert!(should_skip_check(Some(10), 20));
    assert!(!should_skip_check(Some(0), 100_000));
}

#[test]
fn prompt_only_for_a_newer_release_not_declined() {
    assert!(should_prompt("2.0.0", "2.0.1", None));
    assert!(should_prompt("2.0.0", "2.0.1", Some("2.0.0")));
    assert!(!should_prompt("2.0.0", "2.0.1", Some("2.0.1")));
    assert!(!should_prompt("2.0.1", "2.0.1", None));
}

#[test]
fn prompt_answers_ignore_case_and_space() {
    assert_eq!(prompt_answer("y\n"), PromptAnswer::Update);
    assert_eq!(prompt_answer("  YES "), PromptAnswer::Update);
    assert_eq!(prompt_answer("s"), PromptAnswer::Skip);
    assert_eq!(prompt_answer("Skip\r\n"), PromptAnswer::Skip);
    assert_eq!(prompt_answer(""), PromptAnswer::Ignore);
    assert_eq!(prompt_answer("no"), PromptAnswer::Ignore);
    assert_eq!(prompt_answer("yes please"), PromptAnswer::Ignore);
}

#[test]
fn numbered_versions_compare_transitively() {
    let versions = ["1", "1.0.1", "1.2", "v1.10", "2", "2.0.0.1", "10.0"];
    for a in versions {
        for b in versions {
            for c in versions {
                if is_newer(a, b) && is_newer(b, c) {
                    assert!(is_newer(a, c), "{a} {b} {c}");
                }
            }
        }
    }
    assert!(is_newer("1a", "5") && is_newer("5", "10") && !is_newer("1a", "10"));
}
