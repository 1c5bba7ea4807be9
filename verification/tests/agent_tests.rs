use femtobot::agent::{
    advance_watermark, classify_failure, collapse_whitespace, extract_user_observations,
    plan_summary, retry_backoff_ms, session_namespace, should_retry_same_route,
    truncate_memory_snippet, ChatMessage, FailureClass, HistoryCompactor, Role, SummaryOutcome,
    SummaryPlan,
};
use femtobot::bus::session_key;

fn turn(role: Role, text: &str) -> ChatMessage {
    ChatMessage { role, content: text.as_bytes().to_vec() }
}

#[test]
fn session_namespace_sanitizes_the_key() {
    assert_eq!(session_namespace("telegram:123456"), b"telegram_123456".to_vec());
    assert_eq!(session_namespace(""), b"default".to_vec());
    assert_eq!(session_namespace("discord:a b"), b"discord_a_b".to_vec());
    assert_eq!(session_namespace(&"x".repeat(100)).len(), 64);
}

#[test]
fn session_key_joins_channel_and_chat() {
    assert_eq!(session_key("telegram", "42"), "telegram:42".to_string());
}

#[test]
fn observations_need_triggers_length_and_novelty() {
    let text = "I prefer tea over coffee\nshort\nI prefer tea over coffee\n\
                the weather is nice today and long enough\nMy name is Dana and I code\n";
    let obs = extract_user_observations(text, 5);
    assert_eq!(obs.len(), 2);
    assert_eq!(obs[0], b"I prefer tea over coffee".to_vec());
    assert_eq!(obs[1], b"My name is Dana and I code".to_vec());
}

#[test]
fn observations_respect_the_cap() {
    let text = "I prefer tea in the morning\nI am working on a compiler\n\
                I live near the station\nI want faster builds\n";
    let obs = extract_user_observations(text, 2);
    assert_eq!(obs.len(), 2);
}

#[test]
fn snippet_collapses_whitespace_and_marks_cuts() {
    assert_eq!(
        truncate_memory_snippet("  a   b\n\tc  ", 100),
        b"a b c".to_vec()
    );
    assert_eq!(truncate_memory_snippet("abcdef", 4), b"abcd...".to_vec());
    assert_eq!(collapse_whitespace("one  two"), b"one two".to_vec());
}

#[test]
fn snippet_counts_characters_and_never_splits_one() {
    // three characters of "h", "\u{e9}", "l" - four bytes
    let cut = truncate_memory_snippet("h\u{e9}llo", 3);
    assert_eq!(String::from_utf8(cut).unwrap(), "h\u{e9}l...");
    assert_eq!(session_namespace("a\u{e9}b"), b"a_b".to_vec());
}

#[test]
fn failures_classify_by_pattern() {
    assert!(matches!(classify_failure("HTTP 429 Too Many Requests"), FailureClass::RateLimit));
    assert!(matches!(classify_failure("request timed out"), FailureClass::Timeout));
    assert!(matches!(classify_failure("upstream 503"), FailureClass::Upstream));
    assert!(matches!(classify_failure("401 Unauthorized"), FailureClass::Auth));
    assert!(matches!(classify_failure("invalid model name"), FailureClass::Request));
    assert!(matches!(classify_failure("boom"), FailureClass::Unknown));
    assert_eq!(classify_failure("Rate Limit hit").as_str(), "rate_limit");
}

#[test]
fn retry_only_transient_classes_up_to_cap() {
    assert!(should_retry_same_route(&FailureClass::RateLimit, 0));
    assert!(should_retry_same_route(&FailureClass::Timeout, 1));
    assert!(!should_retry_same_route(&FailureClass::Timeout, 2));
    assert!(!should_retry_same_route(&FailureClass::Auth, 0));
    assert_eq!(retry_backoff_ms(0), 400);
    assert_eq!(retry_backoff_ms(1), 800);
}

#[test]
fn summary_skips_until_enough_user_turns() {
    let mut history = Vec::new();
    history.push(turn(Role::User, "hello"));
    history.push(turn(Role::Assistant, "hi"));
    history.push(turn(Role::User, "more"));
    assert!(matches!(plan_summary(&history, 0), SummaryPlan::Skip));
    assert!(matches!(plan_summary(&history, 3), SummaryPlan::Skip));
}

#[test]
fn summary_window_keeps_context_and_caps_length() {
    let mut history = Vec::new();
    for i in 0..30 {
        if i % 2 == 0 {
            history.push(turn(Role::User, "question"));
        } else {
            history.push(turn(Role::Assistant, "answer"));
        }
    }
    match plan_summary(&history, 10) {
        SummaryPlan::Window { start, end } => {
            // context start would be 4, but the 18-message cap wins
            assert_eq!(start, 12);
            assert_eq!(end, 30);
        },
        SummaryPlan::Skip => panic!("expected a window"),
    }
    match plan_summary(&history, 24) {
        SummaryPlan::Window { start, end } => {
            assert_eq!(start, 18);
            assert_eq!(end, 30);
        },
        SummaryPlan::Skip => panic!("expected a window"),
    }
}

#[test]
fn watermark_never_decreases() {
    let mut wm = 0usize;
    let steps = [
        (5usize, SummaryOutcome::Produced),
        (3, SummaryOutcome::Empty),
        (9, SummaryOutcome::Failed),
        (9, SummaryOutcome::Produced),
    ];
    let mut last = wm;
    for (len, outcome) in steps {
        wm = advance_watermark(wm, len, &outcome);
        assert!(wm >= last);
        last = wm;
    }
    assert_eq!(wm, 9);
}

#[test]
fn failed_summaries_leave_the_watermark_for_retry() {
    assert_eq!(advance_watermark(4, 10, &SummaryOutcome::Failed), 4);
    assert_eq!(advance_watermark(4, 10, &SummaryOutcome::Empty), 10);
    assert_eq!(advance_watermark(4, 10, &SummaryOutcome::Produced), 10);
}

#[test]
fn compactor_passes_short_histories_through() {
    let compactor = HistoryCompactor { threshold: 10 };
    let history = vec![turn(Role::User, "a"), turn(Role::Assistant, "b")];
    let (sent, compacted) = compactor.compact(&history);
    assert!(!compacted);
    assert_eq!(sent.len(), 2);
    assert_eq!(sent[0].content, b"a".to_vec());
}

#[test]
fn compactor_keeps_a_recent_suffix_and_leaves_the_stored_history() {
    let compactor = HistoryCompactor { threshold: 4 };
    let history = vec![
        turn(Role::User, "m0"),
        turn(Role::Assistant, "m1"),
        turn(Role::User, "m2"),
        turn(Role::Assistant, "m3"),
        turn(Role::User, "m4"),
    ];
    let (sent, compacted) = compactor.compact(&history);
    assert!(compacted);
    assert_eq!(sent.len(), 2);
    assert_eq!(sent[0].content, b"m3".to_vec());
    assert_eq!(sent[1].content, b"m4".to_vec());
    assert_eq!(history.len(), 5);
}

#[test]
fn roles_name_themselves() {
    assert_eq!(Role::User.as_str(), "user");
    assert_eq!(Role::Assistant.as_str(), "assistant");
}
