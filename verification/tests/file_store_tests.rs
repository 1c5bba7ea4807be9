use femtobot::file_store::{truncate, MemoryStore, MAX_CONTEXT_CHARS};

fn s(b: &[u8]) -> String {
    String::from_utf8_lossy(b).into_owned()
}

#[test]
fn truncate_returns_short_input_unchanged() {
    let out = truncate(b"hello world", 100);
    assert_eq!(out, b"hello world".to_vec());
}

#[test]
fn truncate_never_exceeds_budget_plus_marker() {
    let long = "word ".repeat(100);
    for max in [0usize, 1, 10, 50, 100, 499] {
        let out = truncate(long.as_bytes(), max);
        assert!(out.len() <= max + "... (truncated)".len());
    }
}

#[test]
fn truncate_prefers_paragraph_breaks() {
    let mut text = String::new();
    text.push_str(&"a".repeat(60));
    text.push_str("\n\n");
    text.push_str(&"b".repeat(60));
    let out = truncate(text.as_bytes(), 100);
    let got = s(&out);
    assert!(got.starts_with(&"a".repeat(60)));
    assert!(got.ends_with("... (truncated)"));
    assert!(!got.contains('b'));
}

#[test]
fn truncate_falls_back_to_hard_cut() {
    let text = "x".repeat(200);
    let out = truncate(text.as_bytes(), 100);
    assert_eq!(s(&out), format!("{}... (truncated)", "x".repeat(80)));
}

#[test]
fn append_remembered_fact_creates_section_with_dated_bullet() {
    let mut store = MemoryStore::with_today("/tmp/ws", b"2025-01-02".to_vec());
    store.append_remembered_fact("User likes tea");
    let doc = s(store.read_long_term());
    assert!(doc.contains("## Remembered Facts"));
    assert!(doc.contains("- [2025-01-02] User likes tea"));
}

#[test]
fn append_remembered_fact_appends_to_existing_section() {
    let mut store = MemoryStore::with_today("/tmp/ws", b"2025-01-02".to_vec());
    store.append_remembered_fact("User prefers concise responses");
    store.append_remembered_fact("User uses Rust");
    let doc = s(store.read_long_term());
    assert!(doc.contains("## Remembered Facts"));
    assert!(doc.contains("User prefers concise responses"));
    assert!(doc.contains("User uses Rust"));
    assert_eq!(doc.matches("## Remembered Facts").count(), 1);
}

#[test]
fn appends_keep_other_sections_byte_for_byte() {
    let mut store = MemoryStore::with_today("/tmp/ws", b"2025-01-02".to_vec());
    store.append_remembered_fact("first fact");
    store.append_user_observation("I prefer short answers");
    let before = s(store.read_long_term());
    store.append_conversation_observation("talked about tea");
    let after = s(store.read_long_term());
    assert!(after.contains("- [2025-01-02] first fact"));
    assert!(after.contains("- [2025-01-02] I prefer short answers"));
    assert!(after.contains("## Conversation Observations"));
    assert!(after.starts_with(before.trim_end_matches('\n')));
}

#[test]
fn many_entries_all_survive_in_order() {
    let mut store = MemoryStore::with_today("/tmp/ws", b"2025-01-02".to_vec());
    for i in 0..20 {
        store.append_remembered_fact(&format!("fact-{i}"));
    }
    let doc = s(store.read_long_term());
    for i in 0..20 {
        assert!(doc.contains(&format!("fact-{i}")));
    }
}

#[test]
fn extracted_notes_trim_oldest_lines_past_budget() {
    let mut store = MemoryStore::with_today("/tmp/ws", b"2025-01-02".to_vec());
    let big = "z".repeat(3000);
    store.append_extracted_facts(&vec![format!("first {big}").into_bytes()]);
    store.append_extracted_facts(&vec![format!("second {big}").into_bytes()]);
    store.append_extracted_facts(&vec![format!("third {big}").into_bytes()]);
    let doc = s(store.read_long_term());
    assert!(!doc.contains("first"));
    assert!(doc.contains("second"));
    assert!(doc.contains("third"));
}

#[test]
fn grounded_fact_records_source_and_two_decimal_confidence() {
    let mut store = MemoryStore::with_today("/tmp/ws", b"2025-01-02".to_vec());
    store.append_grounded_fact("Build succeeded in 2m31s", "cargo build", 92);
    store.append_grounded_fact("Another fact", "  ", 100);
    let doc = s(store.read_long_term());
    assert!(doc.contains("## Grounded Facts"));
    assert!(doc.contains("Build succeeded in 2m31s (source: cargo build, confidence: 0.92)"));
    assert!(doc.contains("Another fact (source: unknown, confidence: 1.00)"));
}

#[test]
fn blank_facts_are_dropped() {
    let mut store = MemoryStore::with_today("/tmp/ws", b"2025-01-02".to_vec());
    store.append_remembered_fact("   ");
    assert_eq!(store.read_long_term().len(), 0);
}

#[test]
fn memory_context_blends_both_documents() {
    let mut store = MemoryStore::with_today("/tmp/ws", b"2025-01-02".to_vec());
    store.load_documents(b"long term notes".to_vec(), b"today notes".to_vec());
    let ctx = s(&store.get_memory_context(MAX_CONTEXT_CHARS));
    assert_eq!(
        ctx,
        "## Long-term Memory\nlong term notes\n\n## Today's Notes\ntoday notes"
    );
}

#[test]
fn memory_context_skips_tiny_remaining_budget() {
    let mut store = MemoryStore::with_today("/tmp/ws", b"2025-01-02".to_vec());
    store.load_documents(b"abc".to_vec(), b"today".to_vec());
    let ctx = s(&store.get_memory_context(100));
    assert_eq!(ctx, "## Long-term Memory\nabc");
}

#[test]
fn memory_context_empty_when_no_documents() {
    let store = MemoryStore::with_today("/tmp/ws", b"2025-01-02".to_vec());
    assert_eq!(store.get_memory_context(1000), Vec::<u8>::new());
}

#[test]
fn store_paths_derive_from_workspace() {
    let store = MemoryStore::with_today("/home/u/ws", b"2025-01-02".to_vec());
    assert_eq!(s(store.workspace()), "/home/u/ws");
    assert_eq!(s(store.memory_dir()), "/home/u/ws/memory");
    assert_eq!(s(&store.get_today_file()), "/home/u/ws/memory/2025-01-02.md");
}

#[test]
fn new_store_stamps_a_date() {
    let store = MemoryStore::new("/tmp/ws");
    let today = store.today.clone();
    assert!(today.len() >= 10);
    assert!(today.iter().all(|b| b.is_ascii_digit() || *b == b'-'));
}
