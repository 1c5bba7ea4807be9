use femtobot::config::MemoryMode;
use femtobot::context::{build_prompt, build_recall_block, format_score, memory_guidance};
use femtobot::vector_store::{MemoryItem, MetaEntry, MetaValue, VectorMemoryStore};

fn s(b: &[u8]) -> String {
    String::from_utf8_lossy(b).into_owned()
}

#[test]
fn guidance_follows_the_memory_mode() {
    let off = memory_guidance(&MemoryMode::Off, "/ws");
    assert!(off.starts_with("Memory is disabled"));
    let simple = memory_guidance(&MemoryMode::Simple, "/ws");
    assert!(simple.starts_with("## Memory Recall"));
    assert!(simple.ends_with("/ws/memory/MEMORY.md."));
    let smart = memory_guidance(&MemoryMode::Smart, "/ws");
    assert!(smart.contains("namespace"));
}

#[test]
fn prompt_holds_header_and_user_text() {
    let p = build_prompt("telegram", "42", "alice", b"", b"", "hi there", true);
    assert_eq!(
        s(&p),
        "[Conversation context]\nchannel: telegram\nchat_id: 42\nsender_id: alice\n\n[User message]\nhi there"
    );
}

#[test]
fn prompt_injects_file_and_session_memory_when_present() {
    let p = build_prompt("cli", "1", "me", b"old notes", b"- (1.00) recalled", "query", true);
    let text = s(&p);
    assert!(text.contains("[Notes from memory]\nold notes"));
    assert!(text.contains("[Notes from session memory]\n- (1.00) recalled"));
    assert!(text.ends_with("[User message]\nquery"));
}

#[test]
fn prompt_omits_memory_when_disabled() {
    let p = build_prompt("cli", "1", "me", b"old notes", b"recall", "query", false);
    let text = s(&p);
    assert!(!text.contains("Notes from memory"));
    assert!(!text.contains("Notes from session memory"));
}

#[test]
fn scores_format_with_two_decimals() {
    assert_eq!(format_score(1_000_000), b"1.00".to_vec());
    assert_eq!(format_score(875_000), b"0.88".to_vec());
    assert_eq!(format_score(80_000), b"0.08".to_vec());
    assert_eq!(format_score(0), b"0.00".to_vec());
    assert_eq!(format_score(-333_333), b"-0.33".to_vec());
}

#[test]
fn recall_block_caps_at_three_lines_and_collapses_snippets() {
    let mut store = VectorMemoryStore::new(10, b"ns").unwrap();
    let meta = |v: i64| vec![MetaEntry { key: b"importance".to_vec(), value: MetaValue::Score(v) }];
    for (text, imp) in [
        ("first   memory", 900_000i64),
        ("second memory", 800_000),
        ("third memory", 700_000),
        ("fourth memory", 600_000),
    ] {
        store.add(text.as_bytes(), meta(imp), None, vec![1000, 1000], 1).unwrap();
    }
    let results: Vec<(MemoryItem, i64)> =
        store.search(&vec![1000, 1000], 5, 0, None, 1_000_000).unwrap();
    assert_eq!(results.len(), 4);
    let block = s(&build_recall_block(&results));
    let lines: Vec<&str> = block.lines().collect();
    assert_eq!(lines.len(), 3);
    assert_eq!(lines[0], "- (1.00) first memory");
    assert_eq!(lines[1], "- (1.00) second memory");
    assert_eq!(lines[2], "- (1.00) third memory");
}
