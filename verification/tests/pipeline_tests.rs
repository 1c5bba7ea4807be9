use femtobot::file_store::MemoryStore;
use femtobot::pipeline::{ingest_summary, summary_metadata};
use femtobot::vector_store::{MetaValue, VectorMemoryStore};

#[test]
fn ingest_writes_all_sections_and_the_vector_record() {
    let mut memory = MemoryStore::with_today("/tmp/ws", b"2025-01-02".to_vec());
    let mut vector = VectorMemoryStore::new(100, b"default").unwrap();
    let summary = "User talked about compilers.\nI prefer statically checked builds today";
    let (wm, item) = ingest_summary(
        &mut memory,
        &mut vector,
        true,
        summary,
        "summarizer",
        "telegram:42",
        600_000,
        vec![1000, 2000],
        4,
        9,
        50,
    );
    assert_eq!(wm, 9);
    let doc = String::from_utf8_lossy(memory.read_long_term()).into_owned();
    assert!(doc.contains("## Conversation Observations"));
    assert!(doc.contains("## Extracted Notes"));
    assert!(doc.contains("## User Observations"));
    assert!(doc.contains("- [2025-01-02] I prefer statically checked builds today"));
    let item = item.expect("vector record stored");
    assert_eq!(item.namespace, b"telegram_42".to_vec());
    assert_eq!(item.content, summary.as_bytes().to_vec());
    assert_eq!(item.created_at, 50);
    // importance 0.6: priority 0.6 * 0.4 + 0.3
    assert_eq!(item.priority, 600_000 * 4 / 10 + 300_000);
    let stored = vector.get(&item.id, Some(b"telegram_42")).unwrap();
    assert!(stored.is_some());
}

#[test]
fn blank_summaries_advance_the_watermark_without_writing() {
    let mut memory = MemoryStore::with_today("/tmp/ws", b"2025-01-02".to_vec());
    let mut vector = VectorMemoryStore::new(100, b"default").unwrap();
    let (wm, item) = ingest_summary(
        &mut memory,
        &mut vector,
        true,
        "   ",
        "summarizer",
        "cli:1",
        500_000,
        vec![],
        3,
        8,
        10,
    );
    assert_eq!(wm, 8);
    assert!(item.is_none());
    assert_eq!(memory.read_long_term().len(), 0);
    assert_eq!(vector.rows.len(), 0);
}

#[test]
fn ingest_caps_observations_at_three() {
    let mut memory = MemoryStore::with_today("/tmp/ws", b"2025-01-02".to_vec());
    let mut vector = VectorMemoryStore::new(100, b"default").unwrap();
    let summary = "I prefer tea in the morning\nI am working on a compiler\n\
                   I live near the station\nI want faster builds\n";
    let (_, _) = ingest_summary(
        &mut memory,
        &mut vector,
        false,
        summary,
        "summarizer",
        "cli:1",
        500_000,
        vec![],
        0,
        4,
        10,
    );
    let doc = String::from_utf8_lossy(memory.read_long_term()).into_owned();
    let obs_section = doc.split("## User Observations").nth(1).expect("section exists");
    assert_eq!(obs_section.matches("- [2025-01-02]").count(), 3);
    // the fourth trigger line was left out of the observations
    assert!(!obs_section.contains("I want faster builds"));
    assert_eq!(vector.rows.len(), 0);
}

#[test]
fn summary_metadata_carries_provenance_and_importance() {
    let meta = summary_metadata("summarizer", "telegram:42", 4, 9, 700_000);
    assert_eq!(meta.len(), 6);
    assert_eq!(meta[0].key, b"kind".to_vec());
    match &meta[0].value {
        MetaValue::Text(t) => assert_eq!(t, &b"conversation_observation".to_vec()),
        _ => panic!("kind should be text"),
    }
    match &meta[3].value {
        MetaValue::Int(v) => assert_eq!(*v, 4),
        _ => panic!("start index should be an integer"),
    }
    match &meta[5].value {
        MetaValue::Score(v) => assert_eq!(*v, 700_000),
        _ => panic!("importance should be a score"),
    }
}
