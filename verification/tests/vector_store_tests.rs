use femtobot::embedding_cache::EmbeddingCache;
use femtobot::score::{cosine_similarity, SCALE};
use femtobot::vector_store::{
    validate_namespace, MemoryError, MemoryItem, MetaEntry, MetaValue, VectorMemoryStore,
};

fn meta(importance: i64) -> Vec<MetaEntry> {
    vec![MetaEntry { key: b"importance".to_vec(), value: MetaValue::Score(importance) }]
}

fn emb(v: &[i64]) -> Vec<i64> {
    v.to_vec()
}

#[test]
fn cosine_similarity_is_one_for_identical_vectors() {
    let v = vec![200_000i64, 500_000, 900_000];
    let sim = cosine_similarity(&v, &v);
    assert_eq!(sim, SCALE);
}

#[test]
fn cosine_similarity_handles_dimension_mismatch() {
    let a = vec![100_000i64, 200_000, 300_000];
    let b = vec![100_000i64, 200_000];
    assert_eq!(cosine_similarity(&a, &b), 0);
}

#[test]
fn cosine_similarity_of_opposite_vectors_is_minus_one() {
    let a = vec![300_000i64, 400_000];
    let b = vec![-300_000i64, -400_000];
    assert_eq!(cosine_similarity(&a, &b), -SCALE);
}

#[test]
fn cosine_similarity_of_orthogonal_vectors_is_zero() {
    let a = vec![1_000_000i64, 0];
    let b = vec![0i64, 1_000_000];
    assert_eq!(cosine_similarity(&a, &b), 0);
}

#[test]
fn add_then_get_returns_what_was_written() {
    let mut store = VectorMemoryStore::new(100, b"default").unwrap();
    let item = store
        .add(b"likes strong coffee", meta(900_000), Some(b"session-1"), emb(&[1000, 2000]), 50)
        .unwrap();
    assert_eq!(item.content, b"likes strong coffee".to_vec());
    assert_eq!(item.priority, 900_000 * 4 / 10 + 300_000);
    assert_eq!(item.access_count, 0);
    let got = store.get(&item.id, Some(b"session-1")).unwrap().unwrap();
    assert_eq!(got.content, item.content);
    assert_eq!(got.priority, item.priority);
    assert_eq!(got.namespace, b"session-1".to_vec());
    match &got.metadata[0].value {
        MetaValue::Score(v) => assert_eq!(*v, 900_000),
        _ => panic!("importance lost"),
    }
}

#[test]
fn get_in_other_namespace_finds_nothing() {
    let mut store = VectorMemoryStore::new(100, b"default").unwrap();
    let item = store.add(b"scoped", meta(500_000), Some(b"ns-a"), emb(&[1, 2]), 5).unwrap();
    assert!(store.get(&item.id, Some(b"ns-b")).unwrap().is_none());
    assert!(store.get(&item.id, Some(b"ns-a")).unwrap().is_some());
}

#[test]
fn pruning_keeps_exactly_max_and_highest_priority_rows() {
    let mut store = VectorMemoryStore::new(3, b"ns").unwrap();
    let mut ids = Vec::new();
    for (i, imp) in [100_000i64, 900_000, 200_000, 800_000, 700_000].iter().enumerate() {
        let item = store
            .add(format!("item {i}").as_bytes(), meta(*imp), None, emb(&[1, 1]), i as i64)
            .unwrap();
        ids.push((item.id.clone(), *imp));
    }
    assert_eq!(store.count_namespace(b"ns"), 3);
    for (id, imp) in &ids {
        let present = store.get(id, None).unwrap().is_some();
        let expect = *imp >= 700_000;
        assert_eq!(present, expect, "importance {imp}");
    }
}

#[test]
fn add_rejects_empty_and_oversized_content() {
    let mut store = VectorMemoryStore::new(10, b"ns").unwrap();
    match store.add(b"   ", meta(0), None, emb(&[1]), 0) {
        Err(MemoryError::EmptyContent) => {},
        _ => panic!("expected empty-content rejection"),
    }
    let big = vec![b'a'; 8193];
    match store.add(&big, meta(0), None, emb(&[1]), 0) {
        Err(MemoryError::ContentTooLong) => {},
        _ => panic!("expected too-long rejection"),
    }
    match store.add(b"fine", meta(0), Some(b""), emb(&[1]), 0) {
        Err(MemoryError::InvalidNamespace) => {},
        _ => panic!("expected invalid-namespace rejection"),
    }
}

#[test]
fn error_messages_match() {
    assert_eq!(MemoryError::EmptyContent.message(), "content cannot be empty");
    assert_eq!(MemoryError::ContentTooLong.message(), "content exceeds maximum length");
    assert_eq!(MemoryError::InvalidNamespace.message(), "invalid namespace");
    assert_eq!(MemoryError::DuplicateId.message(), "duplicate memory id");
}

#[test]
fn namespace_sanitization_replaces_and_caps() {
    assert_eq!(validate_namespace(b"telegram:123").unwrap(), b"telegram_123".to_vec());
    assert_eq!(validate_namespace(b"ok_name-9").unwrap(), b"ok_name-9".to_vec());
    let long = vec![b'a'; 100];
    assert_eq!(validate_namespace(&long).unwrap().len(), 64);
    assert!(validate_namespace(b"").is_err());
    let a = validate_namespace(b"a!b?c").unwrap();
    let b = validate_namespace(b"a#b$c").unwrap();
    assert_eq!(a, b);
    assert_eq!(a, b"a_b_c".to_vec());
}

#[test]
fn search_ranks_by_priority_when_weight_is_one() {
    let mut store = VectorMemoryStore::new(100, b"sess").unwrap();
    let shared = emb(&[500_000, 500_000]);
    let hi = store.add(b"high importance", meta(900_000), None, shared.clone(), 1).unwrap();
    let mid = store.add(b"mid importance", meta(500_000), None, shared.clone(), 2).unwrap();
    let lo = store.add(b"low importance", meta(100_000), None, shared.clone(), 3).unwrap();
    let results = store.search(&shared, 5, 0, None, SCALE).unwrap();
    assert_eq!(results.len(), 3);
    assert_eq!(results[0].0.id, hi.id);
    assert_eq!(results[1].0.id, mid.id);
    assert_eq!(results[2].0.id, lo.id);
    assert!(results.iter().all(|(_, sim)| *sim == SCALE));
}

#[test]
fn search_filters_by_threshold_and_bumps_access() {
    let mut store = VectorMemoryStore::new(100, b"sess").unwrap();
    let kept = store.add(b"aligned", meta(500_000), None, emb(&[1000, 0]), 1).unwrap();
    let dropped = store.add(b"orthogonal", meta(500_000), None, emb(&[0, 1000]), 2).unwrap();
    let results = store.search(&emb(&[1000, 0]), 5, 500_000, None, 0).unwrap();
    assert_eq!(results.len(), 1);
    assert_eq!(results[0].0.id, kept.id);
    assert_eq!(results[0].1, SCALE);
    assert_eq!(results[0].0.access_count, 0);
    let bumped = store.get(&kept.id, None).unwrap().unwrap();
    assert_eq!(bumped.access_count, 1);
    let untouched = store.get(&dropped.id, None).unwrap().unwrap();
    assert_eq!(untouched.access_count, 0);
}

#[test]
fn search_respects_top_k() {
    let mut store = VectorMemoryStore::new(100, b"sess").unwrap();
    for i in 0..4 {
        store.add(format!("row {i}").as_bytes(), meta(500_000), None, emb(&[7, 9]), i).unwrap();
    }
    let results = store.search(&emb(&[7, 9]), 2, 0, None, 0).unwrap();
    assert_eq!(results.len(), 2);
}

#[test]
fn update_rewrites_content_and_priority() {
    let mut store = VectorMemoryStore::new(10, b"ns").unwrap();
    let item = store.add(b"old text", meta(500_000), None, emb(&[3, 4]), 0).unwrap();
    let updated = store
        .update(&item.id, b"new text", meta(1_000_000), None, Some(emb(&[5, 6])), 0)
        .unwrap()
        .unwrap();
    assert_eq!(updated.content, b"new text".to_vec());
    assert_eq!(updated.embedding, vec![5, 6]);
    // importance 1.0 * 0.4 + recency 1.0 * 0.3 + access 0 * 0.3
    assert_eq!(updated.priority, 400_000 + 300_000);
    assert_eq!(updated.created_at, item.created_at);
    let got = store.get(&item.id, None).unwrap().unwrap();
    assert_eq!(got.content, b"new text".to_vec());
}

#[test]
fn update_keeps_embedding_when_none_given() {
    let mut store = VectorMemoryStore::new(10, b"ns").unwrap();
    let item = store.add(b"text", meta(500_000), None, emb(&[3, 4]), 0).unwrap();
    let updated = store.update(&item.id, b"text two", meta(500_000), None, None, 0)
        .unwrap()
        .unwrap();
    assert_eq!(updated.embedding, vec![3, 4]);
}

#[test]
fn update_missing_row_returns_none() {
    let mut store = VectorMemoryStore::new(10, b"ns").unwrap();
    let r = store.update(b"no-such-id", b"text", meta(0), None, None, 0).unwrap();
    assert!(r.is_none());
}

#[test]
fn delete_removes_exactly_once() {
    let mut store = VectorMemoryStore::new(10, b"ns").unwrap();
    let item = store.add(b"to remove", meta(0), None, emb(&[1]), 0).unwrap();
    assert!(store.delete(&item.id, None).unwrap());
    assert!(!store.delete(&item.id, None).unwrap());
    assert!(store.get(&item.id, None).unwrap().is_none());
}

#[test]
fn fresh_ids_have_uuid_shape() {
    let mut store = VectorMemoryStore::new(10, b"ns").unwrap();
    let a = store.add(b"one", meta(0), None, emb(&[1]), 0).unwrap();
    let b = store.add(b"two", meta(0), None, emb(&[1]), 0).unwrap();
    assert_eq!(a.id.len(), 36);
    assert_eq!(b.id.len(), 36);
    assert_ne!(a.id, b.id);
}

#[test]
fn cache_size_never_exceeds_capacity_and_evicts_oldest_quarter() {
    let mut cache = EmbeddingCache::with_capacity(8);
    for i in 0..8 {
        cache.insert(format!("key-{i}").into_bytes(), vec![i as i64]);
    }
    assert_eq!(cache.entries.len(), 8);
    cache.insert(b"key-8".to_vec(), vec![8]);
    // a quarter (two entries) evicted, one inserted
    assert_eq!(cache.entries.len(), 7);
    assert!(cache.get(b"key-0").is_none());
    assert!(cache.get(b"key-1").is_none());
    for i in 2..9 {
        assert!(cache.get(format!("key-{i}").as_bytes()).is_some(), "key-{i} lost");
    }
}

#[test]
fn tiny_cache_clears_entirely_when_full() {
    let mut cache = EmbeddingCache::with_capacity(2);
    cache.insert(b"a".to_vec(), vec![1]);
    cache.insert(b"b".to_vec(), vec![2]);
    cache.insert(b"c".to_vec(), vec![3]);
    assert_eq!(cache.entries.len(), 1);
    assert!(cache.get(b"a").is_none());
    assert!(cache.get(b"b").is_none());
    assert_eq!(cache.get(b"c"), Some(&vec![3i64]));
}

#[test]
fn cache_insert_replaces_existing_key() {
    let mut cache = EmbeddingCache::new();
    cache.insert(b"text".to_vec(), vec![1, 2]);
    cache.insert(b"text".to_vec(), vec![3, 4]);
    assert_eq!(cache.entries.len(), 1);
    assert_eq!(cache.get(b"text"), Some(&vec![3i64, 4]));
}

#[test]
fn caller_chosen_ids_reject_duplicates() {
    let mut store = VectorMemoryStore::new(10, b"ns").unwrap();
    let (item, evicted) = store
        .add_with_id(b"fixed-id".to_vec(), b"first", meta(0), None, emb(&[1]), 0)
        .unwrap();
    assert_eq!(item.id, b"fixed-id".to_vec());
    assert!(evicted.is_empty());
    match store.add_with_id(b"fixed-id".to_vec(), b"second", meta(0), None, emb(&[1]), 1) {
        Err(MemoryError::DuplicateId) => {},
        _ => panic!("expected a duplicate-id rejection"),
    }
    // the same id is fine in another namespace
    assert!(store
        .add_with_id(b"fixed-id".to_vec(), b"second", meta(0), Some(b"other"), emb(&[1]), 1)
        .is_ok());
}

#[test]
fn sanitization_is_per_character_not_per_byte() {
    // a two-byte and a three-byte disallowed character each become one underscore
    let two_byte = validate_namespace("a\u{e9}".as_bytes()).unwrap();
    let three_byte = validate_namespace("a\u{20ac}".as_bytes()).unwrap();
    assert_eq!(two_byte, b"a_".to_vec());
    assert_eq!(three_byte, b"a_".to_vec());
    assert_eq!(two_byte, three_byte);
}

#[test]
fn importance_outside_the_unit_interval_blends_before_clamping() {
    let mut store = VectorMemoryStore::new(10, b"ns").unwrap();
    // importance 2.0: 2.0 * 0.4 + 0.3 = 1.1, clamped to 1.0
    let hot = store.add(b"hot", meta(2_000_000), None, emb(&[1]), 0).unwrap();
    assert_eq!(hot.priority, SCALE);
    // an integer-valued importance counts as a number too
    let int_meta = vec![MetaEntry { key: b"importance".to_vec(), value: MetaValue::Int(2) }];
    let hot2 = store.add(b"hot two", int_meta, None, emb(&[1]), 0).unwrap();
    assert_eq!(hot2.priority, SCALE);
    // importance -1.0: -0.4 + 0.3 = -0.1, clamped to 0
    let cold = store.add(b"cold", meta(-1_000_000), None, emb(&[1]), 0).unwrap();
    assert_eq!(cold.priority, 0);
}

#[test]
fn get_rejects_only_an_empty_namespace() {
    let store = VectorMemoryStore::new(10, b"ns").unwrap();
    match store.get(b"some-id", Some(b"")) {
        Err(MemoryError::InvalidNamespace) => {},
        _ => panic!("expected an invalid-namespace rejection"),
    }
}

#[test]
fn update_succeeds_on_every_valid_input_with_an_existing_row() {
    let mut store = VectorMemoryStore::new(10, b"ns").unwrap();
    let item = store.add(b"text", meta(500_000), None, emb(&[1]), 0).unwrap();
    let updated = store.update(&item.id, b"longer text", meta(500_000), None, None, 5).unwrap();
    assert!(updated.is_some());
}

#[test]
fn restore_keeps_persisted_ranking_state() {
    let mut store = VectorMemoryStore::new(10, b"ns").unwrap();
    let item = MemoryItem {
        id: b"persisted-id".to_vec(),
        content: b"persisted row".to_vec(),
        embedding: vec![2_000_000, -2_000_000, 5],
        metadata: meta(500_000),
        created_at: 100,
        updated_at: 200,
        access_count: 7,
        priority: 1_700_000,
        namespace: b"ns".to_vec(),
    };
    store.restore(item).unwrap();
    let got = store.get(b"persisted-id", None).unwrap().unwrap();
    assert_eq!(got.access_count, 7);
    assert_eq!(got.created_at, 100);
    assert_eq!(got.updated_at, 200);
    assert_eq!(got.priority, SCALE); // clamped into the unit interval
    assert_eq!(got.embedding, vec![1_000_000, -1_000_000, 5]); // components clamped
    // a second row under the same key is refused
    let dup = MemoryItem {
        id: b"persisted-id".to_vec(),
        content: b"other".to_vec(),
        embedding: vec![],
        metadata: vec![],
        created_at: 0,
        updated_at: 0,
        access_count: 0,
        priority: 0,
        namespace: b"ns".to_vec(),
    };
    match store.restore(dup) {
        Err(MemoryError::DuplicateId) => {},
        _ => panic!("expected a duplicate rejection"),
    }
}
