use steel_memory::clock::Timestamp;
use steel_memory::knowledge_graph::{normalize_id, normalize_lowered, KnowledgeGraph};
use steel_memory::tools::kg_timeline;

fn at(millis: i64, rfc: &str, sql: &str) -> Timestamp {
    Timestamp {
        rfc3339: rfc.to_string(),
        millis,
        sql: sql.to_string(),
        date: rfc[..10].to_string(),
    }
}

#[test]
fn normalizing_twice_changes_nothing() {
    for s in ["--a--b--", "hello world", "x", "", "___", "a1 b2  c3"] {
        let once = normalize_lowered(s);
        assert_eq!(normalize_lowered(&once), once);
    }
    assert_eq!(normalize_lowered("--a--b--"), "a_b");
    assert_eq!(normalize_lowered("ÄB c"), "B_c");
    assert_eq!(normalize_id("ÄB c"), "b_c");
    assert_eq!(normalize_id("Bob's   Car!"), "bob_s_car");
}

#[test]
fn ids_are_clean_and_normalize_to_themselves() {
    for s in ["Hello World", "  __Mixed--Case__ ", "Ünïcödé Straße 42", "", "!!!", "a_b_c"] {
        let id = normalize_id(s);
        assert!(id.chars().all(|c| c.is_ascii_lowercase() || c.is_ascii_digit() || c == '_'));
        assert!(!id.starts_with('_') && !id.ends_with('_') && !id.contains("__"));
        assert_eq!(normalize_id(&id), id);
    }
    assert_eq!(normalize_id("Ünïcödé Straße 42"), "n_c_d_stra_e_42");
}

#[test]
fn added_triple_has_stamped_id_and_entities() {
    let mut kg = KnowledgeGraph::new("/tmp/kg.sqlite3");
    let now = at(1700000000000, "2023-11-14T22:13:20+00:00", "2023-11-14 22:13:20");
    let id = kg.add_triple_at("Alice Smith", "knows", "Bob", 1.0f64.to_bits(), Some("closet"), None, &now);
    assert_eq!(id, "triple_alice_smith_knows_bob_1700000000000");
    let ents = kg.entities();
    assert_eq!(ents.len(), 2);
    assert_eq!(ents[0].id, "alice_smith");
    assert_eq!(ents[0].name, "Alice Smith");
    assert_eq!(ents[0].entity_type, "unknown");
    assert_eq!(ents[0].properties, "{}");
    assert_eq!(ents[0].created_at, "2023-11-14 22:13:20");
    assert_eq!(ents[1].id, "bob");
    let t = &kg.triples()[0];
    assert_eq!(t.subject, "alice_smith");
    assert_eq!(t.predicate, "knows");
    assert_eq!(t.object, "bob");
    assert_eq!(t.valid_from.as_deref(), Some("2023-11-14T22:13:20+00:00"));
    assert_eq!(t.valid_to, None);
    assert_eq!(t.source_closet.as_deref(), Some("closet"));
    assert_eq!(t.source_file, None);
    assert_eq!(kg.db_path(), "/tmp/kg.sqlite3");
}

#[test]
fn adding_the_same_triple_at_the_same_time_replaces_it() {
    let mut kg = KnowledgeGraph::new("kg");
    let now = at(5, "2024-01-01T00:00:00+00:00", "2024-01-01 00:00:00");
    kg.add_triple_at("a", "p", "b", 0, None, None, &now);
    kg.add_triple_at("a", "p", "b", 7, None, None, &now);
    assert_eq!(kg.triples().len(), 1);
    assert_eq!(kg.triples()[0].confidence, 7);
    assert_eq!(kg.entities().len(), 2);
}

#[test]
fn upserting_an_entity_twice_keeps_the_first() {
    let mut kg = KnowledgeGraph::new("kg");
    kg.upsert_entity("bob", "Bob", "t1");
    kg.upsert_entity("bob", "Robert", "t2");
    assert_eq!(kg.entities().len(), 1);
    assert_eq!(kg.entities()[0].name, "Bob");
    assert_eq!(kg.entities()[0].created_at, "t1");
}

#[test]
fn invalidated_triple_leaves_queries_but_stays_in_timeline() {
    let mut kg = KnowledgeGraph::new("kg");
    let t1 = at(1, "2024-01-01T00:00:00+00:00", "2024-01-01 00:00:00");
    let t2 = at(2, "2024-01-02T00:00:00+00:00", "2024-01-02 00:00:00");
    kg.add_triple_at("Alice", "works at", "Acme", 0, None, None, &t1);
    kg.add_triple_at("Bob", "knows", "Alice", 0, None, None, &t2);
    assert_eq!(kg.query_entity("alice", "outgoing").len(), 1);
    assert_eq!(kg.query_entity("alice", "incoming").len(), 1);
    let both = kg.query_entity("ALICE", "both");
    assert_eq!(both.len(), 2);
    assert_eq!(both[0].subject, "bob");
    assert_eq!(both[1].subject, "alice");

    let later = at(3, "2024-01-03T00:00:00+00:00", "2024-01-03 00:00:00");
    assert_eq!(kg.invalidate_triple_at("Alice", "works at", "ACME", &later), 1);
    assert_eq!(kg.invalidate_triple_at("Alice", "works at", "ACME", &later), 0);
    assert_eq!(kg.query_entity("alice", "outgoing").len(), 0);
    let timeline = kg.timeline("Alice", 10);
    assert_eq!(timeline.len(), 2);
    assert_eq!(timeline[0].subject, "alice");
    assert_eq!(timeline[0].valid_to.as_deref(), Some("2024-01-03T00:00:00+00:00"));
    assert_eq!(timeline[1].subject, "bob");
    let newest = kg.timeline("Alice", 1);
    assert_eq!(newest.len(), 1);
    assert_eq!(newest[0].subject, "bob");

    let stats = kg.stats();
    assert_eq!(stats.entities, 3);
    assert_eq!(stats.triples, 2);
    assert_eq!(stats.valid_triples, 1);
}

#[test]
fn all_triples_come_newest_first_and_timelines_in_order() {
    let mut kg = KnowledgeGraph::new("kg");
    kg.add_triple_at("a", "p", "b", 0, None, None, &at(1, "2024-01-01T00:00:00+00:00", "2024-01-01 00:00:01"));
    kg.add_triple_at("c", "p", "d", 0, None, None, &at(2, "2024-01-02T00:00:00+00:00", "2024-01-01 00:00:02"));
    let all = kg.all_triples(10);
    assert_eq!(all[0].subject, "c");
    assert_eq!(all[1].subject, "a");
    let last = kg_timeline(&kg, None, 1);
    assert_eq!(last.len(), 1);
    assert_eq!(last[0].subject, "c");
    let whole = kg_timeline(&kg, Some(""), 10);
    assert_eq!(whole.len(), 2);
    assert_eq!(whole[0].subject, "a");
    assert_eq!(whole[1].subject, "c");
    assert_eq!(kg_timeline(&kg, Some("B"), 10).len(), 1);
    let ents = kg.list_entities(10);
    assert_eq!(ents.len(), 4);
    assert_eq!(ents[0].id, "c");
    assert_eq!(kg.list_entities(1).len(), 1);
}

#[test]
fn live_triple_added_now_can_be_found() {
    let mut kg = KnowledgeGraph::new("kg");
    let id = kg.add_triple("Carol", "likes", "Tea", 0, None, None);
    assert!(id.starts_with("triple_carol_likes_tea_"));
    assert_eq!(kg.query_entity("carol", "outgoing").len(), 1);
    assert_eq!(kg.invalidate_triple("Carol", "likes", "Tea"), 1);
    assert_eq!(kg.query_entity("carol", "outgoing").len(), 0);
}
