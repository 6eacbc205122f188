use steel_memory::config_default_with_base;
use steel_memory::dialect::compress_to_aaak;
use steel_memory::knowledge_graph::normalize_id;
use steel_memory::types::Drawer;

#[test]
fn test_config_paths() {
    let config = config_default_with_base("/tmp/test-palace".to_string());
    assert!(config.vector_db.contains("palace.sqlite3"));
    assert!(config.kg_db.contains("knowledge_graph.sqlite3"));
}

#[test]
fn test_normalize_entity_id() {
    assert_eq!(normalize_id("Hello World"), "hello_world");
    assert_eq!(normalize_id("foo--bar"), "foo_bar");
    assert_eq!(normalize_id("  spaces  "), "spaces");
    assert_eq!(normalize_id("CamelCase"), "camelcase");
}

#[test]
fn test_aaak_compression() {
    let drawer = Drawer {
        id: "test_id".to_string(),
        content: "We decided to switch to PostgreSQL because of performance issues.".to_string(),
        wing: "project".to_string(),
        room: "architecture".to_string(),
        source_file: "mcp".to_string(),
        source_mtime: 0,
        chunk_index: 0,
        added_by: "agent".to_string(),
        filed_at: "2024-01-15T00:00:00Z".to_string(),
        hall: String::new(),
        topic: "database".to_string(),
        drawer_type: String::new(),
        agent: "test_agent".to_string(),
        date: "2024-01-15".to_string(),
        importance: 4.0f64.to_bits(),
    };
    let aaak = compress_to_aaak(&drawer);
    assert!(aaak.contains("project|architecture"));
    assert!(aaak.contains("database"));
    // "decided" triggers resolve emotion, "issues" triggers conc
    assert!(aaak.contains("resolve") || aaak.contains("conc") || aaak.contains("DEC"));
}
