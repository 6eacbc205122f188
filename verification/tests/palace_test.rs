use steel_memory::clock::Timestamp;
use steel_memory::config::{dirs_or_manual_home, Config};
use steel_memory::error::MemPalaceError;
use steel_memory::layers::{format_wake_up, MemoryStack};
use steel_memory::palace_graph::{make_room_id, PalaceGraph};
use steel_memory::tools::{add_drawer, diary_drawer, diary_read, diary_wing, diary_write, drawer_for_add, AddDrawerParams};
use steel_memory::types::Drawer;
use steel_memory::vector::{importance_rank_of, StoredDrawer, VectorStorage};

fn drawer(id: &str, wing: &str, room: &str, importance: f64) -> Drawer {
    Drawer {
        id: id.to_string(),
        content: format!("content of {id}"),
        wing: wing.to_string(),
        room: room.to_string(),
        source_file: "mcp".to_string(),
        source_mtime: 0,
        chunk_index: 0,
        added_by: "mcp".to_string(),
        filed_at: "2024-01-01T00:00:00Z".to_string(),
        hall: String::new(),
        topic: String::new(),
        drawer_type: String::new(),
        agent: String::new(),
        date: String::new(),
        importance: importance.to_bits(),
    }
}

fn sample_storage() -> VectorStorage {
    let mut s = VectorStorage::new("/tmp/palace.sqlite3");
    s.add_drawer(drawer("d1", "work", "meetings", 2.0), "[0.1]".to_string());
    s.add_drawer(drawer("d2", "work", "meetings", 5.0), "[0.2]".to_string());
    s.add_drawer(drawer("d3", "work", "ideas", 3.0), "[0.3]".to_string());
    s.add_drawer(drawer("d4", "home", "meetings", 1.0), "[0.4]".to_string());
    s
}

fn now() -> Timestamp {
    Timestamp {
        rfc3339: "2024-02-03T04:05:06+00:00".to_string(),
        millis: 1706933106000,
        sql: "2024-02-03 04:05:06".to_string(),
        date: "2024-02-03".to_string(),
    }
}

#[test]
fn adding_a_drawer_with_an_existing_id_replaces_it() {
    let mut s = sample_storage();
    assert_eq!(s.count(), 4);
    s.add_drawer(drawer("d1", "home", "garden", 9.0), "[1.0]".to_string());
    assert_eq!(s.count(), 4);
    let last = &s.rows()[3];
    assert_eq!(last.drawer.id, "d1");
    assert_eq!(last.drawer.wing, "home");
    assert_eq!(last.vector, "[1.0]");
    assert_eq!(s.db_path(), "/tmp/palace.sqlite3");
}

#[test]
fn deleting_removes_only_that_id() {
    let mut s = sample_storage();
    assert_eq!(s.delete_drawer("d2"), 1);
    assert_eq!(s.delete_drawer("d2"), 0);
    assert_eq!(s.count(), 3);
    let ids: Vec<&str> = s.rows().iter().map(|r| r.drawer.id.as_str()).collect();
    assert_eq!(ids, vec!["d1", "d3", "d4"]);
}

#[test]
fn recall_is_most_important_first_within_place_and_limit() {
    let s = sample_storage();
    let all: Vec<String> = s.get_all(None, None, 10).into_iter().map(|d| d.id).collect();
    assert_eq!(all, vec!["d2", "d3", "d1", "d4"]);
    let work: Vec<String> = s.get_all(Some("work"), None, 2).into_iter().map(|d| d.id).collect();
    assert_eq!(work, vec!["d2", "d3"]);
    let meetings: Vec<String> = s.get_all(None, Some("meetings"), 10).into_iter().map(|d| d.id).collect();
    assert_eq!(meetings, vec!["d2", "d1", "d4"]);
    assert_eq!(s.get_all(Some("nowhere"), None, 10).len(), 0);
    assert_eq!(s.rows_in_place(Some("work"), Some("ideas")).len(), 1);
}

#[test]
fn importance_rank_orders_scores() {
    let ranks: Vec<u64> = [-2.0f64, -0.5, 0.0, 0.5, 3.0, 10.0].iter().map(|x| importance_rank_of(x.to_bits())).collect();
    for w in ranks.windows(2) {
        assert!(w[0] < w[1]);
    }
}

#[test]
fn wings_rooms_and_taxonomy_count_drawers() {
    let s = sample_storage();
    assert_eq!(s.list_wings(), vec![("work".to_string(), 3), ("home".to_string(), 1)]);
    assert_eq!(s.list_wings().iter().map(|(_, c)| c).sum::<usize>(), s.count());
    assert_eq!(
        s.list_rooms(None),
        vec![
            ("work".to_string(), "meetings".to_string(), 2),
            ("home".to_string(), "meetings".to_string(), 1),
            ("work".to_string(), "ideas".to_string(), 1),
        ]
    );
    assert_eq!(
        s.list_rooms(Some("work")),
        vec![("work".to_string(), "meetings".to_string(), 2), ("work".to_string(), "ideas".to_string(), 1)]
    );
    assert_eq!(
        s.get_taxonomy(),
        vec![
            ("home".to_string(), vec![("meetings".to_string(), 1)]),
            ("work".to_string(), vec![("ideas".to_string(), 1), ("meetings".to_string(), 2)]),
        ]
    );
}

#[test]
fn graph_nodes_are_ordered_by_wing_then_room_and_count_every_drawer() {
    let s = sample_storage();
    let g = PalaceGraph { db_path: "/tmp/palace.sqlite3".to_string() };
    let nodes = g.build_graph(&s);
    let ids: Vec<&str> = nodes.iter().map(|n| n.id.as_str()).collect();
    assert_eq!(ids, vec!["home/meetings", "work/ideas", "work/meetings"]);
    let total: usize = nodes.iter().map(|n| n.count).sum();
    assert_eq!(total, s.count());
    let stats = g.stats(&s);
    assert_eq!(stats.wings, 2);
    assert_eq!(stats.rooms, 2);
    assert_eq!(stats.nodes, 3);
    assert_eq!(stats.total_drawers, 4);
    assert_eq!(stats.tunnels, 1);
    assert_eq!(make_room_id("a", "b"), "a/b");
}

#[test]
fn traversal_walks_rooms_of_shared_wings() {
    let s = sample_storage();
    let g = PalaceGraph { db_path: String::new() };
    let none: Vec<String> = g.traverse_graph(&s, "ideas", 0).into_iter().map(|n| n.id).collect();
    assert_eq!(none, vec!["work/ideas"]);
    let one: Vec<String> = g.traverse_graph(&s, "ideas", 1).into_iter().map(|n| n.id).collect();
    assert_eq!(one, vec!["work/ideas", "work/meetings"]);
    let by_id: Vec<String> = g.traverse_graph(&s, "home/meetings", 3).into_iter().map(|n| n.id).collect();
    assert_eq!(by_id, vec!["home/meetings"]);
    assert_eq!(g.traverse_graph(&s, "attic", 2).len(), 0);
}

#[test]
fn tunnels_are_rooms_in_two_wings() {
    let s = sample_storage();
    let g = PalaceGraph { db_path: String::new() };
    let all: Vec<String> = g.find_tunnels(&s, None, None).into_iter().map(|n| n.id).collect();
    assert_eq!(all, vec!["home/meetings", "work/meetings"]);
    let both: Vec<String> = g.find_tunnels(&s, Some("work"), Some("home")).into_iter().map(|n| n.id).collect();
    assert_eq!(both, vec!["home/meetings", "work/meetings"]);
    let one: Vec<String> = g.find_tunnels(&s, Some("home"), None).into_iter().map(|n| n.id).collect();
    assert_eq!(one, vec!["home/meetings"]);
    assert_eq!(g.find_tunnels(&s, Some("work"), Some("attic")).len(), 0);
}

#[test]
fn added_drawer_is_stamped_and_defaulted() {
    let p = AddDrawerParams {
        wing: "w".to_string(),
        room: "r".to_string(),
        content: "hello".to_string(),
        topic: None,
        importance: None,
        agent: Some("bot".to_string()),
        hall: None,
        drawer_type: None,
        date: None,
    };
    let d = drawer_for_add(p, &now());
    assert_eq!(d.id, "drawer_w_r_1706933106000");
    assert_eq!(d.added_by, "bot");
    assert_eq!(d.agent, "bot");
    assert_eq!(d.filed_at, "2024-02-03T04:05:06+00:00");
    assert_eq!(f64::from_bits(d.importance), 3.0);
    assert_eq!(d.source_file, "mcp");

    let mut s = VectorStorage::new("x");
    let q = AddDrawerParams {
        wing: "w".to_string(),
        room: "r".to_string(),
        content: "hello".to_string(),
        topic: Some("t".to_string()),
        importance: Some(5.0f64.to_bits()),
        agent: None,
        hall: None,
        drawer_type: None,
        date: None,
    };
    let id = add_drawer(&mut s, q, "[]".to_string());
    assert!(id.starts_with("drawer_w_r_"));
    assert_eq!(s.count(), 1);
    assert_eq!(s.rows()[0].drawer.added_by, "mcp");
    assert_eq!(s.rows()[0].drawer.topic, "t");
}

#[test]
fn diary_entries_live_in_the_agents_wing() {
    assert_eq!(diary_wing("scribe"), "diary_scribe");
    let d = diary_drawer("scribe", "today I learned", None, &now());
    assert_eq!(d.id, "diary_scribe_1706933106000");
    assert_eq!(d.room, "entries");
    assert_eq!(d.drawer_type, "diary");
    assert_eq!(d.date, "2024-02-03");
    let mut s = VectorStorage::new("x");
    let id = diary_write(&mut s, "scribe", "entry one", Some("notes".to_string()), "[]".to_string());
    assert!(id.starts_with("diary_scribe_"));
    let stored = &s.rows()[0].drawer;
    assert!(stored.filed_at.starts_with(&format!("{}T", stored.date)));
    let read = diary_read(&s, "scribe", 10);
    assert_eq!(read.len(), 1);
    assert_eq!(read[0].content, "entry one");
    assert_eq!(diary_read(&s, "other", 10).len(), 0);
}

#[test]
fn memory_layers_are_formatted() {
    let stack = MemoryStack::new("/palace".to_string(), "/palace/palace.sqlite3".to_string());
    assert_eq!(stack.identity_path(), "/palace/identity.txt");
    assert_eq!(stack.layer0(None), "No identity file found.");
    assert_eq!(stack.layer0(Some("I am a helper.".to_string())), "I am a helper.");
    let empty = VectorStorage::new("x");
    assert_eq!(stack.layer1(&empty, None, 20), "(no memories yet)");
    assert_eq!(
        stack.wake_up(&empty, None, None),
        "=== LAYER 0: IDENTITY ===\nNo identity file found.\n\n=== LAYER 1: AAAK MEMORIES ===\n(no memories yet)"
    );
    assert_eq!(format_wake_up("a", "b"), "=== LAYER 0: IDENTITY ===\na\n\n=== LAYER 1: AAAK MEMORIES ===\nb");
    let s = sample_storage();
    let l1 = stack.layer1(&s, Some("home"), 5);
    assert_eq!(l1, "[d4] home|meetings|?|mcp\ncontent|???|\"content of d4\"||");
    let two = stack.layer1(&s, Some("work"), 2);
    assert_eq!(two.matches("\n---\n").count(), 1);
    assert!(two.starts_with("[d2] work|meetings|"));
    assert_eq!(stack.recall(&s, Some("work"), Some("meetings"), 5).len(), 2);
    assert!(stack.wake_up(&s, None, None).contains("[d2] work|meetings|"));
}

#[test]
fn config_paths_hang_under_the_home_directory() {
    let c = Config::from_home("/home/me", None);
    assert_eq!(c.palace_path, "/home/me/.steel-memory");
    assert_eq!(c.vector_db, "/home/me/.steel-memory/palace.sqlite3");
    assert_eq!(c.kg_db, "/home/me/.steel-memory/knowledge_graph.sqlite3");
    assert_eq!(c.identity_file, "/home/me/.steel-memory/identity.txt");
    assert_eq!(c.collection, "drawers");
    assert_eq!(Config::from_home("/", Some("c".to_string())).palace_path, "/.steel-memory");
    assert_eq!(Config::from_home("/", Some("c".to_string())).collection, "c");
    assert_eq!(dirs_or_manual_home(None), ".");
    assert_eq!(dirs_or_manual_home(Some("/root".to_string())), "/root");
    assert_eq!(MemPalaceError("boom".to_string()).message(), "boom");
}

#[test]
fn a_table_keeps_ids_unique() {
    let row = |id: &str| StoredDrawer { drawer: drawer(id, "w", "r", 1.0), vector: "[]".to_string() };
    assert!(VectorStorage::from_rows("x", vec![row("a"), row("a")]).is_none());
    let s = VectorStorage::from_rows("x", vec![row("a"), row("b")]).unwrap();
    assert_eq!(s.count(), 2);
    let mut s = s;
    s.add_drawer(drawer("c", "w", "r", 1.0), "[]".to_string());
    assert_eq!(s.count(), 3);
    s.add_drawer(drawer("a", "w", "r", 2.0), "[]".to_string());
    assert_eq!(s.count(), 3);
}

#[test]
fn traversal_reports_the_start_wing_in_room_order() {
    let mut s = sample_storage();
    s.add_drawer(drawer("d5", "work", "archive", 1.0), "[0.5]".to_string());
    let g = PalaceGraph { db_path: String::new() };
    let ids: Vec<String> = g.traverse_graph(&s, "work/meetings", 5).into_iter().map(|n| n.id).collect();
    assert_eq!(ids, vec!["work/meetings", "work/archive", "work/ideas"]);
    let start_only: Vec<String> = g.traverse_graph(&s, "meetings", 5).into_iter().map(|n| n.id).collect();
    assert_eq!(start_only, vec!["home/meetings"]);
}
