use steel_memory::dialect::{
    compress_to_aaak, detect_emotions, detect_flags, emotions_in, extract_entities,
    extract_key_sentence, flags_in,
};
use steel_memory::types::Drawer;

fn drawer(content: &str, topic: &str, date: &str) -> Drawer {
    Drawer {
        id: "test_id".to_string(),
        content: content.to_string(),
        wing: "project".to_string(),
        room: "architecture".to_string(),
        source_file: "mcp".to_string(),
        source_mtime: 0,
        chunk_index: 0,
        added_by: "agent".to_string(),
        filed_at: "2024-01-15T00:00:00Z".to_string(),
        hall: String::new(),
        topic: topic.to_string(),
        drawer_type: String::new(),
        agent: "test_agent".to_string(),
        date: date.to_string(),
        importance: 4.0f64.to_bits(),
    }
}

#[test]
fn aaak_of_a_drawer_is_exact() {
    let d = drawer(
        "We decided to switch to PostgreSQL because of performance issues.",
        "database",
        "2024-01-15",
    );
    assert_eq!(
        compress_to_aaak(&d),
        "project|architecture|2024-01-15|mcp\n\
         decided_switch_postgresql_because_performance|database|\
         \"We decided to switch to PostgreSQL because of performance issues\"|conc,resolve|DEC"
    );
}

#[test]
fn aaak_fills_missing_fields() {
    let d = drawer("ok", "", "");
    assert_eq!(compress_to_aaak(&d), "project|architecture|?|mcp\n???|???|\"ok\"||");
}

#[test]
fn emotions_follow_signal_order_on_lowercased_text() {
    assert_eq!(detect_emotions("I am WORRIED but Happy"), vec!["joy", "conc"]);
    assert_eq!(detect_emotions("nothing to see"), Vec::<&str>::new());
    assert_eq!(emotions_in("we chose it, unexpected"), vec!["surp", "resolve"]);
    // an already lowercased text is taken as it is
    assert_eq!(emotions_in("HAPPY"), Vec::<&str>::new());
}

#[test]
fn flags_follow_signal_order_on_lowercased_text() {
    assert_eq!(detect_flags("TODO: Fix the BUG, it is Urgent"), vec!["CRIT", "TODO", "BUG"]);
    assert_eq!(flags_in("milestone done; decision made"), vec!["MIL", "DEC"]);
    assert_eq!(flags_in("URGENT"), Vec::<&str>::new());
}

#[test]
fn entities_are_the_first_five_long_non_stop_words() {
    assert_eq!(
        extract_entities("the Quick brown fox jumps over lazy dogs and cats"),
        vec!["quick", "brown", "jumps", "lazy", "dogs"]
    );
    assert_eq!(extract_entities("Hello, World!"), vec!["hello", "world"]);
    assert_eq!(extract_entities("a an the fox"), Vec::<String>::new());
}

#[test]
fn entities_never_exceed_five() {
    let many = "alpha bravo charlie delta echoes foxtrot golfing hotel";
    assert_eq!(extract_entities(many).len(), 5);
}

#[test]
fn key_sentence_is_the_trimmed_first_sentence() {
    assert_eq!(extract_key_sentence("  First part. Second part."), "First part");
    assert_eq!(extract_key_sentence("no dot here "), "no dot here");
    assert_eq!(extract_key_sentence(""), "");
}

#[test]
fn long_key_sentence_is_cut_to_eighty_characters() {
    let long = "x".repeat(100);
    let cut = extract_key_sentence(&long);
    assert_eq!(cut, format!("{}...", "x".repeat(77)));
    assert_eq!(cut.chars().count(), 80);
    let exactly = "y".repeat(80);
    assert_eq!(extract_key_sentence(&exactly), exactly);
}

#[test]
fn key_sentence_counts_characters_not_bytes() {
    // 41 characters, 81 bytes: the sentence stays whole
    let accented = format!("a{}", "é".repeat(40));
    assert_eq!(extract_key_sentence(&format!("{accented}. more")), accented);
    // byte 77 falls inside a character: the cut is by characters all the same
    let awkward = format!("{}é{}", "a".repeat(76), "b".repeat(10));
    assert_eq!(extract_key_sentence(&awkward), format!("{}é...", "a".repeat(76)));
    let d = drawer(&awkward, "t", "d");
    assert!(compress_to_aaak(&d).contains(&format!("\"{}é...\"", "a".repeat(76))));
    let wide = "é".repeat(90);
    let cut = extract_key_sentence(&wide);
    assert_eq!(cut.chars().count(), 80);
    assert_eq!(cut, format!("{}...", "é".repeat(77)));
}

#[test]
fn unicode_whitespace_is_trimmed_and_splits_words() {
    let text = "\u{3000}\u{a0} key point \u{2029}. rest";
    assert_eq!(extract_key_sentence(text), "key point");
    assert_eq!(extract_key_sentence(text), text.split('.').next().unwrap().trim());
    assert_eq!(extract_entities("alpha\u{2003}bravo\u{85}charlie"), vec!["alpha", "bravo", "charlie"]);
    // U+200B is no whitespace: the words stay joined
    assert_eq!(extract_entities("alpha\u{200b}bravo"), vec!["alphabravo"]);
}
