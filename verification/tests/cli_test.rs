use steel_memory::benchmark::{
    correct_doc_ids, dedupe_preserving_order, evaluate_retrieval, has_target_user_turn, is_abstention,
    is_evaluated, metric_cutoffs, metric_groups, metric_names, next_value, number_error_text,
    parse_cli_args, parse_granularity, parse_usize, strip_turn_id, zip_count, CorpusItem,
    LongMemEvalEntry, LongMemEvalGranularity, LongMemEvalTurn, NumberError,
};

fn args(v: &[&str]) -> Vec<String> {
    v.iter().map(|s| s.to_string()).collect()
}

fn err_of(v: &[&str]) -> String {
    match parse_cli_args(args(v)) {
        Err(e) => e.message(),
        Ok(_) => panic!("expected an error"),
    }
}

#[test]
fn granularity_names_round_trip() {
    assert_eq!(LongMemEvalGranularity::Session.as_str(), "session");
    assert_eq!(LongMemEvalGranularity::Turn.as_str(), "turn");
    assert_eq!(parse_granularity("turn").ok(), Some(LongMemEvalGranularity::Turn));
    assert_eq!(parse_granularity("session").ok(), Some(LongMemEvalGranularity::Session));
    assert_eq!(parse_granularity("Session").err().unwrap().message(), "unsupported granularity: Session");
    let parsed: LongMemEvalGranularity = "turn".parse().ok().unwrap();
    assert_eq!(parsed, LongMemEvalGranularity::Turn);
}

#[test]
fn numbers_parse_as_std_does() {
    assert_eq!(parse_usize("42"), Ok(42));
    assert_eq!(parse_usize("+7"), Ok(7));
    assert_eq!(parse_usize("007"), Ok(7));
    assert_eq!(parse_usize(""), Err(NumberError::Empty));
    assert_eq!(parse_usize("+"), Err(NumberError::InvalidDigit));
    assert_eq!(parse_usize("-1"), Err(NumberError::InvalidDigit));
    assert_eq!(parse_usize("1x"), Err(NumberError::InvalidDigit));
    assert_eq!(parse_usize("99999999999999999999999"), Err(NumberError::PosOverflow));
    for s in ["", "+", "-3", "12a", "99999999999999999999999", "18"] {
        let ours = parse_usize(s).map_err(number_error_text);
        let std = s.parse::<usize>().map_err(|e| e.to_string());
        assert_eq!(ours.map_err(|m| m.to_string()), std);
    }
}

#[test]
fn command_line_is_read_into_options() {
    assert!(matches!(parse_cli_args(args(&[])), Ok(None)));
    assert!(matches!(parse_cli_args(args(&["--data", "x", "-h"])), Ok(None)));
    let o = parse_cli_args(args(&[
        "--bench", "--data", "d.json", "--granularity", "turn", "--max-questions", "5", "--output", "out.jsonl",
    ]))
    .ok()
    .unwrap()
    .unwrap();
    assert_eq!(o.data_path, "d.json");
    assert_eq!(o.benchmark_options.granularity, LongMemEvalGranularity::Turn);
    assert_eq!(o.benchmark_options.max_questions, Some(5));
    assert_eq!(o.benchmark_options.output_path.as_deref(), Some("out.jsonl"));
    let d = parse_cli_args(args(&["--data", "d.json"])).ok().unwrap().unwrap();
    assert_eq!(d.benchmark_options.granularity, LongMemEvalGranularity::Session);
    assert_eq!(d.benchmark_options.max_questions, None);
    assert_eq!(d.benchmark_options.output_path, None);
}

#[test]
fn command_line_errors_name_the_bad_argument() {
    assert_eq!(err_of(&["--granularity", "turn"]), "--data is required");
    assert_eq!(err_of(&["--data"]), "missing value for --data");
    assert_eq!(err_of(&["--data", "x", "--verbose"]), "unknown argument: --verbose");
    assert_eq!(err_of(&["--data", "x", "--granularity", "word"]), "unsupported granularity: word");
    assert_eq!(err_of(&["--data", "x", "--max-questions", "many"]), "invalid digit found in string");
    assert_eq!(next_value(&args(&["--output"]), 0, "--output").err().unwrap().message(), "missing value for --output");
    assert_eq!(next_value(&args(&["--output", "o"]), 0, "--output").ok().unwrap(), "o");
}

#[test]
fn turn_ids_map_to_their_sessions() {
    assert_eq!(strip_turn_id("sess_answer_2"), "sess_answer");
    assert_eq!(strip_turn_id("sess_1_10"), "sess_1");
    assert_eq!(strip_turn_id("sess_answer"), "sess_answer");
    assert_eq!(strip_turn_id("plain"), "plain");
    assert_eq!(strip_turn_id("_3"), "_3");
    assert_eq!(strip_turn_id("sess_"), "sess_");
}

#[test]
fn dedupe_keeps_first_occurrences() {
    assert_eq!(dedupe_preserving_order(args(&["b", "a", "b", "c", "a"])), args(&["b", "a", "c"]));
    assert_eq!(dedupe_preserving_order(Vec::new()), Vec::<String>::new());
}

#[test]
fn retrieval_hits_at_cutoff() {
    let ranked = args(&["d1", "d2", "d3", "d4"]);
    let hits = evaluate_retrieval(&ranked, &args(&["d2", "d4"]), 2);
    assert!(hits.recall_any);
    assert!(!hits.recall_all);
    assert_eq!(hits.relevances, vec![false, true]);
    assert_eq!(hits.ideal_hits, 2);
    let all = evaluate_retrieval(&ranked, &args(&["d2", "d4"]), 10);
    assert!(all.recall_all && all.recall_any);
    assert_eq!(all.relevances.len(), 4);
    let none = evaluate_retrieval(&ranked, &Vec::new(), 3);
    assert!(!none.recall_any && !none.recall_all);
    assert_eq!(none.ideal_hits, 0);
    let dup = evaluate_retrieval(&ranked, &args(&["d1", "d1"]), 5);
    assert_eq!(dup.ideal_hits, 1);
}

fn turn(role: &str, content: &str, has_answer: Option<bool>) -> LongMemEvalTurn {
    LongMemEvalTurn { role: role.to_string(), content: content.to_string(), has_answer }
}

#[test]
fn questions_are_judged_by_abstention_and_target() {
    assert!(is_abstention("q7_abs"));
    assert!(!is_abstention("q7"));
    assert!(is_evaluated(false, true));
    assert!(!is_evaluated(true, true));
    assert!(!is_evaluated(false, false));
    let mut e = LongMemEvalEntry {
        question_id: "q".to_string(),
        question_type: "t".to_string(),
        question: "?".to_string(),
        answer: "!".to_string(),
        question_date: "2024".to_string(),
        haystack_session_ids: args(&["s1", "s2", "s3"]),
        haystack_dates: args(&["d1", "d2"]),
        haystack_sessions: vec![
            vec![turn("assistant", "x", Some(true))],
            vec![turn("user", "y", Some(false))],
        ],
        answer_session_ids: args(&["s1"]),
    };
    assert_eq!(zip_count(&e), 2);
    assert!(!has_target_user_turn(&e));
    e.haystack_sessions[1][0].has_answer = Some(true);
    assert!(has_target_user_turn(&e));
}

#[test]
fn correct_ids_are_the_answer_items() {
    let items = vec![
        CorpusItem { id: "s_answer_1".to_string(), text: String::new(), timestamp: String::new(), chunk_index: 0 },
        CorpusItem { id: "s_noans_2".to_string(), text: String::new(), timestamp: String::new(), chunk_index: 1 },
    ];
    assert_eq!(correct_doc_ids(&items), args(&["s_answer_1"]));
}

#[test]
fn metrics_are_named_per_cutoff() {
    assert_eq!(metric_cutoffs(), vec![1, 3, 5, 10, 30, 50]);
    let names = metric_names();
    assert_eq!(names.len(), 18);
    assert_eq!(names[0], "recall_any@1");
    assert_eq!(names[17], "ndcg_any@50");
    assert_eq!(metric_groups(LongMemEvalGranularity::Session), args(&["session"]));
    assert_eq!(metric_groups(LongMemEvalGranularity::Turn), args(&["turn", "session"]));
}
