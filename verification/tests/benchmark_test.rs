use steel_memory::benchmark::{
    build_corpus_items, evaluate_retrieval_turn_to_session, tally_questions, LongMemEvalEntry,
    LongMemEvalGranularity, LongMemEvalTurn,
};

fn turn(role: &str, content: &str, has_answer: Option<bool>) -> LongMemEvalTurn {
    LongMemEvalTurn { role: role.to_string(), content: content.to_string(), has_answer }
}

fn sample_entry() -> LongMemEvalEntry {
    LongMemEvalEntry {
        question_id: "q1".to_string(),
        question_type: "single-session-user".to_string(),
        question: "What dessert do I like?".to_string(),
        answer: "tiramisu".to_string(),
        question_date: "2024-01-10".to_string(),
        haystack_session_ids: vec!["sess_1".to_string(), "sess_answer".to_string()],
        haystack_dates: vec!["2024-01-01".to_string(), "2024-01-03".to_string()],
        haystack_sessions: vec![
            vec![
                turn("user", "I went hiking yesterday.", None),
                turn("assistant", "That sounds fun.", None),
            ],
            vec![
                turn("user", "I do not like cheesecake.", Some(false)),
                turn("user", "My favorite dessert is tiramisu.", Some(true)),
            ],
        ],
        answer_session_ids: vec!["sess_answer".to_string()],
    }
}

#[test]
fn builds_session_corpus_items() {
    let items = build_corpus_items(&sample_entry(), LongMemEvalGranularity::Session);
    assert_eq!(items.len(), 2);
    assert_eq!(items[0].id, "sess_1");
    assert_eq!(items[1].id, "sess_answer");
    assert!(items[1].text.contains("tiramisu"));
}

#[test]
fn builds_turn_corpus_items_and_renames_non_answers() {
    let items = build_corpus_items(&sample_entry(), LongMemEvalGranularity::Turn);
    assert_eq!(items.len(), 3);
    assert_eq!(items[0].id, "sess_1_1");
    assert_eq!(items[1].id, "sess_noans_1");
    assert_eq!(items[2].id, "sess_answer_2");
}

fn dcg(relevances: &[f64]) -> f64 {
    relevances
        .iter()
        .enumerate()
        .map(|(index, relevance)| if index == 0 { *relevance } else { *relevance / ((index + 1) as f64).log2() })
        .sum()
}

#[test]
fn turn_level_metrics_can_be_projected_to_session_level() {
    let ranked_ids = vec![
        "sess_answer_2".to_string(),
        "sess_answer_1".to_string(),
        "sess_1_1".to_string(),
    ];
    let correct_docs = vec!["sess_answer_2".to_string()];
    let hits = evaluate_retrieval_turn_to_session(&ranked_ids, &correct_docs, 1);
    let recall_any = if hits.recall_any { 1.0 } else { 0.0 };
    let recall_all = if hits.recall_all { 1.0 } else { 0.0 };
    let actual: Vec<f64> = hits.relevances.iter().map(|&r| if r { 1.0 } else { 0.0 }).collect();
    let ideal: Vec<f64> = (0..1).map(|i| if i < hits.ideal_hits { 1.0 } else { 0.0 }).collect();
    let ndcg_any = dcg(&actual) / dcg(&ideal);
    assert_eq!(recall_any, 1.0);
    assert_eq!(recall_all, 1.0);
    assert!(ndcg_any > 0.99);
}

#[test]
fn aggregate_results_skips_abstention_and_missing_targets() {
    // (is_abstention, has_target_user_turn) of q1, q_abs and q_no_target
    let flags = vec![(false, true), (true, true), (false, false)];
    let summary = tally_questions(&flags);
    assert_eq!(summary.total, 3);
    assert_eq!(summary.evaluated, 1);
    assert_eq!(summary.skipped_abstention, 1);
    assert_eq!(summary.skipped_no_target, 1);
}
