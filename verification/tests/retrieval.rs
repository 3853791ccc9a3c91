use zeromem::retrieval::{choose_route, default_top_k, rank_turns, select_evidence, Route, Scores};
use zeromem::turns::{load_turn, StoredTurn, Turn};

fn turn(id: i64, session: &str, ts: i64) -> Turn {
    let row = StoredTurn {
        id,
        session_id: session.to_string(),
        speaker: "user".to_string(),
        text: format!("text {id}"),
        ts,
        embedding: None,
    };
    load_turn(row, vec![])
}

fn bits(values: &[f32]) -> Vec<u32> {
    values.iter().map(|v| v.to_bits()).collect()
}

/// Scores of turns that all share a token with the query.
fn lexical(combined: &[f32]) -> Scores {
    let n = combined.len();
    Scores {
        dense: bits(&vec![0.0; n]),
        lexical: bits(&vec![1.0; n]),
        graph: bits(&vec![0.0; n]),
        combined: bits(combined),
    }
}

#[test]
fn five_results_are_given_by_default() {
    assert_eq!(default_top_k(), 5);
}

#[test]
fn routes_follow_the_query() {
    assert!(matches!(choose_route(true, 5), Route::Temporal));
    assert!(matches!(choose_route(true, 0), Route::Temporal));
    assert!(matches!(choose_route(false, 2), Route::Entity));
    assert!(matches!(choose_route(false, 1), Route::Balanced));
    assert!(matches!(choose_route(false, 0), Route::Balanced));
}

#[test]
fn routes_have_names_and_weights() {
    let all = [
        (Route::Balanced, "balanced", [40, 30, 20, 10]),
        (Route::Entity, "entity", [30, 20, 35, 15]),
        (Route::Temporal, "temporal", [25, 20, 15, 40]),
    ];
    for (route, name, weights) in all {
        assert_eq!(route.name(), name);
        let w = route.weights();
        assert_eq!([w.dense, w.lexical, w.graph, w.temporal], weights);
        assert_eq!(weights.iter().sum::<u32>(), 100);
    }
}

#[test]
fn hundredths_are_the_numbers_that_they_stand_for() {
    let pairs = [(10, 0.10), (15, 0.15), (20, 0.20), (25, 0.25), (30, 0.30), (35, 0.35), (40, 0.40)];
    for (hundredths, value) in pairs {
        assert_eq!(hundredths as f32 / 100.0, value);
    }
}

#[test]
fn higher_scores_come_first() {
    let turns = vec![turn(1, "a", 9), turn(2, "a", 8), turn(3, "a", 7)];
    assert_eq!(rank_turns(&turns, &lexical(&[0.1, 0.9, 0.5]), None, 5), vec![1, 2, 0]);
}

#[test]
fn newer_turns_break_ties_and_then_older_rows() {
    let turns = vec![turn(4, "a", 1), turn(3, "a", 5), turn(2, "a", 5), turn(1, "a", 1)];
    assert_eq!(rank_turns(&turns, &lexical(&[0.5; 4]), None, 5), vec![2, 1, 3, 0]);
    // A newer turn does not win over a more relevant one.
    assert_eq!(rank_turns(&turns, &lexical(&[0.6, 0.5, 0.5, 0.5]), None, 1), vec![0]);
}

#[test]
fn negative_zero_scores_come_after_zero() {
    let turns = vec![turn(1, "a", 9), turn(2, "a", 0)];
    assert_eq!(rank_turns(&turns, &lexical(&[-0.0, 0.0]), None, 5), vec![1, 0]);
    assert_eq!(rank_turns(&turns, &lexical(&[-1.0, -0.5]), None, 5), vec![1, 0]);
}

#[test]
fn answers_are_bounded_and_smaller_ones_start_larger_ones() {
    let turns: Vec<Turn> = (0..8).map(|n| turn(n, "a", n)).collect();
    let scores = lexical(&[0.3, 0.7, 0.1, 0.7, 0.9, 0.2, 0.5, 0.5]);
    let all = rank_turns(&turns, &scores, None, 100);
    assert_eq!(all, vec![4, 3, 1, 7, 6, 0, 5, 2]);
    for k in 0..=8 {
        assert_eq!(rank_turns(&turns, &scores, None, k), all[..k].to_vec());
    }
}

#[test]
fn excluded_sessions_are_left_out() {
    let turns = vec![turn(1, "now", 0), turn(2, "old", 0), turn(3, "now", 0)];
    let scores = lexical(&[0.9, 0.1, 0.8]);
    assert_eq!(rank_turns(&turns, &scores, Some("now"), 5), vec![1]);
    assert_eq!(rank_turns(&turns, &scores, Some("other"), 5), vec![0, 2, 1]);
}

#[test]
fn turns_need_similarity_a_token_or_a_relation() {
    let turns: Vec<Turn> = (0..7).map(|n| turn(n, "a", 0)).collect();
    let scores = Scores {
        dense: bits(&[0.35, 0.349_999_9, 0.0, 0.0, -0.9, f32::NAN, 0.0]),
        lexical: bits(&[0.0, 0.0, 0.01, 0.0, -1.0, 0.0, -0.0]),
        graph: bits(&[0.0, 0.0, 0.0, 0.35, 0.0, 0.0, 0.0]),
        combined: bits(&[1.0; 7]),
    };
    assert_eq!(rank_turns(&turns, &scores, None, 10), vec![0, 2, 3]);
}

#[test]
fn evidence_shows_turns_with_their_scores() {
    let turns = vec![turn(11, "a", 3), turn(12, "b", 4)];
    let evidence = select_evidence(&turns, &lexical(&[0.25, 0.75]), None, 1);
    assert_eq!(evidence.len(), 1);
    assert_eq!(evidence[0].turn_id, 12);
    assert_eq!(evidence[0].session_id, "b");
    assert_eq!(evidence[0].speaker, "user");
    assert_eq!(evidence[0].text, "text 12");
    assert_eq!(evidence[0].ts, 4);
    assert_eq!(f32::from_bits(evidence[0].score), 0.75);
}
