use zeromem::graph::EntityIndex;
use zeromem::lexical::{count_documents, count_string, lexical_counts};
use zeromem::turns::{load_turn, StoredTurn, Turn};
use zeromem::windows::{build_windows, spread_scores, EPISODE_GAP_SECONDS, WINDOW_SIZE};

fn turn(id: i64, session: &str, ts: i64, text: &str) -> Turn {
    let row = StoredTurn {
        id,
        session_id: session.to_string(),
        speaker: "user".to_string(),
        text: text.to_string(),
        ts,
        embedding: None,
    };
    load_turn(row, vec![])
}

fn strings(list: &[&str]) -> Vec<String> {
    list.iter().map(|s| s.to_string()).collect()
}

fn runs(turns: &Vec<Turn>) -> Vec<Vec<usize>> {
    build_windows(turns).into_iter().map(|w| w.turns).collect()
}

#[test]
fn loaded_turns_have_tokens_and_entities() {
    let loaded = turn(7, "s", 5, "The Atlas, the ATLAS x");
    assert_eq!(loaded.id, 7);
    assert_eq!(loaded.ts, 5);
    assert_eq!(loaded.tokens, strings(&["the", "atlas", "the", "atlas"]));
    assert_eq!(loaded.entities, strings(&["atlas"]));
}

#[test]
fn windows_hold_up_to_four_turns() {
    let turns: Vec<Turn> = (0..9).map(|n| turn(n, "s", n, "text")).collect();
    assert_eq!(WINDOW_SIZE, 4);
    assert_eq!(runs(&turns), vec![vec![0, 1, 2, 3], vec![4, 5, 6, 7], vec![8]]);
    assert!(runs(&vec![]).is_empty());
}

#[test]
fn windows_are_split_by_long_gaps_only() {
    let six_hours = 6 * 60 * 60;
    assert_eq!(EPISODE_GAP_SECONDS, six_hours);
    let turns = vec![
        turn(1, "s", 0, "text"),
        turn(2, "s", six_hours, "text"),
        turn(3, "s", 2 * six_hours + 1, "text"),
        turn(4, "s", 0, "text"),
    ];
    assert_eq!(runs(&turns), vec![vec![0, 1], vec![2, 3]]);
}

#[test]
fn windows_bear_the_longest_gap() {
    let turns = vec![turn(1, "s", i64::MIN, "text"), turn(2, "s", i64::MAX, "text")];
    assert_eq!(runs(&turns), vec![vec![0], vec![1]]);
}

#[test]
fn windows_keep_sessions_apart() {
    let turns = vec![
        turn(1, "b", 0, "text"),
        turn(2, "a", 0, "text"),
        turn(3, "b", 1, "text"),
        turn(4, "a", 1, "text"),
    ];
    let mut found = runs(&turns);
    found.sort();
    assert_eq!(found, vec![vec![0, 2], vec![1, 3]]);
}

#[test]
fn turns_have_the_score_of_their_window() {
    let turns: Vec<Turn> = (0..6)
        .map(|n| turn(n, if n % 2 == 0 { "even" } else { "odd" }, n, "text"))
        .collect();
    let windows = build_windows(&turns);
    assert_eq!(windows.len(), 2);
    assert_eq!(spread_scores(&windows, &vec![7, 9], 6), vec![7, 9, 7, 9, 7, 9]);
}

#[test]
fn entities_are_found_in_their_turns() {
    let turns = vec![
        turn(1, "s", 0, "Atlas uses SQLite"),
        turn(2, "s", 0, "nothing here"),
        turn(3, "s", 0, "SQLite again"),
    ];
    let index = EntityIndex::build(&turns);
    assert_eq!(index.len(), 6);
    assert_eq!(index.turns_with("sqlite"), vec![0, 2]);
    assert_eq!(index.turns_with("atlas"), vec![0]);
    assert!(index.turns_with("SQLite").is_empty());
}

fn shares(index: &EntityIndex, query: &[&str]) -> Vec<(usize, Vec<usize>)> {
    index.contributions(&strings(query)).into_iter().map(|c| (c.weight, c.turns)).collect()
}

#[test]
fn entities_contribute_directly_and_through_neighbours() {
    let turns = vec![
        turn(1, "s", 0, "atlas sqlite"),
        turn(2, "s", 0, "sqlite atlas"),
        turn(3, "s", 0, "sqlite rust"),
        turn(4, "s", 0, "alone"),
    ];
    let index = EntityIndex::build(&turns);
    assert_eq!(shares(&index, &["atlas"]), vec![(0, vec![0, 1]), (2, vec![0, 1, 2])]);
    assert_eq!(
        shares(&index, &["rust"]),
        vec![(0, vec![2]), (1, vec![0, 1, 2])]
    );
    let mut both = shares(&index, &["sqlite", "alone"]);
    both.sort();
    assert_eq!(
        both,
        vec![(0, vec![0, 1, 2]), (0, vec![3]), (1, vec![2]), (2, vec![0, 1])]
    );
    assert!(shares(&index, &["unknown"]).is_empty());
}

#[test]
fn edges_weigh_the_same_both_ways() {
    let turns = vec![turn(1, "s", 0, "left right"), turn(2, "s", 0, "right left other")];
    let index = EntityIndex::build(&turns);
    let weight = |from: &str, of: Vec<usize>| {
        shares(&index, &[from]).into_iter().filter(|s| s.1 == of && s.0 == 2).count()
    };
    assert_eq!(weight("left", vec![0, 1]), 1);
    assert_eq!(weight("right", vec![0, 1]), 1);
}

#[test]
fn tokens_are_counted_in_turns_and_over_them() {
    let turns = vec![
        turn(1, "s", 0, "banco banco atlas"),
        turn(2, "s", 0, "atlas"),
        turn(3, "s", 0, "outra coisa"),
    ];
    let counts = lexical_counts(&turns, &strings(&["atlas", "banco", "nada", "atlas"]));
    assert_eq!(counts.total_tokens, 6);
    assert_eq!(counts.documents, vec![2, 1, 0, 2]);
    assert_eq!(counts.lengths, vec![3, 1, 2]);
    assert_eq!(
        counts.frequencies,
        vec![vec![1, 2, 0, 1], vec![1, 0, 0, 1], vec![0, 0, 0, 0]]
    );
    assert_eq!(count_documents(&turns, "atlas"), 2);
    assert_eq!(count_string(&turns[0].tokens, "banco"), 2);
}

#[test]
fn windows_are_as_many_as_the_turns_need() {
    let turns: Vec<Turn> =
        (0..23).map(|n| turn(n, ["a", "b", "c"][(n % 3) as usize], n * n * 900, "text")).collect();
    let windows = runs(&turns).len();
    assert!(3 <= windows && windows <= turns.len() && turns.len() <= 4 * windows);
}
