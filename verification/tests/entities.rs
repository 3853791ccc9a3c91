use zeromem::entities::{extract_entities, is_stopword, select_entities, MAX_ENTITIES};

fn strings(list: &[&str]) -> Vec<String> {
    list.iter().map(|s| s.to_string()).collect()
}

#[test]
fn entity_extraction_is_unique_and_filters_common_words() {
    assert_eq!(
        extract_entities("OpenCode usa SQLite e OpenCode com memória"),
        vec!["opencode", "usa", "sqlite", "memória"]
    );
}

#[test]
fn entities_are_words_paths_and_identifiers() {
    assert_eq!(
        extract_entities("see src/main.rs:12 and _private in crate::memory, at 9abc or ab"),
        strings(&["see", "src/main.rs:12", "_private", "crate::memory"])
    );
}

#[test]
fn entities_have_three_characters_or_more() {
    assert_eq!(extract_entities("ab abc a-b x"), strings(&["abc", "a-b"]));
    assert!(extract_entities("").is_empty());
}

#[test]
fn entities_of_a_text_are_limited() {
    let words: Vec<String> = (0..40).map(|n| format!("word{n}")).collect();
    let found = extract_entities(&words.join(" "));
    assert_eq!(MAX_ENTITIES, 32);
    assert_eq!(found, words[..32].to_vec());
}

#[test]
fn repetitions_and_common_words_do_not_count_towards_the_limit() {
    let mut words: Vec<String> = Vec::new();
    for n in 0..32 {
        words.push(format!("word{n}"));
        words.push("the".to_string());
        words.push("word0".to_string());
    }
    words.push("word31".to_string());
    words.push("late".to_string());
    let found = select_entities(&words);
    assert_eq!(found.len(), 32);
    assert_eq!(found[31], "word31");
    assert!(!found.contains(&"the".to_string()));
}

#[test]
fn common_words_are_portuguese_and_english() {
    for word in ["the", "were", "uma", "não", "nao", "nas"] {
        assert!(is_stopword(word));
    }
    for word in ["The", "usa", "naos", "", "atlas"] {
        assert!(!is_stopword(word));
    }
}

#[test]
fn entities_of_entities_are_the_entities() {
    for text in ["The file src/main.rs:42. THE File x1", "OpenCode uses SQLite, x y zz", ""] {
        let found = extract_entities(text);
        assert_eq!(extract_entities(&found.join(" ")), found);
        assert_eq!(extract_entities(&text.to_ascii_uppercase()), found);
    }
    assert_eq!(
        extract_entities("The file src/main.rs:42. THE File x1"),
        strings(&["file", "src/main.rs:42"])
    );
}

#[test]
fn selecting_from_a_selection_changes_nothing() {
    let words: Vec<String> =
        (0..90).map(|n| if n % 3 == 0 { "the".to_string() } else { format!("w{}", n % 50) }).collect();
    let chosen = select_entities(&words);
    assert_eq!(chosen.len(), 32);
    assert_eq!(select_entities(&chosen), chosen);
}
