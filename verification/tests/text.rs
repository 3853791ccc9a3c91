use zeromem::text::{
    characters, contains_text, is_blank, is_temporal_query, is_whitespace, same_text, split_words,
    tokenize,
};

fn strings(list: &[&str]) -> Vec<String> {
    list.iter().map(|s| s.to_string()).collect()
}

#[test]
fn tokens_are_lower_case_words_of_two_characters_or_more() {
    assert_eq!(
        tokenize("O banco PostgreSQL, v2: src/Main_File.rs!"),
        strings(&["banco", "postgresql", "v2", "src/main_file", "rs"])
    );
}

#[test]
fn tokens_keep_letters_of_any_alphabet() {
    assert_eq!(tokenize("Memória ÉTICA ١٢ 東京"), strings(&["memória", "ética", "١٢", "東京"]));
}

#[test]
fn tokens_are_measured_before_they_are_lowered() {
    // One character, which becomes two in lower case, is still no token.
    assert_eq!("İ".to_lowercase().chars().count(), 2);
    assert_eq!(tokenize("İ İx"), strings(&["i\u{307}x"]));
}

#[test]
fn tokens_of_nothing_are_none() {
    assert!(tokenize("").is_empty());
    assert!(tokenize("a b c . , !").is_empty());
}

#[test]
fn words_are_cut_where_characters_are_not_kept() {
    let text = characters("ab-c-de");
    let kept: Vec<bool> = text.iter().map(|c| *c != '-').collect();
    assert_eq!(split_words(&text, &kept), strings(&["ab", "de"]));
}

#[test]
fn blank_texts_are_those_of_which_trimming_leaves_nothing() {
    for text in ["", " ", "\t\r\n", "\u{a0}\u{3000}\u{2028}", "\u{85}"] {
        assert!(is_blank(text));
        assert!(text.trim().is_empty());
    }
    for text in ["a", " a ", "\u{200b}", "\u{180e}", "."] {
        assert!(!is_blank(text));
        assert!(!text.trim().is_empty());
    }
}

#[test]
fn white_space_is_that_of_unicode() {
    for n in 0..0x11_0000u32 {
        if let Some(c) = char::from_u32(n) {
            assert_eq!(is_whitespace(c), c.is_whitespace(), "{n:x}");
        }
    }
}

#[test]
fn equal_texts_are_equal_and_others_are_not() {
    assert!(same_text("memória", "memória"));
    assert!(!same_text("memória", "memoria"));
    assert!(!same_text("a", "ab"));
}

#[test]
fn parts_are_found_anywhere() {
    let text = characters("recently");
    assert!(contains_text(&text, "recent"));
    assert!(contains_text(&text, "ly"));
    assert!(contains_text(&text, ""));
    assert!(!contains_text(&text, "recents"));
    assert!(!contains_text(&text, "recently seen"));
}

#[test]
fn markers_of_time_are_found_in_any_case() {
    for query in [
        "Quando foi isso?",
        "ANTES do deploy",
        "e depois?",
        "a última vez",
        "A ÚLTIMA VEZ",
        "o ultimo commit",
        "ontem",
        "hoje",
        "most RECENTLY used",
        "the previous one",
        "Last time we spoke",
        "earlier today",
    ] {
        assert!(is_temporal_query(query), "{query}");
    }
    for query in ["", "Qual banco o Atlas usa?", "ultima", "last  time", "which database"] {
        assert!(!is_temporal_query(query), "{query}");
    }
}

#[test]
fn ascii_tokens_are_digits_small_letters_and_two_signs() {
    for n in 0..128u8 {
        let c = n as char;
        let found = tokenize(&format!("{c}{c}"));
        if c.is_ascii_alphanumeric() || c == '_' || c == '/' {
            let low = c.to_ascii_lowercase();
            assert_eq!(found, vec![format!("{low}{low}")]);
        } else {
            assert!(found.is_empty(), "{n}");
        }
    }
}

#[test]
fn separators_part_tokens() {
    for (a, b) in [("", ""), ("ab", "cd"), ("a", "bc"), ("AB c", "x Yz"), ("é", "ção")] {
        for c in [' ', '-', '.', '\n', '—'] {
            let mut expected = tokenize(a);
            expected.extend(tokenize(b));
            assert_eq!(tokenize(&format!("{a}{c}{b}")), expected);
        }
    }
}

#[test]
fn tokens_of_tokens_are_the_tokens_of_ascii_texts() {
    for text in ["", "x", "The QUICK brown-fox, src/Main_1.rs!", "a bb ccc DDDD 12 3"] {
        let found = tokenize(text);
        assert_eq!(tokenize(&found.join(" ")), found);
    }
}
