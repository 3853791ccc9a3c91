//! Entities: the words, paths and identifiers of a text that link it to others.

use crate::seqs::{
    at_most, contains_string, distinct, distinct_keeps_each_element_once, distinct_of_distinct,
    distinct_of_one_more, distinct_of_prefix,
};
use crate::text::{ascii, ascii_lower, is_ascii, lowercase, same_text, texts};
use vstd::prelude::*;

verus! {

/// The pattern of an entity: a letter or `_`, then at least two letters, digits or one of
/// `_ . / : -`, between word boundaries.
pub const ENTITY_PATTERN: &'static str = r"(?u)\b[\p{L}_][\p{L}\p{N}_./:-]{2,}\b";

/// The most entities that are taken from one text.
pub const MAX_ENTITIES: usize = 32;

/// The texts of an optional list of strings.
pub open spec fn optional_texts(strings: Option<Vec<String>>) -> Option<Seq<Seq<char>>> {
    match strings {
        Some(list) => Some(texts(list@)),
        None => None,
    }
}

/// The matches that `regex::Regex::find_iter` yields for a pattern in a text, in order; `None`
/// for a pattern that `regex::Regex::new` refuses.
pub uninterp spec fn pattern_matches(pattern: Seq<char>, text: Seq<char>) -> Option<Seq<Seq<char>>>;

/// Compiles `pattern` with `regex::Regex::new` and collects the texts of the matches that
/// `regex::Regex::find_iter` yields in `text`. Claimed are that the outcome is a function of the
/// pattern and the text, and that the pattern of an entity, which is written in the documented
/// syntax of the crate, compiles.
#[verifier::external_body]
fn find_matches(pattern: &str, text: &str) -> (r: Option<Vec<String>>)
    ensures
        optional_texts(r) == pattern_matches(pattern@, text@),
        pattern@ == ENTITY_PATTERN@ ==> r is Some,
{
    let matcher = regex::Regex::new(pattern).ok()?;
    Some(matcher.find_iter(text).map(|found| found.as_str().to_string()).collect())
}

/// Common Portuguese and English words that are no entities.
pub open spec fn stopwords() -> Seq<Seq<char>> {
    seq![
        "the"@, "and"@, "for"@, "with"@, "this"@, "that"@, "from"@, "have"@, "was"@, "were"@,
        "uma"@, "para"@, "com"@, "que"@, "por"@, "dos"@, "das"@, "como"@, "mais"@, "não"@,
        "nao"@, "seu"@, "sua"@, "isso"@, "esta"@, "esse"@, "ser"@, "tem"@, "nos"@, "nas"@,
    ]
}

/// A word that is no stopword.
pub open spec fn significant(word: Seq<char>) -> bool {
    !stopwords().contains(word)
}

/// The entities among lower-case words: the first ones that are no stopwords, each once, up to
/// the limit.
pub open spec fn entities_among(words: Seq<Seq<char>>) -> Seq<Seq<char>> {
    at_most(distinct(words.filter(|w: Seq<char>| significant(w))), MAX_ENTITIES as nat)
}

/// The words of a text that have the pattern of an entity, in lower case.
pub open spec fn candidate_words(text: Seq<char>) -> Seq<Seq<char>> {
    pattern_matches(ENTITY_PATTERN@, text)->0.map_values(|w: Seq<char>| lowercase(w))
}

/// The entities of a text.
pub open spec fn entities(text: Seq<char>) -> Seq<Seq<char>> {
    entities_among(candidate_words(text))
}

/// Whether `word` is one of the common words that are no entities.
pub fn is_stopword(word: &str) -> (r: bool)
    ensures
        r == stopwords().contains(word@),
{
    let list: Vec<&str> = vec![
        "the", "and", "for", "with", "this", "that", "from", "have", "was", "were",
        "uma", "para", "com", "que", "por", "dos", "das", "como", "mais", "não",
        "nao", "seu", "sua", "isso", "esta", "esse", "ser", "tem", "nos", "nas",
    ];
    let ghost views = list@.map_values(|m: &str| m@);
    assert(views =~= stopwords());
    let mut i: usize = 0;
    while i < list.len()
        invariant
            i <= list.len(),
            views == stopwords(),
            views == list@.map_values(|m: &str| m@),
            forall|j: int| 0 <= j < i ==> #[trigger] views[j] != word@,
        decreases list.len() - i,
    {
        if same_text(list[i], word) {
            assert(views[i as int] == word@);
            return true;
        }
        i = i + 1;
    }
    false
}

/// The entities among `words`, which are in lower case.
pub fn select_entities(words: &Vec<String>) -> (r: Vec<String>)
    ensures
        texts(r@) == entities_among(texts(words@)),
{
    let ghost keep = |w: Seq<char>| significant(w);
    let ghost all = texts(words@);
    let mut kept: Vec<String> = Vec::new();
    let mut i: usize = 0;
    proof {
        reveal(Seq::filter);
        assert(all.take(0).filter(keep) =~= Seq::empty());
        assert(texts(kept@) =~= Seq::empty());
    }
    while i < words.len()
        invariant
            i <= words.len(),
            all == texts(words@),
            keep == (|w: Seq<char>| significant(w)),
            kept.len() <= MAX_ENTITIES,
            texts(kept@) == distinct(all.take(i as int).filter(keep)),
        decreases words.len() - i,
    {
        let ghost before = all.take(i as int);
        let ghost old_kept = kept@;
        let word = words[i].as_str();
        proof {
            assert(all.take(i + 1) =~= before.push(word@));
            before.lemma_filter_push(word@, keep);
            assert(before.filter(keep).push(word@).drop_last() =~= before.filter(keep));
            assert(word@ == all[i as int]);
        }
        if !is_stopword(word) && !contains_string(&kept, word) {
            if kept.len() == MAX_ENTITIES {
                proof {
                    let list = all.filter(keep);
                    let start = all.take(i + 1);
                    filter_of_prefix(all, keep, i + 1);
                    assert(list.take(start.filter(keep).len() as int) =~= start.filter(keep));
                    distinct_of_prefix(list, start.filter(keep).len() as int);
                    assert(at_most(distinct(list), MAX_ENTITIES as nat) =~= texts(kept@));
                }
                return kept;
            }
            kept.push(words[i].clone());
            assert(texts(kept@) =~= texts(old_kept).push(word@));
        }
        i = i + 1;
    }
    assert(all.take(i as int) =~= all);
    kept
}

/// Filtering the start of a sequence gives a start of the filtered sequence.
proof fn filter_of_prefix<T>(s: Seq<T>, keep: spec_fn(T) -> bool, n: int)
    requires
        0 <= n <= s.len(),
    ensures
        s.take(n).filter(keep).is_prefix_of(s.filter(keep)),
    decreases s.len() - n,
{
    if n == s.len() {
        assert(s.take(n) =~= s);
    } else {
        filter_of_prefix(s, keep, n + 1);
        assert(s.take(n + 1) =~= s.take(n).push(s[n]));
        s.take(n).lemma_filter_push(s[n], keep);
    }
}

/// The entities of `text`: lower-case words, paths and identifiers of at least three characters,
/// without common words and repetitions.
pub fn extract_entities(text: &str) -> (r: Vec<String>)
    ensures
        texts(r@) == entities(text@),
{
    let found: Vec<String> = match find_matches(ENTITY_PATTERN, text) {
        Some(list) => list,
        None => Vec::new(),
    };
    let mut words: Vec<String> = Vec::new();
    let mut i: usize = 0;
    while i < found.len()
        invariant
            i <= found.len(),
            texts(words@) == texts(found@).take(i as int).map_values(|w: Seq<char>| lowercase(w)),
        decreases found.len() - i,
    {
        let ghost old_words = words@;
        words.push(found[i].to_lowercase());
        assert(texts(words@) =~= texts(old_words).push(lowercase(texts(found@)[i as int])));
        i = i + 1;
        assert(texts(words@) =~= texts(found@).take(i as int).map_values(
            |w: Seq<char>| lowercase(w),
        ));
    }
    assert(texts(found@).take(i as int) =~= texts(found@));
    select_entities(&words)
}

/// No text has an entity twice, or more entities than the limit, and no entity is a stopword.
pub proof fn entities_are_distinct(text: Seq<char>)
    ensures
        entities(text).no_duplicates(),
        entities(text).len() <= MAX_ENTITIES,
        forall|k: int| 0 <= k < entities(text).len() ==> significant(#[trigger] entities(text)[k]),
{
    selection_is_distinct(candidate_words(text));
}

/// Among any words no entity is selected twice, nor more than the limit, nor a stopword, and
/// nothing that is not among the words.
pub proof fn selection_is_distinct(words: Seq<Seq<char>>)
    ensures
        entities_among(words).no_duplicates(),
        entities_among(words).len() <= MAX_ENTITIES,
        forall|k: int|
            0 <= k < entities_among(words).len() ==> significant(#[trigger] entities_among(words)[k])
                && words.contains(entities_among(words)[k]),
{
    let keep = |w: Seq<char>| significant(w);
    let kept = words.filter(keep);
    let all = distinct(kept);
    distinct_keeps_each_element_once(kept);
    assert forall|k: int| 0 <= k < entities_among(words).len() implies significant(
        #[trigger] entities_among(words)[k],
    ) && words.contains(entities_among(words)[k]) by {
        let w = entities_among(words)[k];
        assert(all[k] == w);
        assert(all.contains(w));
        let i = choose|i: int| 0 <= i < kept.len() && kept[i] == w;
        words.lemma_filter_pred(keep, i);
        words.lemma_filter_contains_rev(keep, w);
    }
}

/// Filtering keeps a sequence of which every element is kept.
proof fn filter_of_kept<T>(s: Seq<T>, keep: spec_fn(T) -> bool)
    requires
        forall|i: int| 0 <= i < s.len() ==> keep(#[trigger] s[i]),
    ensures
        s.filter(keep) == s,
    decreases s.len(),
{
    reveal(Seq::filter);
    if s.len() > 0 {
        let front = s.drop_last();
        assert forall|i: int| 0 <= i < front.len() implies keep(#[trigger] front[i]) by {
            assert(front[i] == s[i]);
        }
        filter_of_kept(front, keep);
        assert(keep(s[s.len() - 1]));
        assert(front.push(s.last()) =~= s);
    }
}

/// Selecting from a selection changes nothing.
pub proof fn selection_of_selection_is_the_selection(words: Seq<Seq<char>>)
    ensures
        entities_among(entities_among(words)) == entities_among(words),
{
    let chosen = entities_among(words);
    let keep = |w: Seq<char>| significant(w);
    selection_is_distinct(words);
    filter_of_kept(chosen, keep);
    distinct_of_distinct(chosen);
}

/// A text in which exactly the entities of another match the pattern has the same entities.
pub proof fn entities_are_their_own_entities(text: Seq<char>, again: Seq<char>)
    requires
        candidate_words(again) == entities(text),
    ensures
        entities(again) == entities(text),
{
    selection_of_selection_is_the_selection(candidate_words(text));
}

/// The capital letter of a letter `a` to `z`; any other character as it is.
pub open spec fn ascii_upper(c: char) -> char {
    if 'a' <= c <= 'z' {
        (c as u32 - 32) as char
    } else {
        c
    }
}

/// An ASCII text in capital letters.
pub open spec fn uppercase(text: Seq<char>) -> Seq<char> {
    text.map_values(|c: char| ascii_upper(c))
}

/// Case makes no difference: where the pattern matches the capital letters of a text at the same
/// places, and matches only ASCII, the capital letters have the same entities.
pub proof fn entities_do_not_depend_on_case(text: Seq<char>)
    requires
        ({
            let found = pattern_matches(ENTITY_PATTERN@, text)->0;
            &&& pattern_matches(ENTITY_PATTERN@, uppercase(text))->0 == found.map_values(
                |w: Seq<char>| uppercase(w),
            )
            &&& forall|k: int| 0 <= k < found.len() ==> ascii(#[trigger] found[k])
        }),
    ensures
        entities(uppercase(text)) == entities(text),
{
    let found = pattern_matches(ENTITY_PATTERN@, text)->0;
    let raised = found.map_values(|w: Seq<char>| uppercase(w));
    let lower = |w: Seq<char>| lowercase(w);
    assert forall|k: int| 0 <= k < found.len() implies lowercase(#[trigger] raised[k]) == lowercase(
        found[k],
    ) by {
        let word = found[k];
        assert(ascii(word));
        assert forall|i: int| 0 <= i < word.len() implies is_ascii(#[trigger] uppercase(word)[i])
            && ascii_lower(uppercase(word)[i]) == ascii_lower(word[i]) by {
            assert(is_ascii(word[i]));
        }
        assert(lowercase(uppercase(word)) =~= lowercase(word));
    }
    assert(raised.map_values(lower) =~= found.map_values(lower));
}

/// The words that are never entities are exactly these.
pub proof fn common_words_are_these(word: Seq<char>)
    ensures
        significant(word) <==> {
            &&& word != "the"@
            &&& word != "and"@
            &&& word != "for"@
            &&& word != "with"@
            &&& word != "this"@
            &&& word != "that"@
            &&& word != "from"@
            &&& word != "have"@
            &&& word != "was"@
            &&& word != "were"@
            &&& word != "uma"@
            &&& word != "para"@
            &&& word != "com"@
            &&& word != "que"@
            &&& word != "por"@
            &&& word != "dos"@
            &&& word != "das"@
            &&& word != "como"@
            &&& word != "mais"@
            &&& word != "não"@
            &&& word != "nao"@
            &&& word != "seu"@
            &&& word != "sua"@
            &&& word != "isso"@
            &&& word != "esta"@
            &&& word != "esse"@
            &&& word != "ser"@
            &&& word != "tem"@
            &&& word != "nos"@
            &&& word != "nas"@
        },
{
    let list = stopwords();
    assert(list.len() == 30);
    assert(list[0] == "the"@);
    assert(list[1] == "and"@);
    assert(list[2] == "for"@);
    assert(list[3] == "with"@);
    assert(list[4] == "this"@);
    assert(list[5] == "that"@);
    assert(list[6] == "from"@);
    assert(list[7] == "have"@);
    assert(list[8] == "was"@);
    assert(list[9] == "were"@);
    assert(list[10] == "uma"@);
    assert(list[11] == "para"@);
    assert(list[12] == "com"@);
    assert(list[13] == "que"@);
    assert(list[14] == "por"@);
    assert(list[15] == "dos"@);
    assert(list[16] == "das"@);
    assert(list[17] == "como"@);
    assert(list[18] == "mais"@);
    assert(list[19] == "não"@);
    assert(list[20] == "nao"@);
    assert(list[21] == "seu"@);
    assert(list[22] == "sua"@);
    assert(list[23] == "isso"@);
    assert(list[24] == "esta"@);
    assert(list[25] == "esse"@);
    assert(list[26] == "ser"@);
    assert(list[27] == "tem"@);
    assert(list[28] == "nos"@);
    assert(list[29] == "nas"@);
}

/// One word more is selected exactly when it is no common word, was not selected already, and
/// fewer than 32 are selected.
pub proof fn one_more_word_is_selected_or_not(words: Seq<Seq<char>>, word: Seq<char>)
    ensures
        entities_among(Seq::empty()) == Seq::<Seq<char>>::empty(),
        entities_among(words.push(word)) == if significant(word) && !entities_among(words).contains(
            word,
        ) && entities_among(words).len() < 32 {
            entities_among(words).push(word)
        } else {
            entities_among(words)
        },
{
    let keep = |w: Seq<char>| significant(w);
    reveal(Seq::filter);
    assert(Seq::<Seq<char>>::empty().filter(keep) =~= Seq::empty());
    let kept = words.filter(keep);
    words.lemma_filter_push(word, keep);
    distinct_keeps_each_element_once(kept);
    if significant(word) {
        distinct_of_one_more(kept, word);
    }
    assert(entities_among(words.push(word)) =~= if significant(word) && !entities_among(
        words,
    ).contains(word) && entities_among(words).len() < 32 {
        entities_among(words).push(word)
    } else {
        entities_among(words)
    });
}

/// The candidates are the matches of the pattern of an entity, each in lower case, in order, and the
/// entities are selected among them.
pub proof fn candidates_are_the_matches(text: Seq<char>)
    ensures
        ({
            let found = pattern_matches(r"(?u)\b[\p{L}_][\p{L}\p{N}_./:-]{2,}\b"@, text)->0;
            &&& candidate_words(text).len() == found.len()
            &&& forall|k: int|
                0 <= k < found.len() ==> #[trigger] candidate_words(text)[k] == lowercase(found[k])
            &&& entities(text) == entities_among(candidate_words(text))
        }),
{
}

/// Every match of the pattern of an entity is an entity of the text, in lower case, unless it is a
/// common word or the text has 32 others.
pub proof fn matched_word_is_an_entity(text: Seq<char>, k: int)
    requires
        0 <= k < pattern_matches(r"(?u)\b[\p{L}_][\p{L}\p{N}_./:-]{2,}\b"@, text)->0.len(),
    ensures
        ({
            let word = lowercase(pattern_matches(r"(?u)\b[\p{L}_][\p{L}\p{N}_./:-]{2,}\b"@, text)->0[k]);
            significant(word) ==> entities(text).contains(word) || entities(text).len() == 32
        }),
{
    let words = candidate_words(text);
    let keep = |w: Seq<char>| significant(w);
    let kept = words.filter(keep);
    distinct_keeps_each_element_once(kept);
    if significant(words[k]) {
        words.lemma_filter_contains(keep, k);
        assert(kept.contains(words[k]));
        assert(distinct(kept).contains(words[k]));
    }
}

/// Every entity of a text is a match of the pattern of an entity, in lower case, and no common word.
pub proof fn entity_is_a_matched_word(text: Seq<char>, m: int)
    requires
        0 <= m < entities(text).len(),
    ensures
        significant(entities(text)[m]),
        exists|j: int|
            0 <= j < pattern_matches(r"(?u)\b[\p{L}_][\p{L}\p{N}_./:-]{2,}\b"@, text)->0.len() && entities(text)[m] == lowercase(
                #[trigger] pattern_matches(r"(?u)\b[\p{L}_][\p{L}\p{N}_./:-]{2,}\b"@, text)->0[j],
            ),
{
    let words = candidate_words(text);
    selection_is_distinct(words);
    let own = entities(text)[m];
    assert(words.contains(own));
    let j = choose|j: int| 0 <= j < words.len() && words[j] == own;
    assert(own == lowercase(pattern_matches(ENTITY_PATTERN@, text)->0[j]));
}

} // verus!
