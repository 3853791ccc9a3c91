//! Characters, words and markers: how a text is cut into tokens and how a query is read.

use vstd::prelude::*;

verus! {

/// Whether a character is one of the first 128.
pub open spec fn is_ascii(c: char) -> bool {
    (c as u32) < 128
}

/// Whether a text holds only the first 128 characters.
pub open spec fn ascii(text: Seq<char>) -> bool {
    forall|i: int| 0 <= i < text.len() ==> is_ascii(#[trigger] text[i])
}

/// The digits `0` to `9` and the letters `A` to `Z` and `a` to `z`.
pub open spec fn ascii_alphanumeric(c: char) -> bool {
    '0' <= c <= '9' || 'A' <= c <= 'Z' || 'a' <= c <= 'z'
}

/// The lower-case letter of a letter `A` to `Z`; any other character as it is.
pub open spec fn ascii_lower(c: char) -> char {
    if 'A' <= c <= 'Z' {
        (c as u32 + 32) as char
    } else {
        c
    }
}

/// Whether `char::is_alphanumeric` holds of a character outside ASCII.
pub uninterp spec fn unicode_alphanumeric(c: char) -> bool;

/// `char::is_alphanumeric` holds of letters and numbers, by the tables of Unicode. Claimed are that
/// in ASCII these are the digits and the letters without accents, and that elsewhere the answer is a
/// function of the character.
pub assume_specification[ char::is_alphanumeric ](c: char) -> (r: bool)
    ensures
        is_ascii(c) ==> r == ascii_alphanumeric(c),
        !is_ascii(c) ==> r == unicode_alphanumeric(c),
;

/// Whether a character is a letter or a number.
pub open spec fn alphanumeric(c: char) -> bool {
    if is_ascii(c) {
        ascii_alphanumeric(c)
    } else {
        unicode_alphanumeric(c)
    }
}

/// What `str::to_lowercase` makes of a text that is not all ASCII.
pub uninterp spec fn unicode_lowercase(text: Seq<char>) -> Seq<char>;

/// `str::to_lowercase` maps a text to lower case, by the tables of Unicode. Claimed are that in an
/// ASCII text the letters `A` to `Z` become `a` to `z` and everything else stays, and that of any
/// other text the result is a function of its characters.
pub assume_specification[ str::to_lowercase ](s: &str) -> (r: String)
    ensures
        ascii(s@) ==> r@ == s@.map_values(|c: char| ascii_lower(c)),
        !ascii(s@) ==> r@ == unicode_lowercase(s@),
;

/// A text in lower case.
pub open spec fn lowercase(text: Seq<char>) -> Seq<char> {
    if ascii(text) {
        text.map_values(|c: char| ascii_lower(c))
    } else {
        unicode_lowercase(text)
    }
}

/// `String::push` appends one character to the string.
pub assume_specification[ String::push ](s: &mut String, c: char)
    ensures
        final(s)@ == old(s)@.push(c),
;

/// `==` on string slices holds exactly when they have the same characters.
pub assume_specification[ <str as PartialEq>::eq ](a: &str, b: &str) -> (r: bool)
    ensures
        r == (a@ == b@),
;

/// Whether `a` and `b` have the same characters.
pub fn same_text(a: &str, b: &str) -> (r: bool)
    ensures
        r == (a@ == b@),
{
    *a == *b
}

/// The texts of a list of strings.
pub open spec fn texts(strings: Seq<String>) -> Seq<Seq<char>> {
    strings.map_values(|s: String| s@)
}

/// The texts of a list of string slices.
pub open spec fn str_texts(list: Seq<&str>) -> Seq<Seq<char>> {
    list.map_values(|s: &str| s@)
}

/// The characters with the Unicode property `White_Space`.
pub open spec fn whitespace(c: char) -> bool {
    ||| 0x09 <= c as u32 <= 0x0d
    ||| c as u32 == 0x20
    ||| c as u32 == 0x85
    ||| c as u32 == 0xa0
    ||| c as u32 == 0x1680
    ||| 0x2000 <= c as u32 <= 0x200a
    ||| c as u32 == 0x2028
    ||| c as u32 == 0x2029
    ||| c as u32 == 0x202f
    ||| c as u32 == 0x205f
    ||| c as u32 == 0x3000
}

/// A text of which nothing is left once it is trimmed.
pub open spec fn blank(text: Seq<char>) -> bool {
    forall|i: int| 0 <= i < text.len() ==> whitespace(#[trigger] text[i])
}

/// Whether `c` is white space.
pub fn is_whitespace(c: char) -> (r: bool)
    ensures
        r == whitespace(c),
{
    let n: u32 = c as u32;
    (0x09 <= n && n <= 0x0d) || n == 0x20 || n == 0x85 || n == 0xa0 || n == 0x1680 || (0x2000 <= n
        && n <= 0x200a) || n == 0x2028 || n == 0x2029 || n == 0x202f || n == 0x205f || n == 0x3000
}

/// The characters of `text`, in order.
pub fn characters(text: &str) -> (r: Vec<char>)
    ensures
        r@ == text@,
{
    let mut r: Vec<char> = Vec::new();
    for c in it: text.chars()
        invariant
            it.seq() == text@,
            r@ == text@.take(it.index()),
    {
        r.push(c);
    }
    r
}

/// Whether `text` is empty or all white space.
pub fn is_blank(text: &str) -> (r: bool)
    ensures
        r == blank(text@),
{
    for c in it: text.chars()
        invariant
            it.seq() == text@,
            forall|i: int| 0 <= i < it.index() ==> whitespace(#[trigger] text@[i]),
    {
        if !is_whitespace(c) {
            return false;
        }
    }
    true
}

/// The characters that a token is made of.
pub open spec fn token_char(c: char) -> bool {
    alphanumeric(c) || c == '_' || c == '/'
}

/// `text` cut at each character that `kept` marks `false`: the stretches between the cuts, empty
/// ones too, from first to last. There is one stretch more than there are cuts.
pub open spec fn stretches(text: Seq<char>, kept: Seq<bool>) -> Seq<Seq<char>>
    decreases text.len(),
{
    if text.len() == 0 {
        seq![Seq::empty()]
    } else {
        let before = stretches(text.drop_last(), kept.drop_last());
        if kept.last() {
            before.drop_last().push(before.last().push(text.last()))
        } else {
            before.push(Seq::empty())
        }
    }
}

/// A stretch long enough to be a word.
pub open spec fn long_enough(stretch: Seq<char>) -> bool {
    stretch.len() >= 2
}

/// The words of a text: its stretches of kept characters that are at least two long.
pub open spec fn words(text: Seq<char>, kept: Seq<bool>) -> Seq<Seq<char>> {
    stretches(text, kept).filter(|s: Seq<char>| long_enough(s))
}

/// The tokens of a text: its words of token characters, in lower case.
pub open spec fn tokens(text: Seq<char>) -> Seq<Seq<char>> {
    words(text, text.map_values(|c: char| token_char(c))).map_values(|w: Seq<char>| lowercase(w))
}

/// The words of `text`, where `kept` marks the characters that belong to words.
pub fn split_words(text: &Vec<char>, kept: &Vec<bool>) -> (r: Vec<String>)
    requires
        kept.len() == text.len(),
    ensures
        texts(r@) == words(text@, kept@),
{
    let ghost long = |s: Seq<char>| long_enough(s);
    let mut done: Vec<String> = Vec::new();
    let mut current: String = String::new();
    let mut length: usize = 0;
    let mut i: usize = 0;
    proof {
        assert(stretches(text@.take(0), kept@.take(0)) =~= seq![Seq::<char>::empty()]);
        assert(Seq::<Seq<char>>::empty().filter(long) =~= Seq::empty()) by {
            reveal(Seq::filter);
        }
        assert(stretches(text@.take(0), kept@.take(0)).drop_last() =~= Seq::empty());
    }
    while i < text.len()
        invariant
            i <= text.len(),
            kept.len() == text.len(),
            long == (|s: Seq<char>| long_enough(s)),
            stretches(text@.take(i as int), kept@.take(i as int)).len() > 0,
            current@ == stretches(text@.take(i as int), kept@.take(i as int)).last(),
            length == current@.len(),
            length <= i,
            texts(done@) == stretches(text@.take(i as int), kept@.take(i as int)).drop_last().filter(
                long,
            ),
        decreases text.len() - i,
    {
        let ghost before = stretches(text@.take(i as int), kept@.take(i as int));
        let ghost after = stretches(text@.take(i + 1), kept@.take(i + 1));
        proof {
            assert(text@.take(i + 1).drop_last() =~= text@.take(i as int));
            assert(kept@.take(i + 1).drop_last() =~= kept@.take(i as int));
        }
        if kept[i] {
            current.push(text[i]);
            length = length + 1;
            proof {
                assert(after.drop_last() =~= before.drop_last());
            }
        } else {
            let ghost old_done = done@;
            proof {
                assert(after.drop_last() =~= before);
                assert(before =~= before.drop_last().push(before.last()));
                before.drop_last().lemma_filter_push(before.last(), long);
            }
            if length >= 2 {
                done.push(current);
                assert(texts(done@) =~= texts(old_done).push(before.last()));
            }
            current = String::new();
            length = 0;
        }
        i = i + 1;
    }
    proof {
        assert(text@.take(i as int) =~= text@);
        assert(kept@.take(i as int) =~= kept@);
        let all = stretches(text@, kept@);
        assert(all =~= all.drop_last().push(all.last()));
        all.drop_last().lemma_filter_push(all.last(), long);
    }
    let ghost old_done = done@;
    if length >= 2 {
        done.push(current);
        assert(texts(done@) =~= texts(old_done).push(stretches(text@, kept@).last()));
    }
    done
}

/// The tokens of `text`: lower-case runs of at least two letters, digits, `_` and `/`.
pub fn tokenize(text: &str) -> (r: Vec<String>)
    ensures
        texts(r@) == tokens(text@),
{
    let chars = characters(text);
    let mut kept: Vec<bool> = Vec::new();
    let mut i: usize = 0;
    while i < chars.len()
        invariant
            i <= chars.len(),
            kept@ == chars@.take(i as int).map_values(|c: char| token_char(c)),
        decreases chars.len() - i,
    {
        let c = chars[i];
        kept.push(c.is_alphanumeric() || c == '_' || c == '/');
        i = i + 1;
        assert(kept@ =~= chars@.take(i as int).map_values(|c: char| token_char(c)));
    }
    assert(chars@.take(i as int) =~= chars@);
    let found = split_words(&chars, &kept);
    let mut r: Vec<String> = Vec::new();
    let mut j: usize = 0;
    while j < found.len()
        invariant
            j <= found.len(),
            texts(r@) == texts(found@).take(j as int).map_values(|w: Seq<char>| lowercase(w)),
        decreases found.len() - j,
    {
        let ghost old_r = r@;
        r.push(found[j].to_lowercase());
        assert(texts(r@) =~= texts(old_r).push(lowercase(texts(found@)[j as int])));
        j = j + 1;
        assert(texts(r@) =~= texts(found@).take(j as int).map_values(|w: Seq<char>| lowercase(w)));
    }
    assert(texts(found@).take(j as int) =~= texts(found@));
    r
}

/// Whether `part` occurs in `text` as a run of consecutive characters.
pub open spec fn occurs(part: Seq<char>, text: Seq<char>) -> bool {
    exists|i: int|
        0 <= i && i + part.len() <= text.len() && #[trigger] text.subrange(i, i + part.len())
            == part
}

/// Whether `part` stands in `text` at position `at`.
fn stands_at(part: &Vec<char>, text: &Vec<char>, at: usize) -> (r: bool)
    requires
        at + part.len() <= text.len(),
    ensures
        r == (text@.subrange(at as int, at + part.len()) == part@),
{
    let mut k: usize = 0;
    while k < part.len()
        invariant
            k <= part.len(),
            at + part.len() <= text.len(),
            forall|j: int| 0 <= j < k ==> #[trigger] part@[j] == text@[at + j],
        decreases part.len() - k,
    {
        if part[k] != text[at + k] {
            assert(text@.subrange(at as int, at + part.len())[k as int] != part@[k as int]);
            return false;
        }
        k = k + 1;
    }
    assert(text@.subrange(at as int, at + part.len()) =~= part@);
    true
}

/// Whether the characters of `part` occur in `text` one after the other.
pub fn contains_text(text: &Vec<char>, part: &str) -> (r: bool)
    ensures
        r == occurs(part@, text@),
{
    let wanted = characters(part);
    let mut i: usize = 0;
    while wanted.len() <= text.len() && i <= text.len() - wanted.len()
        invariant
            wanted@ == part@,
            i <= text.len() + 1,
            forall|j: int|
                0 <= j < i && j + wanted.len() <= text.len() ==> #[trigger] text@.subrange(
                    j,
                    j + wanted.len(),
                ) != wanted@,
        decreases text.len() + 1 - i,
    {
        if stands_at(&wanted, text, i) {
            return true;
        }
        if i == text.len() - wanted.len() {
            return false;
        }
        i = i + 1;
    }
    false
}

/// The words that mark a query as one about time.
pub open spec fn temporal_markers() -> Seq<Seq<char>> {
    seq![
        "quando"@,
        "antes"@,
        "depois"@,
        "últim"@,
        "ultimo"@,
        "ontem"@,
        "hoje"@,
        "recent"@,
        "previous"@,
        "last time"@,
        "earlier"@,
    ]
}

/// Whether some marker of time occurs in a text.
pub open spec fn has_temporal_marker(text: Seq<char>) -> bool {
    exists|k: int|
        0 <= k < temporal_markers().len() && occurs(#[trigger] temporal_markers()[k], text)
}

/// Whether `normalized`, a text in lower case, holds a marker of time.
pub fn contains_temporal_marker(normalized: &str) -> (r: bool)
    ensures
        r == has_temporal_marker(normalized@),
{
    let markers: Vec<&str> = vec![
        "quando",
        "antes",
        "depois",
        "últim",
        "ultimo",
        "ontem",
        "hoje",
        "recent",
        "previous",
        "last time",
        "earlier",
    ];
    assert(markers@.map_values(|m: &str| m@) =~= temporal_markers());
    assert forall|k: int| 0 <= k < markers.len() implies #[trigger] markers@[k]@
        == temporal_markers()[k] by {
        assert(markers@.map_values(|m: &str| m@)[k] == markers@[k]@);
    }
    let text = characters(normalized);
    let mut i: usize = 0;
    while i < markers.len()
        invariant
            i <= markers.len(),
            text@ == normalized@,
            markers.len() == temporal_markers().len(),
            forall|k: int|
                0 <= k < markers.len() ==> #[trigger] markers@[k]@ == temporal_markers()[k],
            forall|k: int| 0 <= k < i ==> !occurs(#[trigger] temporal_markers()[k], text@),
        decreases markers.len() - i,
    {
        if contains_text(&text, markers[i]) {
            assert(occurs(temporal_markers()[i as int], text@));
            return true;
        }
        i = i + 1;
    }
    false
}

/// Whether `query` asks about time: whether a marker of time occurs in it, whatever its case.
pub fn is_temporal_query(query: &str) -> (r: bool)
    ensures
        r == has_temporal_marker(lowercase(query@)),
{
    contains_temporal_marker(query.to_lowercase().as_str())
}

/// There is always a last stretch.
proof fn stretches_nonempty(text: Seq<char>, kept: Seq<bool>)
    ensures
        stretches(text, kept).len() > 0,
    decreases text.len(),
{
    if text.len() > 0 {
        stretches_nonempty(text.drop_last(), kept.drop_last());
    }
}

/// A character that is not kept cuts a text in two.
proof fn stretches_on_both_sides(
    a: Seq<char>,
    kept_a: Seq<bool>,
    c: char,
    b: Seq<char>,
    kept_b: Seq<bool>,
)
    requires
        kept_a.len() == a.len(),
        kept_b.len() == b.len(),
    ensures
        stretches(a.push(c) + b, kept_a.push(false) + kept_b) == stretches(a, kept_a) + stretches(
            b,
            kept_b,
        ),
    decreases b.len(),
{
    let text = a.push(c) + b;
    let kept = kept_a.push(false) + kept_b;
    let left = stretches(a, kept_a);
    if b.len() == 0 {
        assert(text.drop_last() =~= a);
        assert(kept.drop_last() =~= kept_a);
        assert(stretches(text, kept) =~= left + seq![Seq::empty()]);
    } else {
        let front = b.drop_last();
        let kept_front = kept_b.drop_last();
        stretches_on_both_sides(a, kept_a, c, front, kept_front);
        stretches_nonempty(front, kept_front);
        assert(text.drop_last() =~= a.push(c) + front);
        assert(kept.drop_last() =~= kept_a.push(false) + kept_front);
        assert(stretches(text, kept) =~= left + stretches(b, kept_b));
    }
}

/// A text without characters has no tokens.
pub proof fn nothing_has_no_tokens()
    ensures
        tokens(Seq::empty()) == Seq::<Seq<char>>::empty(),
{
    reveal(Seq::filter);
    let long = |s: Seq<char>| long_enough(s);
    let none = Seq::<char>::empty();
    let cut = stretches(none, none.map_values(|c: char| token_char(c)));
    assert(cut.drop_last() =~= Seq::empty());
    assert(cut.drop_last().filter(long) =~= Seq::empty());
    assert(cut.filter(long) =~= Seq::empty());
    assert(tokens(none) =~= Seq::empty());
}

/// A character that belongs to no token parts the tokens: those of the whole are those before it
/// and those after it.
pub proof fn separator_parts_the_tokens(a: Seq<char>, c: char, b: Seq<char>)
    requires
        !token_char(c),
    ensures
        tokens(a.push(c) + b) == tokens(a) + tokens(b),
{
    let mark = |c: char| token_char(c);
    let long = |s: Seq<char>| long_enough(s);
    let lower = |w: Seq<char>| lowercase(w);
    let text = a.push(c) + b;
    let kept_a = a.map_values(mark);
    let kept_b = b.map_values(mark);
    assert(text.map_values(mark) =~= kept_a.push(false) + kept_b);
    stretches_on_both_sides(a, kept_a, c, b, kept_b);
    Seq::filter_distributes_over_add(stretches(a, kept_a), stretches(b, kept_b), long);
    let left = words(a, kept_a);
    let right = words(b, kept_b);
    assert(words(text, text.map_values(mark)) == left + right);
    assert((left + right).map_values(lower) =~= left.map_values(lower) + right.map_values(lower));
}

/// Whether a text is made of token characters alone.
pub open spec fn token_chars(text: Seq<char>) -> bool {
    forall|i: int| 0 <= i < text.len() ==> token_char(#[trigger] text[i])
}

/// The stretches of an ASCII text are ASCII texts of token characters.
proof fn stretches_are_token_chars(text: Seq<char>)
    requires
        ascii(text),
    ensures
        ({
            let cut = stretches(text, text.map_values(|c: char| token_char(c)));
            forall|k: int|
                0 <= k < cut.len() ==> ascii(#[trigger] cut[k]) && token_chars(cut[k])
        }),
    decreases text.len(),
{
    let mark = |c: char| token_char(c);
    let cut = stretches(text, text.map_values(mark));
    if text.len() > 0 {
        let front = text.drop_last();
        assert forall|i: int| 0 <= i < front.len() implies is_ascii(#[trigger] front[i]) by {
            assert(front[i] == text[i]);
        }
        stretches_are_token_chars(front);
        stretches_nonempty(front, front.map_values(mark));
        assert(text.map_values(mark).drop_last() =~= front.map_values(mark));
        let before = stretches(front, front.map_values(mark));
        let last = text[text.len() - 1];
        assert(is_ascii(last));
        assert forall|k: int| 0 <= k < cut.len() implies ascii(#[trigger] cut[k]) && token_chars(
            cut[k],
        ) by {
            if k < before.len() {
                assert(ascii(before[k]) && token_chars(before[k]));
            }
            if k == cut.len() - 1 && token_char(last) {
                assert(cut[k] == before[k].push(last));
            }
        }
    }
}

/// What a token of an ASCII text is like: at least two characters, digits, small letters, `_` and
/// `/`.
pub open spec fn plain_token(token: Seq<char>) -> bool {
    &&& token.len() >= 2
    &&& ascii(token)
    &&& token_chars(token)
    &&& forall|i: int| 0 <= i < token.len() ==> !('A' <= #[trigger] token[i] <= 'Z')
}

/// Every token of an ASCII text has at least two characters, each a digit, a small letter, `_` or
/// `/`.
pub proof fn tokens_of_ascii_text_are_plain(text: Seq<char>)
    requires
        ascii(text),
    ensures
        forall|k: int| 0 <= k < tokens(text).len() ==> plain_token(#[trigger] tokens(text)[k]),
{
    let cut = stretches(text, text.map_values(|c: char| token_char(c)));
    let long = |s: Seq<char>| long_enough(s);
    let found = cut.filter(long);
    stretches_are_token_chars(text);
    assert forall|k: int| 0 <= k < tokens(text).len() implies plain_token(
        #[trigger] tokens(text)[k],
    ) by {
        let word = found[k];
        cut.lemma_filter_pred(long, k);
        assert(found.contains(word));
        cut.lemma_filter_contains_rev(long, word);
        let m = choose|m: int| 0 <= m < cut.len() && cut[m] == word;
        assert(ascii(cut[m]) && token_chars(cut[m]));
        let token = tokens(text)[k];
        assert(token == word.map_values(|c: char| ascii_lower(c)));
        assert forall|i: int| 0 <= i < token.len() implies is_ascii(#[trigger] token[i])
            && token_char(token[i]) && !('A' <= token[i] <= 'Z') by {
            assert(is_ascii(word[i]) && token_char(word[i]));
        }
    }
}

/// Texts one after the other, with a space between two of them.
pub open spec fn joined(list: Seq<Seq<char>>) -> Seq<char>
    decreases list.len(),
{
    if list.len() == 0 {
        Seq::empty()
    } else if list.len() == 1 {
        list[0]
    } else {
        joined(list.drop_last()).push(' ') + list.last()
    }
}

/// Where every character is kept, there is one stretch.
proof fn all_kept_is_one_stretch(text: Seq<char>, kept: Seq<bool>)
    requires
        kept.len() == text.len(),
        forall|i: int| 0 <= i < kept.len() ==> #[trigger] kept[i],
    ensures
        stretches(text, kept) == seq![text],
    decreases text.len(),
{
    if text.len() > 0 {
        let front = kept.drop_last();
        assert forall|i: int| 0 <= i < front.len() implies #[trigger] front[i] by {
            assert(front[i] == kept[i]);
        }
        all_kept_is_one_stretch(text.drop_last(), front);
        assert(kept[kept.len() - 1]);
        assert(text.drop_last().push(text.last()) =~= text);
        assert(stretches(text, kept) =~= seq![text]);
    } else {
        assert(text =~= Seq::empty());
    }
}

/// A plain token has itself as its only token.
proof fn plain_token_is_its_own(token: Seq<char>)
    requires
        plain_token(token),
    ensures
        tokens(token) == seq![token],
{
    reveal(Seq::filter);
    let long = |s: Seq<char>| long_enough(s);
    let kept = token.map_values(|c: char| token_char(c));
    assert forall|i: int| 0 <= i < kept.len() implies #[trigger] kept[i] by {
        assert(token_char(token[i]));
    }
    all_kept_is_one_stretch(token, kept);
    let cut = seq![token];
    assert(cut.drop_last() =~= Seq::empty());
    assert(cut.drop_last().filter(long) =~= Seq::empty());
    assert(cut.filter(long) =~= seq![token]);
    assert(lowercase(token) =~= token);
    assert(tokens(token) =~= seq![token]);
}

/// Plain tokens that are joined by spaces are found again.
proof fn plain_tokens_are_found_again(list: Seq<Seq<char>>)
    requires
        forall|k: int| 0 <= k < list.len() ==> plain_token(#[trigger] list[k]),
    ensures
        tokens(joined(list)) == list,
    decreases list.len(),
{
    if list.len() == 0 {
        nothing_has_no_tokens();
        assert(list =~= Seq::empty());
    } else if list.len() == 1 {
        plain_token_is_its_own(list[0]);
        assert(list =~= seq![list[0]]);
    } else {
        let front = list.drop_last();
        assert forall|k: int| 0 <= k < front.len() implies plain_token(#[trigger] front[k]) by {
            assert(front[k] == list[k]);
        }
        plain_tokens_are_found_again(front);
        plain_token_is_its_own(list[list.len() - 1]);
        separator_parts_the_tokens(joined(front), ' ', list.last());
        assert(front + seq![list.last()] =~= list);
    }
}

/// The tokens of an ASCII text, joined by spaces, have the same tokens.
pub proof fn tokens_of_tokens_are_the_tokens(text: Seq<char>)
    requires
        ascii(text),
    ensures
        tokens(joined(tokens(text))) == tokens(text),
{
    tokens_of_ascii_text_are_plain(text);
    plain_tokens_are_found_again(tokens(text));
}

/// A text is blank exactly when both of its parts are, and a single character is blank exactly when
/// it is one of the characters of white space.
pub proof fn blank_texts_are_blank_throughout(a: Seq<char>, b: Seq<char>, c: char)
    ensures
        blank(a + b) <==> blank(a) && blank(b),
        blank(Seq::empty()),
        blank(seq![c]) <==> {
            ||| '\t' <= c <= '\r'
            ||| c == ' '
            ||| c == '\u{85}'
            ||| c == '\u{a0}'
            ||| c == '\u{1680}'
            ||| '\u{2000}' <= c <= '\u{200a}'
            ||| '\u{2028}' <= c <= '\u{2029}'
            ||| c == '\u{202f}'
            ||| c == '\u{205f}'
            ||| c == '\u{3000}'
        },
{
    let whole = a + b;
    if blank(whole) {
        assert forall|i: int| 0 <= i < a.len() implies whitespace(#[trigger] a[i]) by {
            assert(whole[i] == a[i]);
        }
        assert forall|i: int| 0 <= i < b.len() implies whitespace(#[trigger] b[i]) by {
            assert(whole[a.len() + i] == b[i]);
        }
    }
    if blank(a) && blank(b) {
        assert forall|i: int| 0 <= i < whole.len() implies whitespace(#[trigger] whole[i]) by {
            if i < a.len() {
                assert(whole[i] == a[i]);
            } else {
                assert(whole[i] == b[i - a.len()]);
            }
        }
    }
    assert(seq![c][0] == c);
    if whitespace(c) {
        assert(blank(seq![c]));
    }
}

/// A text with a character that is not blank, wherever it stands, is not blank.
pub proof fn text_with_something_is_not_blank(a: Seq<char>, c: char, b: Seq<char>)
    ensures
        blank(a + seq![c] + b) ==> blank(seq![c]),
{
    blank_texts_are_blank_throughout(a + seq![c], b, c);
    blank_texts_are_blank_throughout(a, seq![c], c);
}

/// A run of letters, numbers, `_` and `/` is one token, in lower case, where it has two characters
/// or more, and no token otherwise.
pub proof fn run_is_one_token(run: Seq<char>)
    requires
        forall|i: int|
            0 <= i < run.len() ==> alphanumeric(#[trigger] run[i]) || run[i] == '_' || run[i]
                == '/',
    ensures
        tokens(run) == if run.len() >= 2 {
            seq![lowercase(run)]
        } else {
            Seq::empty()
        },
{
    reveal(Seq::filter);
    let long = |s: Seq<char>| long_enough(s);
    let kept = run.map_values(|c: char| token_char(c));
    all_kept_is_one_stretch(run, kept);
    let cut = seq![run];
    assert(cut.drop_last() =~= Seq::empty());
    assert(cut.drop_last().filter(long) =~= Seq::empty());
    if run.len() >= 2 {
        assert(cut.filter(long) =~= seq![run]);
        assert(tokens(run) =~= seq![lowercase(run)]);
    } else {
        assert(cut.filter(long) =~= Seq::empty());
        assert(tokens(run) =~= Seq::empty());
    }
}

/// Any other character parts the tokens: those of the whole are those before it and those after it.
pub proof fn other_characters_part_the_tokens(a: Seq<char>, c: char, b: Seq<char>)
    requires
        !alphanumeric(c),
        c != '_',
        c != '/',
    ensures
        tokens(a + seq![c] + b) == tokens(a) + tokens(b),
{
    separator_parts_the_tokens(a, c, b);
    assert(a + seq![c] + b =~= a.push(c) + b);
}

/// In ASCII the letters and numbers are `a` to `z`, `A` to `Z` and `0` to `9`, and lower case is
/// what adds 32 to the capital letters and leaves everything else.
pub proof fn ascii_letters_and_numbers(c: char)
    requires
        c <= '\u{7f}',
    ensures
        alphanumeric(c) <==> 'a' <= c <= 'z' || 'A' <= c <= 'Z' || '0' <= c <= '9',
        lowercase(seq![c]).len() == 1,
        lowercase(seq![c])[0] as u32 == c as u32 + if 'A' <= c <= 'Z' {
            32int
        } else {
            0
        },
{
    assert(seq![c][0] == c);
    assert(ascii(seq![c]));
}

/// A text occurs in another exactly when the other is something, then the text, then something.
pub proof fn part_occurs_where_it_stands(part: Seq<char>, text: Seq<char>)
    ensures
        occurs(part, text) <==> exists|a: Seq<char>, b: Seq<char>| text == #[trigger] (a + part
            + b),
{
    if occurs(part, text) {
        let i = choose|i: int|
            0 <= i && i + part.len() <= text.len() && #[trigger] text.subrange(i, i + part.len())
                == part;
        let a = text.take(i);
        let b = text.skip(i + part.len());
        assert(a + part + b =~= text);
    }
    if exists|a: Seq<char>, b: Seq<char>| text == #[trigger] (a + part + b) {
        let (a, b) = choose|a: Seq<char>, b: Seq<char>| text == #[trigger] (a + part + b);
        let i = a.len() as int;
        assert(text.subrange(i, i + part.len()) =~= part);
    }
}

/// A query, in lower case, is about time exactly when one of these words occurs in it.
pub proof fn markers_of_time_are_these(text: Seq<char>)
    ensures
        has_temporal_marker(text) <==> {
            ||| occurs("quando"@, text)
            ||| occurs("antes"@, text)
            ||| occurs("depois"@, text)
            ||| occurs("últim"@, text)
            ||| occurs("ultimo"@, text)
            ||| occurs("ontem"@, text)
            ||| occurs("hoje"@, text)
            ||| occurs("recent"@, text)
            ||| occurs("previous"@, text)
            ||| occurs("last time"@, text)
            ||| occurs("earlier"@, text)
        },
{
    let list = temporal_markers();
    assert(list.len() == 11);
    assert(list[0] == "quando"@ && list[1] == "antes"@ && list[2] == "depois"@);
    assert(list[3] == "últim"@ && list[4] == "ultimo"@ && list[5] == "ontem"@);
    assert(list[6] == "hoje"@ && list[7] == "recent"@ && list[8] == "previous"@);
    assert(list[9] == "last time"@ && list[10] == "earlier"@);
}

/// A word about time marks a query wherever it stands in it.
pub proof fn marker_marks_wherever_it_stands(a: Seq<char>, marker: Seq<char>, b: Seq<char>)
    requires
        has_temporal_marker(marker),
    ensures
        has_temporal_marker(a + marker + b),
{
    let k = choose|k: int|
        0 <= k < temporal_markers().len() && occurs(#[trigger] temporal_markers()[k], marker);
    let word = temporal_markers()[k];
    part_occurs_where_it_stands(word, marker);
    let (x, y) = choose|x: Seq<char>, y: Seq<char>| marker == #[trigger] (x + word + y);
    part_occurs_where_it_stands(word, a + marker + b);
    assert(a + marker + b =~= (a + x) + word + (y + b));
    assert(occurs(temporal_markers()[k], a + marker + b));
}

/// Lists of strings stand for their texts, as they are.
pub proof fn strings_stand_for_their_texts(list: Seq<String>, slices: Seq<&str>, k: int)
    ensures
        texts(list).len() == list.len(),
        str_texts(slices).len() == slices.len(),
        0 <= k < list.len() ==> texts(list)[k] == list[k]@,
        0 <= k < slices.len() ==> str_texts(slices)[k] == slices[k]@,
{
}

/// Beyond ASCII the letters and numbers are those of Unicode, all of them.
pub proof fn letters_and_numbers_beyond_ascii(c: char)
    requires
        c > '\u{7f}',
    ensures
        alphanumeric(c) == unicode_alphanumeric(c),
{
}

proof fn ascii_ends_at_its_last_character(c: char)
    ensures
        is_ascii(c) <==> c <= '\u{7f}',
{
}

/// A text is lowered character by character where all are ASCII, and as Unicode has it where one, at
/// any place, is not.
pub proof fn texts_are_lowered_whole(text: Seq<char>, i: int)
    requires
        0 <= i < text.len(),
    ensures
        text[i] > '\u{7f}' ==> lowercase(text) == unicode_lowercase(text),
        (forall|k: int| 0 <= k < text.len() ==> #[trigger] text[k] <= '\u{7f}') ==> {
            &&& lowercase(text).len() == text.len()
            &&& lowercase(text)[i] as u32 == text[i] as u32 + if 'A' <= text[i] <= 'Z' {
                32int
            } else {
                0
            }
        },
{
    if text[i] > '\u{7f}' {
        ascii_ends_at_its_last_character(text[i]);
        assert(!is_ascii(text[i]));
    }
    if forall|k: int| 0 <= k < text.len() ==> #[trigger] text[k] <= '\u{7f}' {
        assert forall|k: int| 0 <= k < text.len() implies is_ascii(#[trigger] text[k]) by {
            ascii_ends_at_its_last_character(text[k]);
        }
        assert(ascii(text));
    }
}

} // verus!
