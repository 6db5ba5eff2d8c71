//! Splitting text into normalised tokens.
use vstd::prelude::*;

use crate::text::{
    char_from_code, char_is_alphanumeric, char_is_lowercase, char_is_uppercase,
    char_is_whitespace, chars_to_string, is_alphanumeric_char, is_lowercase_char,
    is_scalar_value, is_uppercase_char, is_whitespace_char, str_to_chars, str_to_uppercase,
    uppercase_chars,
};
use crate::types::{Token, TokenVector};
use crate::utils::seq_facts::string_views;

verus! {

/// Splits text into words, the maximal runs of non-whitespace characters, and turns each word
/// into a normalised upper-case token or drops it.
pub struct Tokenizer {
    /// Keep a word only if its first remaining character is upper case.
    pub require_first_char_uppercase: bool,
    /// Keep a word only if it has an upper-case character and no lower-case one.
    pub require_all_uppercase: bool,
    /// Drop tokens that are common English words.
    pub filter_stop_words: bool,
}

/// The words found so far while scanning `text` from the left, and the word being read.
pub open spec fn split_state(text: Seq<char>) -> (Seq<Seq<char>>, Seq<char>)
    decreases text.len(),
{
    if text.len() == 0 {
        (Seq::empty(), Seq::empty())
    } else {
        let (words, current) = split_state(text.drop_last());
        if is_whitespace_char(text.last()) {
            if current.len() > 0 {
                (words.push(current), Seq::empty())
            } else {
                (words, Seq::empty())
            }
        } else {
            (words, current.push(text.last()))
        }
    }
}

/// Replacing a whitespace character by another leaves the scan state unchanged.
proof fn lemma_split_state_update(text: Seq<char>, i: int, c: char)
    requires
        0 <= i < text.len(),
        is_whitespace_char(text[i]),
        is_whitespace_char(c),
    ensures
        split_state(text.update(i, c)) == split_state(text),
    decreases text.len(),
{
    let u = text.update(i, c);
    if i == text.len() - 1 {
        assert(u.drop_last() =~= text.drop_last());
    } else {
        assert(u.drop_last() =~= text.drop_last().update(i, c));
        lemma_split_state_update(text.drop_last(), i, c);
        assert(u.last() == text.last());
    }
}

/// A second whitespace character after a first one leaves the scan state unchanged, whatever
/// follows.
proof fn lemma_split_state_repeated_whitespace(a: Seq<char>, w: char, w2: char, b: Seq<char>)
    requires
        is_whitespace_char(w),
        is_whitespace_char(w2),
    ensures
        split_state(a.push(w).push(w2) + b) == split_state(a.push(w) + b),
    decreases b.len(),
{
    if b.len() == 0 {
        assert(a.push(w).push(w2) + b =~= a.push(w).push(w2));
        assert(a.push(w) + b =~= a.push(w));
        assert(a.push(w).push(w2).drop_last() =~= a.push(w));
        assert(a.push(w).drop_last() =~= a);
    } else {
        lemma_split_state_repeated_whitespace(a, w, w2, b.drop_last());
        let x = a.push(w).push(w2) + b;
        let y = a.push(w) + b;
        assert(x.drop_last() =~= a.push(w).push(w2) + b.drop_last());
        assert(y.drop_last() =~= a.push(w) + b.drop_last());
        assert(x.last() == b.last() && y.last() == b.last());
    }
}

/// A text has at most as many words as characters.
pub proof fn lemma_split_words_len(text: Seq<char>)
    ensures
        split_words(text).len() <= text.len(),
{
    lemma_split_state_len(text);
}

/// The words found so far, with the word being read, number at most the characters read.
proof fn lemma_split_state_len(text: Seq<char>)
    ensures
        split_state(text).0.len() + (if split_state(text).1.len() > 0 { 1int } else { 0int }) <= text.len(),
    decreases text.len(),
{
    if text.len() > 0 {
        lemma_split_state_len(text.drop_last());
    }
}

/// The maximal runs of non-whitespace characters of `text`, in order.
pub open spec fn split_words(text: Seq<char>) -> Seq<Seq<char>> {
    let (words, current) = split_state(text);
    if current.len() > 0 {
        words.push(current)
    } else {
        words
    }
}

/// `w` without its trailing characters that are not alphanumeric.
pub open spec fn trim_trailing(w: Seq<char>) -> Seq<char>
    decreases w.len(),
{
    if w.len() > 0 && !is_alphanumeric_char(w.last()) {
        trim_trailing(w.drop_last())
    } else {
        w
    }
}

/// Whether `c` is an apostrophe (straight or typographic).
pub open spec fn is_apostrophe(c: char) -> bool {
    c == '\'' || c == '\u{2019}'
}

/// `w` without a possessive suffix `'s` or `'S`.
pub open spec fn strip_possessive(w: Seq<char>) -> Seq<char> {
    if w.len() >= 2 && is_apostrophe(w[w.len() - 2]) && (w.last() == 's' || w.last() == 'S') {
        w.take(w.len() - 2)
    } else {
        w
    }
}

/// The alphanumeric characters of a word once trailing punctuation and a possessive suffix are
/// removed.
pub open spec fn word_core(w: Seq<char>) -> Seq<char> {
    strip_possessive(trim_trailing(w)).filter(core_char())
}

/// The characters that a word core keeps.
pub open spec fn core_char() -> spec_fn(char) -> bool {
    |c: char| is_alphanumeric_char(c)
}

/// Whether some character of `s` is upper case.
pub open spec fn has_uppercase(s: Seq<char>) -> bool {
    exists|i: int| 0 <= i < s.len() && is_uppercase_char(#[trigger] s[i])
}

/// Whether some character of `s` is lower case.
pub open spec fn has_lowercase(s: Seq<char>) -> bool {
    exists|i: int| 0 <= i < s.len() && is_lowercase_char(#[trigger] s[i])
}

/// The common English words that text documents do not yield as tokens.
pub open spec fn stop_words() -> Seq<Seq<char>> {
    seq![
        seq!['A'],
        seq!['A', 'L', 'L'],
        seq!['A', 'N'],
        seq!['A', 'N', 'D'],
        seq!['A', 'R', 'E'],
        seq!['A', 'S'],
        seq!['A', 'T'],
        seq!['B', 'E'],
        seq!['B', 'U', 'T'],
        seq!['B', 'Y'],
        seq!['F', 'O', 'R'],
        seq!['F', 'R', 'O', 'M'],
        seq!['I', 'F'],
        seq!['I', 'N'],
        seq!['I', 'N', 'T', 'O'],
        seq!['I', 'S'],
        seq!['I', 'T'],
        seq!['I', 'T', 'S'],
        seq!['N', 'O'],
        seq!['N', 'O', 'T'],
        seq!['O', 'F'],
        seq!['O', 'N'],
        seq!['O', 'R'],
        seq!['S', 'O'],
        seq!['T', 'H', 'A', 'T'],
        seq!['T', 'H', 'E'],
        seq!['T', 'H', 'E', 'I', 'R'],
        seq!['T', 'H', 'E', 'N'],
        seq!['T', 'H', 'E', 'R', 'E'],
        seq!['T', 'H', 'E', 'S', 'E'],
        seq!['T', 'H', 'E', 'Y'],
        seq!['T', 'H', 'I', 'S'],
        seq!['T', 'H', 'O', 'S', 'E'],
        seq!['T', 'O'],
        seq!['W', 'A', 'S'],
        seq!['W', 'E', 'R', 'E'],
        seq!['W', 'I', 'L', 'L'],
        seq!['W', 'I', 'T', 'H'],
    ]
}

/// The character codes of a token.
pub open spec fn char_codes(s: Seq<char>) -> Seq<u32> {
    s.map_values(|c: char| c as u32)
}

/// The characters whose codes are given, skipping codes that are not Unicode scalar values.
pub open spec fn decode_codes(codes: Seq<u32>) -> Seq<char> {
    codes.filter_map(|c: u32| if is_scalar_value(c) { Some(c as char) } else { None })
}

/// The stop words, as vectors of characters.
fn stop_word_list() -> (words: Vec<Vec<char>>)
    ensures
        words@.len() == stop_words().len(),
        forall|i: int| 0 <= i < words@.len() ==> #[trigger] words@[i]@ == stop_words()[i],
{
    let words = vec![
        vec!['A'],
        vec!['A', 'L', 'L'],
        vec!['A', 'N'],
        vec!['A', 'N', 'D'],
        vec!['A', 'R', 'E'],
        vec!['A', 'S'],
        vec!['A', 'T'],
        vec!['B', 'E'],
        vec!['B', 'U', 'T'],
        vec!['B', 'Y'],
        vec!['F', 'O', 'R'],
        vec!['F', 'R', 'O', 'M'],
        vec!['I', 'F'],
        vec!['I', 'N'],
        vec!['I', 'N', 'T', 'O'],
        vec!['I', 'S'],
        vec!['I', 'T'],
        vec!['I', 'T', 'S'],
        vec!['N', 'O'],
        vec!['N', 'O', 'T'],
        vec!['O', 'F'],
        vec!['O', 'N'],
        vec!['O', 'R'],
        vec!['S', 'O'],
        vec!['T', 'H', 'A', 'T'],
        vec!['T', 'H', 'E'],
        vec!['T', 'H', 'E', 'I', 'R'],
        vec!['T', 'H', 'E', 'N'],
        vec!['T', 'H', 'E', 'R', 'E'],
        vec!['T', 'H', 'E', 'S', 'E'],
        vec!['T', 'H', 'E', 'Y'],
        vec!['T', 'H', 'I', 'S'],
        vec!['T', 'H', 'O', 'S', 'E'],
        vec!['T', 'O'],
        vec!['W', 'A', 'S'],
        vec!['W', 'E', 'R', 'E'],
        vec!['W', 'I', 'L', 'L'],
        vec!['W', 'I', 'T', 'H'],
    ];
    words
}

/// Whether two character vectors hold the same characters.
fn chars_equal(a: &Vec<char>, b: &Vec<char>) -> (equal: bool)
    ensures
        equal == (a@ == b@),
{
    if a.len() != b.len() {
        return false;
    }
    let mut i: usize = 0;
    while i < a.len()
        invariant
            i <= a@.len(),
            a@.len() == b@.len(),
            forall|k: int| 0 <= k < i ==> a@[k] == b@[k],
        decreases a@.len() - i,
    {
        if a[i] != b[i] {
            return false;
        }
        i = i + 1;
    }
    assert(a@ =~= b@);
    true
}

/// Whether `token` is one of the stop words.
fn is_stop_word(token: &Vec<char>) -> (found: bool)
    ensures
        found == stop_words().contains(token@),
{
    let words = stop_word_list();
    let mut i: usize = 0;
    while i < words.len()
        invariant
            i <= words@.len(),
            words@.len() == stop_words().len(),
            forall|k: int| 0 <= k < words@.len() ==> #[trigger] words@[k]@ == stop_words()[k],
            forall|k: int| 0 <= k < i ==> stop_words()[k] != token@,
        decreases words@.len() - i,
    {
        if chars_equal(&words[i], token) {
            assert(stop_words()[i as int] == token@);
            return true;
        }
        i = i + 1;
    }
    false
}

impl Tokenizer {
    /// Whether a word core satisfies this tokenizer's case requirements.
    pub open spec fn passes_case_rule(&self, core: Seq<char>) -> bool {
        &&& self.require_first_char_uppercase ==> core.len() > 0 && is_uppercase_char(core[0])
        &&& self.require_all_uppercase ==> has_uppercase(core) && !has_lowercase(core)
    }

    /// The token a word yields, if any.
    pub open spec fn token_of_word(&self, w: Seq<char>) -> Option<Seq<char>> {
        let core = word_core(w);
        if core.len() == 0 || !self.passes_case_rule(core) {
            None
        } else if self.filter_stop_words && stop_words().contains(uppercase_chars(core)) {
            None
        } else {
            Some(uppercase_chars(core))
        }
    }

    /// The tokens of `text`: one per word that yields a token, in order.
    pub open spec fn spec_tokenize(&self, text: Seq<char>) -> Seq<Seq<char>> {
        split_words(text).filter_map(self.word_token_fn())
    }

    /// `token_of_word` as a function value.
    pub open spec fn word_token_fn(&self) -> spec_fn(Seq<char>) -> Option<Seq<char>> {
        |w: Seq<char>| self.token_of_word(w)
    }

    /// The tokens of `text`, in order: see `spec_tokenize`.
    pub fn tokenize(&self, text: &str) -> (tokens: Vec<Token>)
        ensures
            string_views(tokens@) == self.spec_tokenize(text@),
    {
        let chars = str_to_chars(text);
        let mut tokens: Vec<Token> = Vec::new();
        let mut word: Vec<char> = Vec::new();
        let mut i: usize = 0;
        while i < chars.len()
            invariant
                i <= chars@.len(),
                chars@ == text@,
                word@ == split_state(chars@.take(i as int)).1,
                string_views(tokens@) == split_state(chars@.take(i as int)).0.filter_map(
                    self.word_token_fn(),
                ),
            decreases chars@.len() - i,
        {
            let ghost prefix = chars@.take(i as int);
            let ghost next = chars@.take(i + 1);
            assert(next.drop_last() =~= prefix);
            assert(next.last() == chars@[i as int]);
            let c = chars[i];
            if char_is_whitespace(c) {
                if word.len() > 0 {
                    let ghost words = split_state(prefix).0;
                    self.push_word_token(&word, &mut tokens);
                    assert(words.push(word@).drop_last() =~= words);
                    word = Vec::new();
                }
            } else {
                word.push(c);
            }
            i = i + 1;
        }
        assert(chars@.take(chars@.len() as int) =~= chars@);
        if word.len() > 0 {
            let ghost words = split_state(chars@).0;
            self.push_word_token(&word, &mut tokens);
            assert(words.push(word@).drop_last() =~= words);
        }
        tokens
    }

    /// Appends the token of `word`, if it yields one, to `tokens`.
    fn push_word_token(&self, word: &Vec<char>, tokens: &mut Vec<Token>)
        ensures
            string_views(final(tokens)@) == string_views(old(tokens)@) + match self.token_of_word(
                word@,
            ) {
                Some(t) => seq![t],
                None => Seq::<Seq<char>>::empty(),
            },
    {
        match self.word_token(word) {
            Some(t) => {
                tokens.push(t);
                assert(string_views(final(tokens)@) =~= string_views(old(tokens)@) + seq![
                    final(tokens)@.last()@,
                ]);
            },
            None => {
                assert(string_views(final(tokens)@) =~= string_views(old(tokens)@)
                    + Seq::<Seq<char>>::empty());
            },
        }
    }

    /// The token a word yields, if any: see `token_of_word`.
    pub fn word_token(&self, word: &Vec<char>) -> (token: Option<Token>)
        ensures
            match token {
                Some(t) => self.token_of_word(word@) == Some(t@),
                None => self.token_of_word(word@) is None,
            },
    {
        // Trailing characters that are not alphanumeric.
        let mut end = word.len();
        assert(word@.take(end as int) =~= word@);
        while end > 0 && !char_is_alphanumeric(word[end - 1])
            invariant
                end <= word@.len(),
                trim_trailing(word@) == trim_trailing(word@.take(end as int)),
            decreases end,
        {
            assert(word@.take(end as int).drop_last() =~= word@.take(end - 1));
            end = end - 1;
        }
        assert(trim_trailing(word@.take(end as int)) == word@.take(end as int)) by {
            if end > 0 {
                assert(word@.take(end as int).last() == word@[end - 1]);
            }
        }
        // A possessive suffix.
        if end >= 2 && (word[end - 2] == '\'' || word[end - 2] == '\u{2019}') && (word[end - 1]
            == 's' || word[end - 1] == 'S') {
            assert(word@.take(end as int).take(end - 2) =~= word@.take(end - 2));
            end = end - 2;
        }
        let ghost base = word@.take(end as int);
        assert(strip_possessive(trim_trailing(word@)) == base);
        // The alphanumeric characters.
        let mut core: Vec<char> = Vec::new();
        let mut j: usize = 0;
        while j < end
            invariant
                j <= end <= word@.len(),
                base == word@.take(end as int),
                core@ == base.take(j as int).filter(core_char()),
            decreases end - j,
        {
            proof {
                assert(base.take(j + 1) =~= base.take(j as int).push(base[j as int]));
                base.take(j as int).lemma_filter_push(base[j as int], core_char());
            }
            if char_is_alphanumeric(word[j]) {
                core.push(word[j]);
            }
            j = j + 1;
        }
        assert(base.take(end as int) =~= base);
        assert(core@ == word_core(word@));
        if core.len() == 0 {
            return None;
        }
        if self.require_first_char_uppercase && !char_is_uppercase(core[0]) {
            return None;
        }
        if self.require_all_uppercase {
            let mut has_upper = false;
            let mut k: usize = 0;
            while k < core.len()
                invariant
                    k <= core@.len(),
                    core@ == word_core(word@),
                    core@.len() > 0,
                    self.require_all_uppercase,
                    has_upper == exists|m: int| 0 <= m < k && is_uppercase_char(#[trigger] core@[m]),
                    forall|m: int| 0 <= m < k ==> !is_lowercase_char(#[trigger] core@[m]),
                decreases core@.len() - k,
            {
                if char_is_lowercase(core[k]) {
                    assert(has_lowercase(core@));
                    return None;
                }
                if char_is_uppercase(core[k]) {
                    has_upper = true;
                }
                k = k + 1;
            }
            if !has_upper {
                return None;
            }
        }
        assert(self.passes_case_rule(core@));
        let core_string = chars_to_string(&core);
        let upper = str_to_uppercase(core_string.as_str());
        if self.filter_stop_words {
            let upper_chars = str_to_chars(upper.as_str());
            if is_stop_word(&upper_chars) {
                return None;
            }
        }
        Some(upper)
    }

    /// A tokenizer that filters stop words never yields one, whatever the text.
    pub proof fn law_no_stop_word_tokens(&self, text: Seq<char>)
        requires
            self.filter_stop_words,
        ensures
            forall|i: int|
                0 <= i < self.spec_tokenize(text).len() ==> !stop_words().contains(
                    #[trigger] self.spec_tokenize(text)[i],
                ),
    {
        let words = split_words(text);
        let f = self.word_token_fn();
        assert forall|i: int| 0 <= i < self.spec_tokenize(text).len() implies !stop_words().contains(
            #[trigger] self.spec_tokenize(text)[i],
        ) by {
            let token = self.spec_tokenize(text)[i];
            assert(words.filter_map(f).contains(token));
            words.lemma_filter_map_contains(f, token);
            let w = choose|w: Seq<char>| #[trigger] words.contains(w) && f(w) == Some(token);
            assert(self.token_of_word(w) == Some(token));
        }
    }

    /// Whether `token` is the upper-case form of the core of a word of `text` that meets the
    /// tokenizer's case rule.
    pub open spec fn comes_from_a_word(&self, text: Seq<char>, token: Seq<char>) -> bool {
        exists|w: Seq<char>|
            #[trigger] split_words(text).contains(w) && word_core(w).len() > 0
                && self.passes_case_rule(word_core(w)) && token == uppercase_chars(word_core(w))
    }

    /// Every token is the upper-case form of the core of a word of the text that meets the
    /// tokenizer's case rule.
    pub proof fn law_tokens_are_upper_case_cores(&self, text: Seq<char>)
        ensures
            forall|i: int|
                0 <= i < self.spec_tokenize(text).len() ==> self.comes_from_a_word(
                    text,
                    #[trigger] self.spec_tokenize(text)[i],
                ),
    {
        let words = split_words(text);
        let f = self.word_token_fn();
        assert forall|i: int| 0 <= i < self.spec_tokenize(text).len() implies self.comes_from_a_word(
            text,
            #[trigger] self.spec_tokenize(text)[i],
        ) by {
            let token = self.spec_tokenize(text)[i];
            assert(words.filter_map(f).contains(token));
            words.lemma_filter_map_contains(f, token);
            let w = choose|w: Seq<char>| #[trigger] words.contains(w) && f(w) == Some(token);
            assert(self.token_of_word(w) == Some(token));
            assert(split_words(text).contains(w));
        }
    }

    /// Tokens do not depend on which whitespace character separates words: replacing a
    /// whitespace character of the text by another one gives the same tokens.
    pub proof fn law_whitespace_kind_is_irrelevant(&self, text: Seq<char>, i: int, c: char)
        requires
            0 <= i < text.len(),
            is_whitespace_char(text[i]),
            is_whitespace_char(c),
        ensures
            self.spec_tokenize(text.update(i, c)) == self.spec_tokenize(text),
    {
        lemma_split_state_update(text, i, c);
        assert(split_words(text.update(i, c)) == split_words(text));
    }

    /// A run of whitespace separates words as a single whitespace character does: repeating a
    /// whitespace character, or following it by another, gives the same tokens.
    pub proof fn law_repeated_whitespace_is_irrelevant(&self, a: Seq<char>, w: char, w2: char, b: Seq<char>)
        requires
            is_whitespace_char(w),
            is_whitespace_char(w2),
        ensures
            self.spec_tokenize(a.push(w).push(w2) + b) == self.spec_tokenize(a.push(w) + b),
    {
        lemma_split_state_repeated_whitespace(a, w, w2, b);
        assert(split_words(a.push(w).push(w2) + b) == split_words(a.push(w) + b));
    }

    /// The ticker symbol tokenizer.
    pub open spec fn ticker_symbol_parser_spec() -> Tokenizer {
        Tokenizer {
            require_first_char_uppercase: false,
            require_all_uppercase: true,
            filter_stop_words: false,
        }
    }

    /// The text document tokenizer.
    pub open spec fn text_doc_parser_spec(case_sensitive: bool) -> Tokenizer {
        Tokenizer {
            require_first_char_uppercase: case_sensitive,
            require_all_uppercase: false,
            filter_stop_words: true,
        }
    }

    /// A tokenizer for ticker symbols: words with upper-case letters and no lower-case ones,
    /// stop words kept.
    pub fn ticker_symbol_parser() -> (tokenizer: Tokenizer)
        ensures
            tokenizer == Tokenizer::ticker_symbol_parser_spec(),
    {
        Tokenizer {
            require_first_char_uppercase: false,
            require_all_uppercase: true,
            filter_stop_words: false,
        }
    }

    /// A tokenizer for text documents and company names: stop words dropped, and, when
    /// `case_sensitive`, only words that start with an upper-case character kept.
    pub fn text_doc_parser(case_sensitive: bool) -> (tokenizer: Tokenizer)
        ensures
            tokenizer == Tokenizer::text_doc_parser_spec(case_sensitive),
    {
        Tokenizer {
            require_first_char_uppercase: case_sensitive,
            require_all_uppercase: false,
            filter_stop_words: true,
        }
    }

    /// The character codes of a token.
    pub fn token_to_charcode_vector(token: &str) -> (codes: TokenVector)
        ensures
            codes@ == char_codes(token@),
    {
        let chars = str_to_chars(token);
        let mut codes: TokenVector = Vec::new();
        let mut i: usize = 0;
        while i < chars.len()
            invariant
                i <= chars@.len(),
                chars@ == token@,
                codes@ == char_codes(chars@.take(i as int)),
            decreases chars@.len() - i,
        {
            codes.push(chars[i] as u32);
            assert(char_codes(chars@.take(i + 1)) =~= char_codes(chars@.take(i as int)).push(
                chars@[i as int] as u32,
            ));
            i = i + 1;
        }
        assert(chars@.take(chars@.len() as int) =~= chars@);
        codes
    }

    /// The token spelled by character codes; codes that are not Unicode scalar values are
    /// skipped.
    pub fn charcode_vector_to_token(codes: &TokenVector) -> (token: Token)
        ensures
            token@ == decode_codes(codes@),
    {
        let ghost f = |c: u32| if is_scalar_value(c) { Some(c as char) } else { None };
        let mut chars: Vec<char> = Vec::new();
        let mut i: usize = 0;
        while i < codes.len()
            invariant
                i <= codes@.len(),
                f == (|c: u32| if is_scalar_value(c) { Some(c as char) } else { None }),
                chars@ == codes@.take(i as int).filter_map(f),
            decreases codes@.len() - i,
        {
            proof {
                codes@.lemma_filter_map_take_succ(f, i as int);
            }
            match char_from_code(codes[i]) {
                Some(c) => {
                    proof {
                        vstd::utf8::char_u32_cast(c, codes@[i as int]);
                    }
                    chars.push(c);
                },
                None => {},
            }
            i = i + 1;
        }
        assert(codes@.take(codes@.len() as int) =~= codes@);
        chars_to_string(&chars)
    }
}

} // verus!
