//! A bidirectional mapping between tokens and dense numeric identifiers.
use vstd::hash_map::StringHashMap;
use vstd::prelude::*;

use crate::text::is_scalar_value;
use crate::tokenizer::{char_codes, decode_codes, Tokenizer};
use crate::types::{TokenId, TokenRef, TokenVector};

verus! {

broadcast use vstd::hash_map::group_hash_map_axioms;

/// Maps tokens to unique identifiers and back.
///
/// Identifiers are handed out densely from 0 in order of first insertion; the mapper stores
/// each token's character codes under its identifier.
pub struct TokenMapper {
    /// Each known token, keyed by its text, to its identifier.
    token_map: StringHashMap<TokenId>,
    /// The character codes of each token, indexed by identifier.
    reverse_token_map: Vec<TokenVector>,
}

/// The characters with the given codes.
pub open spec fn codes_to_chars(codes: Seq<u32>) -> Seq<char> {
    codes.map_values(|c: u32| c as char)
}

/// Whether every code of `codes` is a Unicode scalar value.
pub open spec fn all_scalar_values(codes: Seq<u32>) -> bool {
    forall|i: int| 0 <= i < codes.len() ==> is_scalar_value(#[trigger] codes[i])
}

/// The position of `t` in `tokens`, where it occurs.
pub open spec fn position_in(tokens: Seq<Seq<char>>, t: Seq<char>) -> Option<TokenId> {
    if tokens.contains(t) {
        Some(tokens.index_of(t) as TokenId)
    } else {
        None
    }
}

/// Codes taken from characters are scalar values and turn back into the same characters.
pub proof fn lemma_char_codes_round_trip(s: Seq<char>)
    ensures
        all_scalar_values(char_codes(s)),
        codes_to_chars(char_codes(s)) == s,
        decode_codes(char_codes(s)) == s,
{
    assert forall|i: int| 0 <= i < s.len() implies is_scalar_value(
        #[trigger] char_codes(s)[i],
    ) by {
        vstd::utf8::char_is_scalar(s[i]);
    }
    assert forall|i: int| 0 <= i < s.len() implies #[trigger] codes_to_chars(char_codes(s))[i]
        == s[i] by {
        vstd::utf8::char_u32_cast(s[i], s[i] as u32);
    }
    assert(codes_to_chars(char_codes(s)) =~= s);
    lemma_decode_scalar_values(char_codes(s));
}

/// Decoding scalar values keeps every code.
pub proof fn lemma_decode_scalar_values(codes: Seq<u32>)
    requires
        all_scalar_values(codes),
    ensures
        decode_codes(codes) == codes_to_chars(codes),
    decreases codes.len(),
{
    if codes.len() > 0 {
        lemma_decode_scalar_values(codes.drop_last());
        assert(codes_to_chars(codes) =~= codes_to_chars(codes.drop_last()).push(
            codes.last() as char,
        ));
    }
}

/// Codes that are scalar values come from characters.
pub proof fn lemma_codes_to_chars_round_trip(codes: Seq<u32>)
    requires
        all_scalar_values(codes),
    ensures
        char_codes(codes_to_chars(codes)) == codes,
{
    assert forall|i: int| 0 <= i < codes.len() implies #[trigger] char_codes(
        codes_to_chars(codes),
    )[i] == codes[i] by {
        let c = codes[i] as char;
        assert(is_scalar_value(codes[i]));
    }
    assert(char_codes(codes_to_chars(codes)) =~= codes);
}

/// The tokens whose character codes are `codes`, indexed by identifier.
pub open spec fn tokens_of(codes: Seq<TokenVector>) -> Seq<Seq<char>> {
    codes.map_values(|v: TokenVector| codes_to_chars(v@))
}

/// Whether a token map and the character codes of the tokens agree: the codes are scalar
/// values, no token occurs twice, and the map gives each token its position.
pub open spec fn parts_consistent(token_map: Map<Seq<char>, TokenId>, codes: Seq<TokenVector>) -> bool {
    &&& forall|id: int| 0 <= id < codes.len() ==> all_scalar_values(#[trigger] codes[id]@)
    &&& tokens_of(codes).no_duplicates()
    &&& forall|t: Seq<char>| #[trigger] token_map.contains_key(t) <==> tokens_of(codes).contains(t)
    &&& forall|t: Seq<char>| #[trigger]
        token_map.contains_key(t) ==> token_map[t] < tokens_of(codes).len() && tokens_of(codes)[token_map[t] as int]
            == t
}

impl TokenMapper {
    /// The known tokens, indexed by identifier.
    pub closed spec fn tokens(&self) -> Seq<Seq<char>> {
        tokens_of(self.reverse_token_map@)
    }

    /// The mapper's internal consistency, which every mapper keeps.
    #[verifier::type_invariant]
    pub closed spec fn wf(&self) -> bool {
        parts_consistent(self.token_map@, self.reverse_token_map@)
    }

    /// The identifier of `t`, if the mapper knows it.
    pub open spec fn spec_token_id(&self, t: Seq<char>) -> Option<TokenId> {
        position_in(self.tokens(), t)
    }

    /// Creates an empty mapper.
    pub fn new() -> (mapper: Self)
        ensures
            mapper.wf(),
            mapper.tokens() == Seq::<Seq<char>>::empty(),
    {
        let mapper = TokenMapper { token_map: StringHashMap::new(), reverse_token_map: Vec::new() };
        assert(mapper.tokens() =~= Seq::<Seq<char>>::empty());
        mapper
    }

    /// Identifiers are positions in a sequence without repetitions.
    proof fn lemma_id_is_position(&self, t: Seq<char>)
        requires
            self.wf(),
            self.token_map@.contains_key(t),
        ensures
            self.spec_token_id(t) == Some(self.token_map@[t]),
    {
        let id = self.token_map@[t] as int;
        let tokens = self.tokens();
        assert(tokens[id] == t);
        assert(tokens.contains(t));
        let first = tokens.index_of(t);
        assert(tokens[first] == t);
        assert(first == id) by {
            if first != id {
                assert(tokens.no_duplicates());
            }
        }
    }

    /// Identifiers and tokens correspond one to one: the identifier found for a token names
    /// that token, every identifier below the token count is found for its own token, and a
    /// token without an identifier is unknown.
    pub proof fn law_ids_and_tokens_correspond(&self, t: Seq<char>, id: TokenId)
        requires
            self.wf(),
        ensures
            self.spec_token_id(t) == Some(id) ==> id < self.tokens().len() && self.tokens()[id as int]
                == t,
            id < self.tokens().len() ==> self.spec_token_id(self.tokens()[id as int]) == Some(id),
            self.spec_token_id(t) is None <==> !self.tokens().contains(t),
    {
        let tokens = self.tokens();
        assert(tokens.len() == self.reverse_token_map.len());
        if tokens.contains(t) {
            let first = tokens.index_of(t);
            assert(tokens[first] == t);
            assert(0 <= first < tokens.len());
        }
        if id < tokens.len() {
            let u = tokens[id as int];
            assert(tokens.contains(u));
            let first = tokens.index_of(u);
            assert(tokens[first] == u);
            assert(first == id) by {
                if first != id {
                    assert(tokens.no_duplicates());
                }
            }
        }
    }

    /// Adding a token, as `upsert_token` does, keeps the identifier of every known token, gives
    /// the token the identifier that `upsert_token` returns, and leaves it known, so that adding
    /// it again changes nothing.
    pub proof fn law_upsert_keeps_ids(before: TokenMapper, after: TokenMapper, t: Seq<char>, u: Seq<char>)
        requires
            before.wf(),
            after.wf(),
            after.tokens() == if before.tokens().contains(t) {
                before.tokens()
            } else {
                before.tokens().push(t)
            },
        ensures
            before.tokens().contains(u) ==> after.spec_token_id(u) == before.spec_token_id(u),
            after.spec_token_id(t) == if before.tokens().contains(t) {
                before.spec_token_id(t)
            } else {
                Some(before.tokens().len() as TokenId)
            },
            after.tokens().contains(t),
    {
        let old_tokens = before.tokens();
        let new_tokens = after.tokens();
        if old_tokens.contains(u) {
            let k = old_tokens.index_of(u);
            assert(old_tokens[k] == u);
            assert(new_tokens[k] == u);
            before.law_ids_and_tokens_correspond(u, k as TokenId);
            after.law_ids_and_tokens_correspond(u, k as TokenId);
        }
        if !old_tokens.contains(t) {
            assert(new_tokens[old_tokens.len() as int] == t);
            after.law_ids_and_tokens_correspond(t, old_tokens.len() as TokenId);
        } else {
            let k = old_tokens.index_of(t);
            assert(new_tokens[k] == t);
        }
    }

    /// `get_filtered_token_ids` gives the identifiers of the tokens that `get_filtered_tokens`
    /// keeps, in the same order.
    pub proof fn law_filtered_ids_are_ids_of_filtered_tokens(&self, tokens: Seq<Seq<char>>)
        requires
            self.wf(),
        ensures
            tokens.filter_map(|t: Seq<char>| self.spec_token_id(t)) == tokens.filter(
                |t: Seq<char>| self.tokens().contains(t),
            ).map_values(|t: Seq<char>| self.spec_token_id(t)->0),
        decreases tokens.len(),
    {
        let f = |t: Seq<char>| self.spec_token_id(t);
        let keep = |t: Seq<char>| self.tokens().contains(t);
        let id_of = |t: Seq<char>| self.spec_token_id(t)->0;
        if tokens.len() == 0 {
            reveal(Seq::filter);
            assert(tokens.filter(keep) =~= Seq::<Seq<char>>::empty());
            assert(tokens.filter_map(f) =~= Seq::<TokenId>::empty());
        } else {
            let p = tokens.drop_last();
            let t = tokens.last();
            self.law_filtered_ids_are_ids_of_filtered_tokens(p);
            assert(tokens =~= p.push(t));
            p.lemma_filter_push(t, keep);
            self.law_ids_and_tokens_correspond(t, 0);
            if keep(t) {
                assert(tokens.filter(keep).map_values(id_of) =~= p.filter(keep).map_values(id_of).push(
                    id_of(t),
                ));
                assert(tokens.filter_map(f) =~= p.filter_map(f) + seq![id_of(t)]);
            } else {
                assert(tokens.filter_map(f) =~= p.filter_map(f));
            }
        }
    }

    /// Adds `token` if it is new, and returns its identifier.
    ///
    /// A known token keeps its identifier; a new one gets the next identifier.
    pub fn upsert_token(&mut self, token: &str) -> (id: TokenId)
        ensures
            final(self).wf(),
            final(self).tokens() == if old(self).tokens().contains(token@) {
                old(self).tokens()
            } else {
                old(self).tokens().push(token@)
            },
            old(self).tokens().contains(token@) ==> Some(id) == old(self).spec_token_id(token@),
            !old(self).tokens().contains(token@) ==> id == old(self).tokens().len(),
            final(self).spec_token_id(token@) == Some(id),
    {
        proof {
            use_type_invariant(&*self);
        }
        match self.token_map.get(token) {
            Some(id) => {
                let id = *id;
                proof {
                    self.lemma_id_is_position(token@);
                }
                id
            },
            None => {
                let ghost old_tokens = self.tokens();
                let mut current = TokenMapper::new();
                std::mem::swap(self, &mut current);
                let TokenMapper { mut token_map, mut reverse_token_map } = current;
                let id = reverse_token_map.len();
                let codes = Tokenizer::token_to_charcode_vector(token);
                proof {
                    lemma_char_codes_round_trip(token@);
                }
                reverse_token_map.push(codes);
                token_map.insert(token.to_owned(), id);
                proof {
                    let tokens = tokens_of(reverse_token_map@);
                    assert(tokens =~= old_tokens.push(token@));
                    assert forall|a: int, b: int|
                        0 <= a < tokens.len() && 0 <= b < tokens.len() && a != b implies tokens[a]
                        != tokens[b] by {
                        if b == tokens.len() - 1 {
                            assert(old_tokens[a] == tokens[a]);
                            if tokens[a] == tokens[b] {
                                assert(old_tokens.contains(token@));
                            }
                        } else if a == tokens.len() - 1 {
                            assert(old_tokens[b] == tokens[b]);
                            if tokens[a] == tokens[b] {
                                assert(old_tokens.contains(token@));
                            }
                        } else {
                            assert(old_tokens[a] == tokens[a] && old_tokens[b] == tokens[b]);
                        }
                    }
                    assert forall|t: Seq<char>| #[trigger]
                        token_map@.contains_key(t) <==> tokens.contains(t) by {
                        if t == token@ {
                            assert(tokens[tokens.len() - 1] == t);
                        } else if tokens.contains(t) {
                            let k = choose|k: int| 0 <= k < tokens.len() && tokens[k] == t;
                            assert(old_tokens[k] == t);
                        } else if old_tokens.contains(t) {
                            let k = choose|k: int| 0 <= k < old_tokens.len() && old_tokens[k] == t;
                            assert(tokens[k] == t);
                        }
                    }
                    assert forall|t: Seq<char>| #[trigger]
                        token_map@.contains_key(t) implies token_map@[t] < tokens.len()
                        && tokens[token_map@[t] as int] == t by {
                        if t != token@ {
                            assert(old_tokens[token_map@[t] as int] == t);
                        }
                    }
                    assert forall|k: int| 0 <= k < reverse_token_map@.len() implies all_scalar_values(
                        #[trigger] reverse_token_map@[k]@,
                    ) by {
                        if k < reverse_token_map@.len() - 1 {
                            assert(all_scalar_values(current.reverse_token_map@[k]@));
                        }
                    }
                }
                *self = TokenMapper { token_map, reverse_token_map };
                proof {
                    self.lemma_id_is_position(token@);
                }
                id
            },
        }
    }

    /// The identifier of `token`, if the mapper knows it.
    pub fn get_token_id(&self, token: &TokenRef) -> (id: Option<TokenId>)
        ensures
            id == self.spec_token_id(token@),
    {
        proof {
            use_type_invariant(self);
        }
        match self.token_map.get(token) {
            Some(id) => {
                proof {
                    self.lemma_id_is_position(token@);
                }
                Some(*id)
            },
            None => None,
        }
    }

    /// The tokens of `tokens` that the mapper knows, in order.
    pub fn get_filtered_tokens<'a>(&'a self, tokens: Vec<&'a TokenRef>) -> (known: Vec<&'a TokenRef>)
        ensures
            known@.map_values(|t: &TokenRef| t@) == tokens@.map_values(|t: &TokenRef| t@).filter(
                |t: Seq<char>| self.tokens().contains(t),
            ),
    {
        proof {
            use_type_invariant(self);
        }
        let ghost views = tokens@.map_values(|t: &TokenRef| t@);
        let ghost keep = |t: Seq<char>| self.tokens().contains(t);
        let mut known: Vec<&'a TokenRef> = Vec::new();
        let mut i: usize = 0;
        while i < tokens.len()
            invariant
                i <= tokens@.len(),
                self.wf(),
                views == tokens@.map_values(|t: &TokenRef| t@),
                keep == (|t: Seq<char>| self.tokens().contains(t)),
                known@.map_values(|t: &TokenRef| t@) == views.take(i as int).filter(keep),
            decreases tokens@.len() - i,
        {
            proof {
                assert(views.take(i + 1) =~= views.take(i as int).push(views[i as int]));
                views.take(i as int).lemma_filter_push(views[i as int], keep);
            }
            let ghost before = known@;
            if self.get_token_id(tokens[i]).is_some() {
                known.push(tokens[i]);
                assert(known@.map_values(|t: &TokenRef| t@) =~= before.map_values(
                    |t: &TokenRef| t@,
                ).push(views[i as int]));
            }
            i = i + 1;
        }
        assert(views.take(tokens@.len() as int) =~= views);
        known
    }

    /// The identifiers of the tokens of `tokens` that the mapper knows, in order.
    pub fn get_filtered_token_ids<'a>(&'a self, tokens: Vec<&'a TokenRef>) -> (ids: Vec<TokenId>)
        ensures
            ids@ == tokens@.map_values(|t: &TokenRef| t@).filter_map(
                |t: Seq<char>| self.spec_token_id(t),
            ),
    {
        proof {
            use_type_invariant(self);
        }
        let ghost views = tokens@.map_values(|t: &TokenRef| t@);
        let ghost f = |t: Seq<char>| self.spec_token_id(t);
        let mut ids: Vec<TokenId> = Vec::new();
        let mut i: usize = 0;
        while i < tokens.len()
            invariant
                i <= tokens@.len(),
                self.wf(),
                views == tokens@.map_values(|t: &TokenRef| t@),
                f == (|t: Seq<char>| self.spec_token_id(t)),
                ids@ == views.take(i as int).filter_map(f),
            decreases tokens@.len() - i,
        {
            proof {
                views.lemma_filter_map_take_succ(f, i as int);
            }
            match self.get_token_id(tokens[i]) {
                Some(id) => {
                    ids.push(id);
                },
                None => {},
            }
            i = i + 1;
        }
        assert(views.take(tokens@.len() as int) =~= views);
        ids
    }

    /// The token with identifier `token_id`, if there is one.
    pub fn get_token_by_id(&self, token_id: TokenId) -> (token: Option<String>)
        ensures
            match token {
                Some(t) => token_id < self.tokens().len() && t@ == self.tokens()[token_id as int],
                None => token_id >= self.tokens().len(),
            },
    {
        proof {
            use_type_invariant(self);
        }
        if token_id < self.reverse_token_map.len() {
            let token = Tokenizer::charcode_vector_to_token(&self.reverse_token_map[token_id]);
            proof {
                lemma_decode_scalar_values(self.reverse_token_map@[token_id as int]@);
            }
            Some(token)
        } else {
            None
        }
    }

    /// The tokens with the given identifiers, `None` for an unknown identifier.
    pub fn get_tokens_by_ids(&self, token_ids: &[TokenId]) -> (tokens: Vec<Option<String>>)
        ensures
            tokens@.len() == token_ids@.len(),
            forall|i: int|
                0 <= i < token_ids@.len() ==> match #[trigger] tokens@[i] {
                    Some(t) => token_ids@[i] < self.tokens().len() && t@ == self.tokens()[
                        token_ids@[i] as int],
                    None => token_ids@[i] >= self.tokens().len(),
                },
    {
        proof {
            use_type_invariant(self);
        }
        let mut tokens: Vec<Option<String>> = Vec::new();
        let mut i: usize = 0;
        while i < token_ids.len()
            invariant
                i <= token_ids@.len(),
                self.wf(),
                tokens@.len() == i,
                forall|k: int|
                    0 <= k < i ==> match #[trigger] tokens@[k] {
                        Some(t) => token_ids@[k] < self.tokens().len() && t@ == self.tokens()[
                            token_ids@[k] as int],
                        None => token_ids@[k] >= self.tokens().len(),
                    },
            decreases token_ids@.len() - i,
        {
            tokens.push(self.get_token_by_id(token_ids[i]));
            i = i + 1;
        }
        tokens
    }

    /// The number of distinct tokens.
    pub fn get_token_count(&self) -> (count: usize)
        ensures
            count == self.tokens().len(),
    {
        proof {
            use_type_invariant(self);
        }
        self.reverse_token_map.len()
    }
}

} // verus!
