//! Spec functions over sequences shared by several modules, with their lemmas.
use vstd::prelude::*;

verus! {

/// The number of occurrences of `x` in `s`.
pub open spec fn count_in<A>(s: Seq<A>, x: A) -> nat
    decreases s.len(),
{
    if s.len() == 0 {
        0
    } else {
        count_in(s.drop_last(), x) + if s.last() == x { 1nat } else { 0nat }
    }
}

/// The elements of `s` in order of first appearance, each once.
pub open spec fn first_occurrences<A>(s: Seq<A>) -> Seq<A>
    decreases s.len(),
{
    if s.len() == 0 {
        Seq::empty()
    } else {
        let prefix = first_occurrences(s.drop_last());
        if s.drop_last().contains(s.last()) {
            prefix
        } else {
            prefix.push(s.last())
        }
    }
}

/// The views of a sequence of strings.
pub open spec fn string_views(s: Seq<String>) -> Seq<Seq<char>> {
    s.map_values(|t: String| t@)
}

/// `first_occurrences` keeps exactly the elements of its input, without repetition.
pub proof fn lemma_first_occurrences<A>(s: Seq<A>)
    ensures
        forall|x: A| first_occurrences(s).contains(x) <==> s.contains(x),
        first_occurrences(s).no_duplicates(),
        first_occurrences(s).len() <= s.len(),
    decreases s.len(),
{
    if s.len() > 0 {
        let p = s.drop_last();
        let fp = first_occurrences(p);
        let r = first_occurrences(s);
        lemma_first_occurrences(p);
        lemma_contains_push(p, s.last());
        assert(s =~= p.push(s.last()));
        lemma_contains_push(fp, s.last());
        assert forall|x: A| r.contains(x) <==> s.contains(x) by {
            assert(s.contains(x) <==> p.push(s.last()).contains(x));
            assert(s.contains(x) <==> (p.contains(x) || x == s.last()));
            assert(fp.contains(x) <==> p.contains(x));
            if p.contains(s.last()) {
                assert(r == fp);
            } else {
                assert(r == fp.push(s.last()));
                assert(r.contains(x) <==> (fp.contains(x) || x == s.last()));
            }
        }
        if !p.contains(s.last()) {
            lemma_contains_push(fp, s.last());
            assert(r == fp.push(s.last()));
            assert forall|a: int, b: int| 0 <= a < b < r.len() implies r[a] != r[b] by {
                if b == r.len() - 1 {
                    assert(fp[a] == r[a]);
                }
            }
        }
    }
}

/// Membership in a sequence extended by one element.
pub proof fn lemma_contains_push<A>(s: Seq<A>, a: A)
    ensures
        forall|x: A| s.push(a).contains(x) <==> (s.contains(x) || x == a),
{
    assert forall|x: A| s.push(a).contains(x) <==> (s.contains(x) || x == a) by {
        if s.push(a).contains(x) {
            let k = choose|k: int| 0 <= k < s.push(a).len() && s.push(a)[k] == x;
            if k < s.len() {
                assert(s[k] == x);
            }
        }
        if s.contains(x) {
            let k = choose|k: int| 0 <= k < s.len() && s[k] == x;
            assert(s.push(a)[k] == x);
        }
        if x == a {
            assert(s.push(a)[s.len() as int] == x);
        }
    }
}

/// Counting over an extended prefix adds at most the new element.
pub proof fn lemma_count_in_take_succ<A>(s: Seq<A>, i: int, x: A)
    requires
        0 <= i < s.len(),
    ensures
        count_in(s.take(i + 1), x) == count_in(s.take(i), x) + if s[i] == x { 1nat } else { 0nat },
{
    assert(s.take(i + 1).drop_last() =~= s.take(i));
}

/// Taking one more element extends `first_occurrences` by it exactly when it is new.
pub proof fn lemma_first_occurrences_take_succ<A>(s: Seq<A>, i: int)
    requires
        0 <= i < s.len(),
    ensures
        first_occurrences(s.take(i + 1)) == if s.take(i).contains(s[i]) {
            first_occurrences(s.take(i))
        } else {
            first_occurrences(s.take(i)).push(s[i])
        },
{
    assert(s.take(i + 1).drop_last() =~= s.take(i));
}

/// A count never exceeds the length of the sequence.
pub proof fn lemma_count_in_le_len<A>(s: Seq<A>, x: A)
    ensures
        count_in(s, x) <= s.len(),
    decreases s.len(),
{
    if s.len() > 0 {
        lemma_count_in_le_len(s.drop_last(), x);
    }
}

/// An element occurs in the sequence exactly when its count is positive.
pub proof fn lemma_count_in_pos<A>(s: Seq<A>, x: A)
    ensures
        count_in(s, x) > 0 <==> s.contains(x),
    decreases s.len(),
{
    if s.len() > 0 {
        let p = s.drop_last();
        lemma_count_in_pos(p, x);
        if p.contains(x) {
            let k = choose|k: int| 0 <= k < p.len() && p[k] == x;
            assert(s[k] == x);
        }
        if s.contains(x) && !p.contains(x) {
            let k = choose|k: int| 0 <= k < s.len() && s[k] == x;
            if k < s.len() - 1 {
                assert(p[k] == x);
            }
        }
        if s.last() == x {
            assert(s[s.len() - 1] == x);
        }
    }
}

/// A sequence without repetition is its own `first_occurrences`.
pub proof fn lemma_first_occurrences_of_distinct<A>(s: Seq<A>)
    requires
        s.no_duplicates(),
    ensures
        first_occurrences(s) == s,
    decreases s.len(),
{
    if s.len() > 0 {
        let p = s.drop_last();
        assert(p.no_duplicates()) by {
            assert forall|a: int, b: int| 0 <= a < p.len() && 0 <= b < p.len() && a != b implies p[a] != p[b] by {
                assert(p[a] == s[a] && p[b] == s[b]);
            }
        }
        lemma_first_occurrences_of_distinct(p);
        assert(!p.contains(s.last())) by {
            if p.contains(s.last()) {
                let k = choose|k: int| 0 <= k < p.len() && p[k] == s.last();
                assert(s[k] == s[s.len() - 1]);
            }
        }
        assert(s =~= p.push(s.last()));
    }
}

/// Deduplicating twice gives what deduplicating once gives (`dedup_vector` is idempotent).
pub proof fn law_dedup_is_idempotent<A>(s: Seq<A>)
    ensures
        first_occurrences(first_occurrences(s)) == first_occurrences(s),
{
    lemma_first_occurrences(s);
    lemma_first_occurrences_of_distinct(first_occurrences(s));
}

/// Where every element of every inner sequence satisfies `pred`, so does every element of the
/// flattened sequence.
pub proof fn lemma_flatten_all<A>(s: Seq<Seq<A>>, pred: spec_fn(A) -> bool)
    requires
        forall|j: int, m: int| 0 <= j < s.len() && 0 <= m < s[j].len() ==> pred(#[trigger] s[j][m]),
    ensures
        forall|k: int| 0 <= k < s.flatten().len() ==> pred(#[trigger] s.flatten()[k]),
    decreases s.len(),
{
    if s.len() > 0 {
        let rest = s.drop_first();
        assert forall|j: int, m: int| 0 <= j < rest.len() && 0 <= m < rest[j].len() implies pred(#[trigger] rest[j][m]) by {
            assert(rest[j] == s[j + 1]);
        }
        lemma_flatten_all(rest, pred);
        let f = s.flatten();
        assert(f == s.first() + rest.flatten());
        assert forall|k: int| 0 <= k < f.len() implies pred(#[trigger] f[k]) by {
            if k < s.first().len() {
                assert(f[k] == s[0][k]);
            } else {
                assert(f[k] == rest.flatten()[k - s.first().len()]);
            }
        }
    }
}

/// `filter_map` never lengthens a sequence.
pub proof fn lemma_filter_map_len<A, B>(s: Seq<A>, f: spec_fn(A) -> Option<B>)
    ensures
        s.filter_map(f).len() <= s.len(),
    decreases s.len(),
{
    if s.len() > 0 {
        lemma_filter_map_len(s.drop_last(), f);
    }
}

} // verus!
