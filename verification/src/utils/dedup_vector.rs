use vstd::prelude::*;

use crate::types::TickerSymbol;
use crate::utils::seq_facts::{
    first_occurrences, lemma_first_occurrences, lemma_first_occurrences_take_succ, string_views,
};

verus! {

/// Whether `items` holds a string equal to `item`.
pub fn contains_string(items: &Vec<TickerSymbol>, item: &TickerSymbol) -> (found: bool)
    ensures
        found == string_views(items@).contains(item@),
{
    let ghost views = string_views(items@);
    let mut j: usize = 0;
    while j < items.len()
        invariant
            j <= items@.len(),
            views == string_views(items@),
            forall|k: int| 0 <= k < j ==> views[k] != item@,
        decreases items@.len() - j,
    {
        if items[j] == *item {
            assert(views[j as int] == item@);
            return true;
        }
        j = j + 1;
    }
    assert(!views.contains(item@)) by {
        if views.contains(item@) {
            let k = choose|k: int| 0 <= k < views.len() && views[k] == item@;
        }
    }
    false
}

/// Removes repeated ticker symbols while keeping the order of first appearance.
pub fn dedup_vector(vec: &[TickerSymbol]) -> (unique: Vec<TickerSymbol>)
    ensures
        string_views(unique@) == first_occurrences(string_views(vec@)),
{
    let ghost views = string_views(vec@);
    let mut unique: Vec<TickerSymbol> = Vec::new();
    let mut i: usize = 0;
    while i < vec.len()
        invariant
            i <= vec@.len(),
            views == string_views(vec@),
            string_views(unique@) == first_occurrences(views.take(i as int)),
        decreases vec@.len() - i,
    {
        proof {
            lemma_first_occurrences(views.take(i as int));
            lemma_first_occurrences_take_succ(views, i as int);
        }
        assert(views[i as int] == vec@[i as int]@);
        if !contains_string(&unique, &vec[i]) {
            unique.push(vec[i].clone());
            assert(string_views(unique@) =~= first_occurrences(views.take(i as int)).push(
                views[i as int],
            ));
        }
        i = i + 1;
    }
    assert(views.take(vec@.len() as int) =~= views);
    unique
}

} // verus!
