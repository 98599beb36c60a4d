//! Pairs of texts, and tables that hold them.
use vstd::prelude::*;

use crate::order::{distinct, lemma_distinct};
use crate::table::Table;

verus! {

/// Pairs as a map. Of two for one key the last counts.
pub open spec fn pair_map(pairs: Seq<(Seq<char>, Seq<char>)>) -> Map<Seq<char>, Seq<char>>
    decreases pairs.len(),
{
    if pairs.len() == 0 {
        Map::empty()
    } else {
        pair_map(pairs.drop_last()).insert(pairs.last().0, pairs.last().1)
    }
}

/// The keys of pairs.
pub open spec fn pair_keys(pairs: Seq<(Seq<char>, Seq<char>)>) -> Seq<Seq<char>> {
    pairs.map_values(|p: (Seq<char>, Seq<char>)| p.0)
}

/// A table of strings as a map.
pub open spec fn string_map(t: &Table<String>) -> Map<Seq<char>, Seq<char>> {
    t.map().map_values(|s: String| s@)
}

/// A table that holds pairs.
pub open spec fn holds_pairs(t: &Table<String>, pairs: Seq<(Seq<char>, Seq<char>)>) -> bool {
    &&& t.wf()
    &&& string_map(t) == pair_map(pairs)
    &&& t.key_list() == distinct(pair_keys(pairs))
}

/// Adds a pair to a table.
pub(crate) fn insert_pair(
    table: &mut Table<String>,
    from: String,
    to: String,
    Ghost(pairs): Ghost<Seq<(Seq<char>, Seq<char>)>>,
)
    requires
        holds_pairs(&*old(table), pairs),
    ensures
        holds_pairs(&*final(table), pairs.push((from@, to@))),
{
    let ghost all = pairs.push((from@, to@));
    let ghost before = *table;
    proof {
        lemma_distinct(pair_keys(pairs));
        assert(all.drop_last() =~= pairs);
        assert(pair_keys(all) =~= pair_keys(pairs).push(from@));
        assert(pair_keys(all).drop_last() =~= pair_keys(pairs));
    }
    table.insert(from, to);
    proof {
        assert(string_map(&*table) =~= string_map(&before).insert(from@, to@));
    }
}

/// Of pairs for one key the last counts.
pub proof fn law_last_pair_counts(pairs: Seq<(Seq<char>, Seq<char>)>, k: int)
    requires
        0 <= k < pairs.len(),
        forall|j: int| k < j < pairs.len() ==> (#[trigger] pairs[j]).0 != pairs[k].0,
    ensures
        pair_map(pairs).contains_key(pairs[k].0),
        pair_map(pairs)[pairs[k].0] == pairs[k].1,
    decreases pairs.len(),
{
    let rest = pairs.drop_last();
    if k < rest.len() {
        assert(pairs[pairs.len() - 1].0 != pairs[k].0);
        assert forall|j: int| k < j < rest.len() implies (#[trigger] rest[j]).0 != rest[k].0 by {
            assert(pairs[j].0 != pairs[k].0);
        }
        law_last_pair_counts(rest, k);
    }
}

/// The value of a key stands with it in one of the pairs.
pub proof fn law_pairs_are_from_the_list(pairs: Seq<(Seq<char>, Seq<char>)>)
    ensures
        forall|key: Seq<char>| #[trigger]
            pair_map(pairs).contains_key(key) ==> exists|k: int|
                0 <= k < pairs.len() && (#[trigger] pairs[k]) == (key, pair_map(pairs)[key]),
    decreases pairs.len(),
{
    if pairs.len() > 0 {
        let rest = pairs.drop_last();
        law_pairs_are_from_the_list(rest);
        assert forall|key: Seq<char>| #[trigger] pair_map(pairs).contains_key(key) implies exists|
            k: int,
        |
            0 <= k < pairs.len() && (#[trigger] pairs[k]) == (key, pair_map(pairs)[key]) by {
            if key == pairs.last().0 {
                assert(pairs[pairs.len() - 1] == (key, pair_map(pairs)[key]));
            } else {
                assert(pair_map(rest).contains_key(key));
                let k = choose|k: int|
                    0 <= k < rest.len() && (#[trigger] rest[k]) == (key, pair_map(rest)[key]);
                assert(pairs[k] == (key, pair_map(pairs)[key]));
            }
        }
    }
}

/// The last pair for a key.
pub proof fn lemma_last_with_key(pairs: Seq<(Seq<char>, Seq<char>)>, key: Seq<char>, at: int) -> (k:
    int)
    requires
        0 <= at < pairs.len(),
        pairs[at].0 == key,
    ensures
        at <= k < pairs.len(),
        pairs[k].0 == key,
        forall|j: int| k < j < pairs.len() ==> (#[trigger] pairs[j]).0 != key,
    decreases pairs.len() - at,
{
    if exists|j: int| at < j < pairs.len() && (#[trigger] pairs[j]).0 == key {
        let j = choose|j: int| at < j < pairs.len() && (#[trigger] pairs[j]).0 == key;
        lemma_last_with_key(pairs, key, j)
    } else {
        at
    }
}

} // verus!
