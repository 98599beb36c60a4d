//! The plan as a file.
use vstd::prelude::*;

use crate::json::{lemma_lookup, lemma_lookup_none, JsonView};
use crate::orphans::{DropView, KeepView, PartialView};
use crate::pairs::{
    law_last_pair_counts, law_pairs_are_from_the_list, lemma_last_with_key, pair_map,
};
use crate::plan::{PlanView, StatsView};
use crate::plan_json::{
    copies_in, drop_json, hashes_of, keep_json, listed, pairs_in, partial_json, plan_json,
    plan_pairs, rewrite_json, stats_json, store_paths_in, texts_in,
};
use crate::rewrites::RewriteView;
use crate::store::hash_of;

verus! {

// ---------------------------------------------------------------------------
// Writing
// ---------------------------------------------------------------------------

/// A list of texts.
pub open spec fn lists_texts(v: Option<JsonView>, texts: Seq<Seq<char>>) -> bool {
    &&& v matches Some(JsonView::List(list)) && list.len() == texts.len() && (forall|i: int|
        0 <= i < texts.len() ==> #[trigger] list[i] == JsonView::Text(texts[i]))
}

/// An entry of what is kept has a reason and a store path.
pub proof fn law_keep_entry(e: KeepView)
    ensures
        keep_json(e).keys() == Some(seq!["reason"@, "storePath"@]),
        keep_json(e).get("reason"@) == Some(JsonView::Text(e.reason@)),
        keep_json(e).get("storePath"@) == Some(JsonView::Text(e.store_path)),
{
    reveal_strlit("storePath");
    reveal_strlit("reason");
    assert("storePath"@.len() == 9);
    assert("reason"@.len() == 6);
    let m = keep_json(e)->Record_0;
    lemma_lookup(m, "reason"@, 0);
    lemma_lookup(m, "storePath"@, 1);
    assert(keep_json(e).keys()->Some_0 =~= seq!["reason"@, "storePath"@]);
}

/// An entry of what is dropped has a reason and a store path, and the SONAMEs for which
/// files of it are dropped, where there are any.
pub proof fn law_drop_entry(e: DropView)
    ensures
        drop_json(e).keys() == Some(
            if e.matched_sonames.len() > 0 {
                seq!["matchedSonames"@, "reason"@, "storePath"@]
            } else {
                seq!["reason"@, "storePath"@]
            },
        ),
        drop_json(e).get("reason"@) == Some(JsonView::Text(e.reason@)),
        drop_json(e).get("storePath"@) == Some(JsonView::Text(e.store_path)),
        e.matched_sonames.len() > 0 ==> lists_texts(
            drop_json(e).get("matchedSonames"@),
            e.matched_sonames,
        ),
        e.matched_sonames.len() == 0 ==> drop_json(e).get("matchedSonames"@) is None,
{
    reveal_strlit("storePath");
    reveal_strlit("reason");
    reveal_strlit("matchedSonames");
    assert("storePath"@.len() == 9);
    assert("reason"@.len() == 6);
    assert("matchedSonames"@.len() == 14);
    let m = drop_json(e)->Record_0;
    if e.matched_sonames.len() > 0 {
        lemma_lookup(m, "matchedSonames"@, 0);
        lemma_lookup(m, "reason"@, 1);
        lemma_lookup(m, "storePath"@, 2);
        assert(drop_json(e).keys()->Some_0 =~= seq!["matchedSonames"@, "reason"@, "storePath"@]);
    } else {
        lemma_lookup(m, "reason"@, 0);
        lemma_lookup(m, "storePath"@, 1);
        lemma_lookup_none(m, "matchedSonames"@);
        assert(drop_json(e).keys()->Some_0 =~= seq!["reason"@, "storePath"@]);
    }
}

/// An entry of what is kept in part has a store path, and the files of it that are dropped
/// and kept.
pub proof fn law_partial_entry(e: PartialView)
    ensures
        partial_json(e).keys() == Some(seq!["dropFiles"@, "keepFiles"@, "storePath"@]),
        lists_texts(partial_json(e).get("dropFiles"@), e.drop_files),
        lists_texts(partial_json(e).get("keepFiles"@), e.keep_files),
        partial_json(e).get("storePath"@) == Some(JsonView::Text(e.store_path)),
{
    reveal_strlit("storePath");
    reveal_strlit("dropFiles");
    reveal_strlit("keepFiles");
    assert("storePath"@.len() == 9);
    assert("dropFiles"@.len() == 9);
    assert("keepFiles"@.len() == 9);
    assert("dropFiles"@[0] != "keepFiles"@[0]);
    assert("dropFiles"@[0] != "storePath"@[0]);
    assert("keepFiles"@[0] != "storePath"@[0]);
    let m = partial_json(e)->Record_0;
    lemma_lookup(m, "dropFiles"@, 0);
    lemma_lookup(m, "keepFiles"@, 1);
    lemma_lookup(m, "storePath"@, 2);
    assert(partial_json(e).keys()->Some_0 =~= seq!["dropFiles"@, "keepFiles"@, "storePath"@]);
}

/// An entry of what is rewritten has the path, what is to stand in its place, what that is
/// for, and the file that refers to the path, where there is one.
pub proof fn law_rewrite_entry(r: RewriteView)
    ensures
        rewrite_json(r).keys() == Some(
            if r.referenced_by is Some {
                seq!["from"@, "referencedBy"@, "to"@, "type"@]
            } else {
                seq!["from"@, "to"@, "type"@]
            },
        ),
        rewrite_json(r).get("from"@) == Some(JsonView::Text(r.from)),
        rewrite_json(r).get("to"@) == Some(JsonView::Text(r.to)),
        rewrite_json(r).get("type"@) == Some(JsonView::Text(r.kind@)),
        r.referenced_by is None ==> rewrite_json(r).get("referencedBy"@) is None,
        r.referenced_by matches Some(file) ==> rewrite_json(r).get("referencedBy"@) == Some(
            JsonView::Text(file),
        ),
{
    reveal_strlit("from");
    reveal_strlit("to");
    reveal_strlit("type");
    reveal_strlit("referencedBy");
    assert("from"@.len() == 4);
    assert("to"@.len() == 2);
    assert("type"@.len() == 4);
    assert("referencedBy"@.len() == 12);
    assert("from"@[0] != "type"@[0]);
    let m = rewrite_json(r)->Record_0;
    lemma_lookup(m, "from"@, 0);
    if r.referenced_by is Some {
        lemma_lookup(m, "referencedBy"@, 1);
        lemma_lookup(m, "to"@, 2);
        lemma_lookup(m, "type"@, 3);
        assert(rewrite_json(r).keys()->Some_0 =~= seq!["from"@, "referencedBy"@, "to"@, "type"@]);
    } else {
        lemma_lookup(m, "to"@, 1);
        lemma_lookup(m, "type"@, 2);
        lemma_lookup_none(m, "referencedBy"@);
        assert(rewrite_json(r).keys()->Some_0 =~= seq!["from"@, "to"@, "type"@]);
    }
}

/// The numbers of a plan.
pub proof fn law_stats(s: StatsView, kept_paths: nat)
    requires
        kept_paths <= u64::MAX,
    ensures
        stats_json(s, kept_paths).keys() == Some(
            seq![
                "closurePaths"@,
                "closureSizeBytes"@,
                "dedupRatio"@,
                "keptPaths"@,
                "keptSizeBytes"@,
            ],
        ),
        stats_json(s, kept_paths).get("closurePaths"@) matches Some(JsonView::Number(n)) && n
            == s.closure_paths,
        stats_json(s, kept_paths).get("closureSizeBytes"@) == Some(
            JsonView::Number(s.closure_size),
        ),
        stats_json(s, kept_paths).get("dedupRatio"@) == Some(JsonView::Text(s.dedup_ratio)),
        stats_json(s, kept_paths).get("keptPaths"@) matches Some(JsonView::Number(n)) && n
            == kept_paths,
        stats_json(s, kept_paths).get("keptSizeBytes"@) == Some(JsonView::Number(s.kept_size)),
{
    reveal_strlit("closurePaths");
    reveal_strlit("closureSizeBytes");
    reveal_strlit("dedupRatio");
    reveal_strlit("keptPaths");
    reveal_strlit("keptSizeBytes");
    assert("closurePaths"@.len() == 12);
    assert("closureSizeBytes"@.len() == 16);
    assert("dedupRatio"@.len() == 10);
    assert("keptPaths"@.len() == 9);
    assert("keptSizeBytes"@.len() == 13);
    let v = stats_json(s, kept_paths);
    let m = v->Record_0;
    lemma_lookup(m, "closurePaths"@, 0);
    lemma_lookup(m, "closureSizeBytes"@, 1);
    lemma_lookup(m, "dedupRatio"@, 2);
    lemma_lookup(m, "keptPaths"@, 3);
    lemma_lookup(m, "keptSizeBytes"@, 4);
    assert(v.keys()->Some_0 =~= seq![
        "closurePaths"@,
        "closureSizeBytes"@,
        "dedupRatio"@,
        "keptPaths"@,
        "keptSizeBytes"@,
    ]);
}

/// A written plan has its lists entry by entry, the package, the runtime and the numbers.
/// The number of kept store paths counts those that are kept whole or in part.
pub proof fn law_plan_members(p: PlanView)
    ensures
        plan_json(p).keys() == Some(
            seq!["drop"@, "keep"@, "package"@, "partial"@, "rewrites"@, "runtime"@, "stats"@],
        ),
        plan_json(p).get("package"@) == Some(JsonView::Text(p.package)),
        plan_json(p).get("runtime"@) == Some(JsonView::Text(p.runtime)),
        plan_json(p).get("stats"@) == Some(
            stats_json(p.stats, p.lists.keep.len() + p.lists.partial.len()),
        ),
        plan_json(p).get("drop"@) matches Some(JsonView::List(list)) && list.len()
            == p.lists.drop.len() && (forall|i: int|
            0 <= i < list.len() ==> #[trigger] list[i] == drop_json(p.lists.drop[i])),
        plan_json(p).get("keep"@) matches Some(JsonView::List(list)) && list.len()
            == p.lists.keep.len() && (forall|i: int|
            0 <= i < list.len() ==> #[trigger] list[i] == keep_json(p.lists.keep[i])),
        plan_json(p).get("partial"@) matches Some(JsonView::List(list)) && list.len()
            == p.lists.partial.len() && (forall|i: int|
            0 <= i < list.len() ==> #[trigger] list[i] == partial_json(p.lists.partial[i])),
        plan_json(p).get("rewrites"@) matches Some(JsonView::List(list)) && list.len()
            == p.lists.rewrites.len() && (forall|i: int|
            0 <= i < list.len() ==> #[trigger] list[i] == rewrite_json(p.lists.rewrites[i])),
{
    reveal_strlit("drop");
    reveal_strlit("keep");
    reveal_strlit("package");
    reveal_strlit("partial");
    reveal_strlit("rewrites");
    reveal_strlit("runtime");
    reveal_strlit("stats");
    assert("drop"@.len() == 4);
    assert("keep"@.len() == 4);
    assert("package"@.len() == 7);
    assert("partial"@.len() == 7);
    assert("rewrites"@.len() == 8);
    assert("runtime"@.len() == 7);
    assert("stats"@.len() == 5);
    assert("drop"@[0] != "keep"@[0]);
    assert("package"@[2] != "partial"@[2]);
    assert("package"@[0] != "runtime"@[0]);
    assert("partial"@[0] != "runtime"@[0]);
    let m = plan_json(p)->Record_0;
    lemma_lookup(m, "drop"@, 0);
    lemma_lookup(m, "keep"@, 1);
    lemma_lookup(m, "package"@, 2);
    lemma_lookup(m, "partial"@, 3);
    lemma_lookup(m, "rewrites"@, 4);
    lemma_lookup(m, "runtime"@, 5);
    lemma_lookup(m, "stats"@, 6);
    assert(plan_json(p).keys()->Some_0 =~= seq![
        "drop"@,
        "keep"@,
        "package"@,
        "partial"@,
        "rewrites"@,
        "runtime"@,
        "stats"@,
    ]);
}

// ---------------------------------------------------------------------------
// Reading
// ---------------------------------------------------------------------------

/// A list of a plan that is missing is empty.
pub proof fn law_listed(plan: JsonView, key: Seq<char>)
    ensures
        plan.get(key) matches Some(JsonView::List(list)) ==> listed(plan, key) == list,
        !(plan.get(key) matches Some(JsonView::List(list))) ==> listed(plan, key).len() == 0,
{
}

/// A text under a key.
pub open spec fn has_text_under(v: JsonView, key: Seq<char>) -> bool {
    v.get(key) is Some && v.get(key)->Some_0 is Text
}

/// The text under a key.
pub open spec fn text_under(v: JsonView, key: Seq<char>) -> Seq<char> {
    v.get(key)->Some_0->Text_0
}

/// What is read from lists of a plan: the texts under `storePath`, and the pairs of texts
/// under `from` and `to`, of the entries that have them, in order.
pub proof fn law_entries_are_read(list: Seq<JsonView>)
    ensures
        texts_in(list) == list.filter(|v: JsonView| v is Text).map_values(|v: JsonView| v->Text_0),
        store_paths_in(list) == list.filter(
            |v: JsonView| has_text_under(v, "storePath"@),
        ).map_values(|v: JsonView| text_under(v, "storePath"@)),
        pairs_in(list) == list.filter(
            |v: JsonView| has_text_under(v, "from"@) && has_text_under(v, "to"@),
        ).map_values(|v: JsonView| (text_under(v, "from"@), text_under(v, "to"@))),
        copies_in(list) == list.filter(
            |v: JsonView| has_text_under(v, "storePath"@),
        ).map_values(
            |v: JsonView| (text_under(v, "storePath"@), texts_in(listed(v, "keepFiles"@))),
        ),
    decreases list.len(),
{
    reveal(Seq::filter);
    let is_text = |v: JsonView| v is Text;
    let has_path = |v: JsonView| has_text_under(v, "storePath"@);
    let has_pair = |v: JsonView| has_text_under(v, "from"@) && has_text_under(v, "to"@);
    let text = |v: JsonView| v->Text_0;
    let path = |v: JsonView| text_under(v, "storePath"@);
    let pair = |v: JsonView| (text_under(v, "from"@), text_under(v, "to"@));
    let copy = |v: JsonView| (text_under(v, "storePath"@), texts_in(listed(v, "keepFiles"@)));
    if list.len() > 0 {
        law_entries_are_read(list.drop_last());
        let v = list.last();
        assert(is_text(v) <==> v.text() is Some);
        assert(has_path(v) <==> v.text_at("storePath"@) is Some);
        assert(has_pair(v) <==> v.text_at("from"@) is Some && v.text_at("to"@) is Some);
    }
    assert(texts_in(list) =~= list.filter(is_text).map_values(text));
    assert(store_paths_in(list) =~= list.filter(has_path).map_values(path));
    assert(pairs_in(list) =~= list.filter(has_pair).map_values(pair));
    assert(copies_in(list) =~= list.filter(has_path).map_values(copy));
}

/// What is rewritten by a plan: what it keeps goes below `/app`, and what it lists
/// otherwise as rewritten goes where the last of its entries says. Nothing else is
/// rewritten.
pub proof fn law_rewrite_map(plan: JsonView, path: Seq<char>, k: int)
    ensures
        ({
            let keep = store_paths_in(listed(plan, "keep"@));
            let partial = store_paths_in(listed(plan, "partial"@));
            let pairs = pairs_in(listed(plan, "rewrites"@));
            let map = pair_map(plan_pairs(plan));
            &&& keep.contains(path) || partial.contains(path) ==> map.contains_key(path)
                && map[path] == "/app"@ + path
            &&& !keep.contains(path) && !partial.contains(path) && 0 <= k < pairs.len()
                && pairs[k].0 == path && (forall|j: int|
                k < j < pairs.len() ==> (#[trigger] pairs[j]).0 != path) ==> map.contains_key(path)
                && map[path] == pairs[k].1
            &&& map.contains_key(path) ==> keep.contains(path) || partial.contains(path)
                || exists|j: int| 0 <= j < pairs.len() && (#[trigger] pairs[j]).0 == path
        }),
{
    let keep = store_paths_in(listed(plan, "keep"@));
    let partial = store_paths_in(listed(plan, "partial"@));
    let pairs = pairs_in(listed(plan, "rewrites"@));
    let all = plan_pairs(plan);
    let map = pair_map(all);
    let n = pairs.len() as int;
    let m = n + keep.len();
    assert forall|j: int| n <= j < m implies #[trigger] all[j] == (
        keep[j - n],
        "/app"@ + keep[j - n],
    ) by {}
    assert forall|j: int| m <= j < all.len() implies #[trigger] all[j] == (
        partial[j - m],
        "/app"@ + partial[j - m],
    ) by {}
    if keep.contains(path) || partial.contains(path) {
        let at = if partial.contains(path) {
            m + partial.index_of(path)
        } else {
            n + keep.index_of(path)
        };
        assert(all[at].0 == path);
        let last = lemma_last_with_key(all, path, at);
        law_last_pair_counts(all, last);
        assert(all[last].1 == "/app"@ + path);
    } else {
        assert forall|j: int| n <= j < all.len() implies (#[trigger] all[j]).0 != path by {
            if j < m {
                assert(keep.contains(keep[j - n]));
            } else {
                assert(partial.contains(partial[j - m]));
            }
        }
        if 0 <= k < n && pairs[k].0 == path && (forall|j: int|
            k < j < n ==> (#[trigger] pairs[j]).0 != path) {
            assert(all[k] == pairs[k]);
            assert forall|j: int| k < j < all.len() implies (#[trigger] all[j]).0 != all[k].0 by {
                if j < n {
                    assert(all[j] == pairs[j]);
                }
            }
            law_last_pair_counts(all, k);
        }
        if map.contains_key(path) {
            law_pairs_are_from_the_list(all);
            let j = choose|j: int| 0 <= j < all.len() && (#[trigger] all[j]) == (path, map[path]);
            assert(j < n);
            assert(pairs[j].0 == path);
        }
    }
}

/// The hashes of store paths are those of each of them.
pub proof fn law_hashes(paths: Seq<Seq<char>>, hash: Seq<char>)
    ensures
        hashes_of(paths).contains(hash) <==> exists|i: int|
            0 <= i < paths.len() && hash_of(#[trigger] paths[i]) == hash,
{
    let all = paths.map_values(|path: Seq<char>| hash_of(path));
    if hashes_of(paths).contains(hash) {
        let i = all.index_of(hash);
        assert(hash_of(paths[i]) == hash);
    }
    if exists|i: int| 0 <= i < paths.len() && hash_of(#[trigger] paths[i]) == hash {
        let i = choose|i: int| 0 <= i < paths.len() && hash_of(#[trigger] paths[i]) == hash;
        assert(all[i] == hash);
    }
}

} // verus!
