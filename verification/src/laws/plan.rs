//! The lists of a plan.
use vstd::prelude::*;

use crate::classify::{ClassView, Classification};
use crate::json::JsonView;
use crate::order::sorted;
use crate::orphans::{drop_paths, keep_paths, partial_paths, DropView, KeepView, PartialView};
use crate::plan::{all_added, first_rewrites, rewrite_froms, rewrites_path, runtime_name, sum_of};
use crate::rewrites::RewriteView;

verus! {

/// The store paths of a closure are listed by what becomes of them, in order: what is kept
/// with the reason, what is dropped with the reason and the SONAMEs, and what is kept in
/// part with its files. The rewrites are those of the store paths that are not kept whole.
pub proof fn law_lists(results: Seq<ClassView>)
    ensures
        all_added(results).keep == results.filter(
            |c: ClassView| c.classification == Classification::Keep,
        ).map_values(|c: ClassView| KeepView { store_path: c.store_path, reason: c.reason }),
        all_added(results).drop == results.filter(
            |c: ClassView| c.classification == Classification::Drop,
        ).map_values(
            |c: ClassView|
                DropView {
                    store_path: c.store_path,
                    reason: c.reason,
                    matched_sonames: sorted(c.matched_sonames),
                },
        ),
        all_added(results).partial == results.filter(
            |c: ClassView| c.classification == Classification::Partial,
        ).map_values(
            |c: ClassView|
                PartialView {
                    store_path: c.store_path,
                    keep_files: sorted(c.kept_files),
                    drop_files: sorted(c.dropped_files),
                },
        ),
        all_added(results).rewrites == results.filter(
            |c: ClassView| c.classification != Classification::Keep,
        ).map_values(|c: ClassView| c.rewrites).flatten_alt(),
    decreases results.len(),
{
    reveal(Seq::filter);
    let is_keep = |c: ClassView| c.classification == Classification::Keep;
    let is_drop = |c: ClassView| c.classification == Classification::Drop;
    let is_partial = |c: ClassView| c.classification == Classification::Partial;
    let is_other = |c: ClassView| c.classification != Classification::Keep;
    let to_keep = |c: ClassView| KeepView { store_path: c.store_path, reason: c.reason };
    let to_drop = |c: ClassView|
        DropView {
            store_path: c.store_path,
            reason: c.reason,
            matched_sonames: sorted(c.matched_sonames),
        };
    let to_partial = |c: ClassView|
        PartialView {
            store_path: c.store_path,
            keep_files: sorted(c.kept_files),
            drop_files: sorted(c.dropped_files),
        };
    let of = |c: ClassView| c.rewrites;
    let lists = all_added(results);
    if results.len() > 0 {
        let rest = results.drop_last();
        law_lists(rest);
        let others = rest.filter(is_other).map_values(of);
        let all = results.filter(is_other).map_values(of);
        if is_other(results.last()) {
            assert(all =~= others.push(results.last().rewrites));
            assert(all.drop_last() =~= others);
        } else {
            assert(all =~= others);
        }
    }
    assert(lists.keep =~= results.filter(is_keep).map_values(to_keep));
    assert(lists.drop =~= results.filter(is_drop).map_values(to_drop));
    assert(lists.partial =~= results.filter(is_partial).map_values(to_partial));
    assert(lists.rewrites =~= results.filter(is_other).map_values(of).flatten_alt());
}

/// The paths of entries are those of each of them, in order.
pub proof fn law_entry_paths(
    keep: Seq<KeepView>,
    drop: Seq<DropView>,
    partial: Seq<PartialView>,
    rewrites: Seq<RewriteView>,
)
    ensures
        keep_paths(keep).len() == keep.len(),
        forall|i: int| 0 <= i < keep.len() ==> #[trigger] keep_paths(keep)[i] == keep[i].store_path,
        drop_paths(drop).len() == drop.len(),
        forall|i: int| 0 <= i < drop.len() ==> #[trigger] drop_paths(drop)[i] == drop[i].store_path,
        partial_paths(partial).len() == partial.len(),
        forall|i: int|
            0 <= i < partial.len() ==> #[trigger] partial_paths(partial)[i]
                == partial[i].store_path,
        rewrite_froms(rewrites).len() == rewrites.len(),
        forall|i: int|
            0 <= i < rewrites.len() ==> #[trigger] rewrite_froms(rewrites)[i] == rewrites[i].from,
{
}

/// The first rewrite of a path.
pub open spec fn first_rewrite(list: Seq<RewriteView>, k: int) -> bool {
    &&& 0 <= k < list.len()
    &&& forall|j: int| 0 <= j < k ==> (#[trigger] list[j]).from != list[k].from
}

/// `at` holds the places of the first rewrites of paths, in order.
pub open spec fn first_rewrites_at(at: Seq<int>, list: Seq<RewriteView>) -> bool {
    &&& forall|a: int, b: int| 0 <= a < b < at.len() ==> #[trigger] at[a] < #[trigger] at[b]
    &&& forall|k: int| #[trigger] at.contains(k) <==> first_rewrite(list, k)
}

/// Of the rewrites of a path the first counts, and those that count stay in order.
pub proof fn law_first_rewrite_counts(list: Seq<RewriteView>)
    ensures
        exists|at: Seq<int>| #[trigger]
            first_rewrites_at(at, list) && first_rewrites(list) == at.map_values(|k: int| list[k]),
{
    let at = lemma_first_rewrites(list);
    assert(first_rewrites_at(at, list));
}

proof fn lemma_first_rewrites(list: Seq<RewriteView>) -> (at: Seq<int>)
    ensures
        first_rewrites_at(at, list),
        first_rewrites(list) == at.map_values(|k: int| list[k]),
    decreases list.len(),
{
    if list.len() == 0 {
        let at = Seq::<int>::empty();
        assert(first_rewrites(list) =~= at.map_values(|k: int| list[k]));
        at
    } else {
        let rest = list.drop_last();
        let n = list.len() - 1;
        let at0 = lemma_first_rewrites(rest);
        assert forall|k: int| 0 <= k < n implies first_rewrite(list, k) == first_rewrite(rest, k) by {
            assert(rest[k] == list[k]);
            if first_rewrite(list, k) {
                assert forall|j: int| 0 <= j < k implies (#[trigger] rest[j]).from
                    != rest[k].from by {
                    assert(list[j].from != list[k].from);
                }
            }
            if first_rewrite(rest, k) {
                assert forall|j: int| 0 <= j < k implies (#[trigger] list[j]).from
                    != list[k].from by {
                    assert(rest[j].from != rest[k].from);
                }
            }
        }
        assert(first_rewrite(list, n) <==> !rewrites_path(rest, list.last().from)) by {
            if first_rewrite(list, n) && rewrites_path(rest, list.last().from) {
                let j = choose|j: int|
                    0 <= j < rest.len() && (#[trigger] rest[j]).from == list.last().from;
                assert(list[j].from != list[n].from);
            }
            if !rewrites_path(rest, list.last().from) {
                assert forall|j: int| 0 <= j < n implies (#[trigger] list[j]).from
                    != list[n].from by {
                    assert(rest[j] == list[j]);
                }
            }
        }
        let at = if first_rewrite(list, n) {
            at0.push(n)
        } else {
            at0
        };
        assert forall|i: int| 0 <= i < at0.len() implies 0 <= #[trigger] at0[i] < n by {
            assert(at0.contains(at0[i]));
        }
        assert forall|k: int| #[trigger] at.contains(k) <==> first_rewrite(list, k) by {
            if at.contains(k) {
                let i = at.index_of(k);
                if i < at0.len() {
                    assert(at0[i] == k);
                    assert(at0.contains(k));
                }
            }
            if first_rewrite(list, k) {
                if k < n {
                    assert(at0.contains(k));
                    assert(at[at0.index_of(k)] == k);
                } else {
                    assert(at[at0.len() as int] == k);
                }
            }
        }
        assert forall|i: int| 0 <= i < at0.len() implies rest[#[trigger] at0[i]]
            == list[at0[i]] by {}
        assert(at0.map_values(|k: int| rest[k]) =~= at0.map_values(|k: int| list[k]));
        assert(first_rewrites(list) =~= at.map_values(|k: int| list[k]));
        at
    }
}

/// The name of the runtime is that in its metadata, or says that there is none.
pub proof fn law_runtime_name(index: JsonView)
    ensures
        ({
            let section = index.get2("metadata"@, "Runtime"@);
            if section is Some && section->Some_0.get("name"@) is Some && section->Some_0.get(
                "name"@,
            )->Some_0 is Text {
                runtime_name(index) == section->Some_0.get("name"@)->Some_0->Text_0
            } else {
                runtime_name(index) == "detected-from-index"@
            }
        }),
{
}

/// The sum of sizes.
pub proof fn law_sum(a: Seq<u64>, b: Seq<u64>, x: u64)
    ensures
        sum_of(Seq::empty()) == 0,
        sum_of(seq![x]) == x,
        sum_of(a + b) == sum_of(a) + sum_of(b),
    decreases b.len(),
{
    if b.len() == 0 {
        assert(a + b =~= a);
    } else {
        law_sum(a, b.drop_last(), x);
        assert((a + b).drop_last() =~= a + b.drop_last());
    }
    assert(seq![x].drop_last() =~= Seq::empty());
    assert(sum_of(seq![x]) == sum_of(Seq::<u64>::empty()) + x);
}

} // verus!
