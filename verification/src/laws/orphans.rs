//! Dropping store paths that nothing kept refers to.
use vstd::prelude::*;

use crate::classify::Reason;
use crate::closure::{referrers, refers, within_two};
use crate::order::distinct;
use crate::orphans::{
    all_dropped, closed_under_orphans, drop_paths, keep_paths, law_all_dropped, law_new_orphans,
    new_orphans, orphan, orphan_count, orphan_entry, partial_paths, still_kept, still_partial,
    DropView, Graph, KeepView, PartialView,
};

verus! {

/// The lists of store paths before orphans are dropped, and the references.
pub struct Before {
    pub refs: Map<Seq<char>, Seq<Seq<char>>>,
    pub target: Seq<char>,
    pub keep: Seq<KeepView>,
    pub drop: Seq<DropView>,
    pub partial: Seq<PartialView>,
}

impl Before {
    pub open spec fn graph(self) -> Graph {
        Graph { refs: self.refs, target: self.target }
    }

    pub open spec fn candidates(self) -> Seq<Seq<char>> {
        keep_paths(self.keep) + partial_paths(self.partial)
    }

    pub open spec fn first(self) -> Set<Seq<char>> {
        drop_paths(self.drop).to_set()
    }

    pub open spec fn dropped(self) -> Set<Seq<char>> {
        all_dropped(self.graph(), self.first(), self.candidates())
    }

    /// What is kept whole in the end.
    pub open spec fn keep_after(self) -> Seq<KeepView> {
        still_kept(self.graph(), self.dropped(), self.keep)
    }

    /// What is kept in part in the end.
    pub open spec fn partial_after(self) -> Seq<PartialView> {
        still_partial(self.graph(), self.dropped(), self.partial)
    }

    /// What is dropped in the end.
    pub open spec fn drop_after(self) -> Seq<DropView> {
        self.drop + new_orphans(self.graph(), self.first(), self.candidates()).map_values(
            |p: Seq<char>| orphan_entry(p),
        )
    }
}

/// The final list of dropped store paths holds those that were dropped at first and the
/// orphans.
proof fn lemma_drop_after(b: Before, path: Seq<char>)
    ensures
        drop_paths(b.drop_after()).contains(path) <==> b.dropped().contains(path),
{
    let g = b.graph();
    let orphans = new_orphans(g, b.first(), b.candidates());
    let last = drop_paths(b.drop_after());
    law_all_dropped(g, b.first(), b.candidates());
    law_new_orphans(g, b.first(), b.candidates());
    if last.contains(path) {
        let k = last.index_of(path);
        if k < b.drop.len() {
            assert(drop_paths(b.drop)[k] == path);
            assert(b.first().contains(path));
        } else {
            assert(orphans[k - b.drop.len()] == path);
            assert(orphans.contains(path));
        }
    }
    if b.dropped().contains(path) {
        if b.first().contains(path) {
            let k = drop_paths(b.drop).index_of(path);
            assert(last[k] == path);
        } else {
            assert(orphans.contains(path));
            let k = orphans.index_of(path);
            assert(last[b.drop.len() + k] == path);
        }
    }
}

/// A store path that something other than itself refers to.
pub open spec fn is_referred_to(refs: Map<Seq<char>, Seq<Seq<char>>>, path: Seq<char>) -> bool {
    exists|from: Seq<char>|
        refs.contains_key(from) && from != path && #[trigger] refs[from].contains(path)
}

/// All that refer to a store path, other than itself, are in a list.
pub open spec fn referred_to_by_listed_only(
    refs: Map<Seq<char>, Seq<Seq<char>>>,
    path: Seq<char>,
    list: Seq<Seq<char>>,
) -> bool {
    forall|from: Seq<char>|
        refs.contains_key(from) && from != path && #[trigger] refs[from].contains(path)
            ==> list.contains(from)
}

proof fn lemma_orphan_means(b: Before, path: Seq<char>)
    ensures
        orphan(b.graph(), b.dropped(), path) <==> path != b.target && is_referred_to(b.refs, path)
            && referred_to_by_listed_only(b.refs, path, drop_paths(b.drop_after())),
{
    let list = drop_paths(b.drop_after());
    let g = b.graph();
    if orphan(g, b.dropped(), path) {
        let from = choose|from: Seq<char>| refers(g.refs, from, path);
        assert(b.refs[from].contains(path));
        assert forall|from: Seq<char>|
            b.refs.contains_key(from) && from != path && #[trigger] b.refs[from].contains(
                path,
            ) implies list.contains(from) by {
            assert(refers(g.refs, from, path));
            lemma_drop_after(b, from);
        }
    }
    if path != b.target && is_referred_to(b.refs, path) && referred_to_by_listed_only(
        b.refs,
        path,
        list,
    ) {
        let from = choose|from: Seq<char>|
            b.refs.contains_key(from) && from != path && #[trigger] b.refs[from].contains(path);
        assert(refers(g.refs, from, path));
        assert forall|from: Seq<char>| refers(g.refs, from, path) implies b.dropped().contains(
            from,
        ) by {
            assert(b.refs[from].contains(path));
            assert(list.contains(from));
            lemma_drop_after(b, from);
        }
    }
}

/// A store path that is still kept, whole or in part, is the package itself, or nothing
/// refers to it, or something refers to it that is not in the final list of dropped
/// store paths.
pub proof fn law_what_is_kept_is_needed(b: Before, path: Seq<char>)
    requires
        keep_paths(b.keep_after()).contains(path) || partial_paths(b.partial_after()).contains(
            path,
        ),
    ensures
        path == b.target || !is_referred_to(b.refs, path) || exists|from: Seq<char>|
            b.refs.contains_key(from) && from != path && #[trigger] b.refs[from].contains(path)
                && !drop_paths(b.drop_after()).contains(from),
{
    let g = b.graph();
    let dropped = b.dropped();
    let f = |e: KeepView| !orphan(g, dropped, e.store_path);
    let h = |e: PartialView| !orphan(g, dropped, e.store_path);
    if keep_paths(b.keep_after()).contains(path) {
        let i = keep_paths(b.keep_after()).index_of(path);
        b.keep.lemma_filter_pred(f, i);
    } else {
        let i = partial_paths(b.partial_after()).index_of(path);
        b.partial.lemma_filter_pred(h, i);
    }
    lemma_orphan_means(b, path);
}

/// A store path that is dropped, and was not at first, was kept, is not the package
/// itself, is referred to, and by dropped store paths alone. The list says that it is an
/// orphan.
pub proof fn law_what_is_dropped_is_not_needed(b: Before, k: int)
    requires
        b.drop.len() <= k < b.drop_after().len(),
    ensures
        ({
            let e = b.drop_after()[k];
            &&& e.store_path != b.target
            &&& e.reason == Reason::OrphanedTransitive
            &&& e.matched_sonames.len() == 0
            &&& keep_paths(b.keep).contains(e.store_path) || partial_paths(b.partial).contains(
                e.store_path,
            )
            &&& !drop_paths(b.drop).contains(e.store_path)
            &&& is_referred_to(b.refs, e.store_path)
            &&& referred_to_by_listed_only(b.refs, e.store_path, drop_paths(b.drop_after()))
        }),
{
    let g = b.graph();
    let orphans = new_orphans(g, b.first(), b.candidates());
    let path = orphans[k - b.drop.len()];
    assert(orphans.contains(path));
    law_new_orphans(g, b.first(), b.candidates());
    law_all_dropped(g, b.first(), b.candidates());
    assert(b.candidates().contains(path));
    let at = b.candidates().index_of(path);
    if at < b.keep.len() {
        assert(keep_paths(b.keep)[at] == path);
    } else {
        assert(partial_paths(b.partial)[at - b.keep.len()] == path);
    }
    lemma_orphan_means(b, path);
}

/// What was dropped at first stays dropped, in the same entries at the start of the list.
pub proof fn law_first_drops_stay(b: Before)
    ensures
        b.drop.len() <= b.drop_after().len(),
        b.drop_after().take(b.drop.len() as int) == b.drop,
{
    assert(b.drop_after().take(b.drop.len() as int) =~= b.drop);
}

/// No more is dropped than has to be: each set of store paths that holds those dropped
/// at first, and each kept store path but the package that is referred to, and by the
/// set alone, holds all that is dropped in the end.
pub proof fn law_no_more_is_dropped(b: Before, set: Set<Seq<char>>, path: Seq<char>)
    requires
        forall|p: Seq<char>| drop_paths(b.drop).contains(p) ==> #[trigger] set.contains(p),
        forall|p: Seq<char>|
            (keep_paths(b.keep).contains(p) || partial_paths(b.partial).contains(p)) && p
                != b.target && is_referred_to(b.refs, p) && (forall|from: Seq<char>|
                b.refs.contains_key(from) && from != p && #[trigger] b.refs[from].contains(p)
                    ==> set.contains(from)) ==> #[trigger] set.contains(p),
        drop_paths(b.drop_after()).contains(path),
    ensures
        set.contains(path),
{
    let g = b.graph();
    lemma_drop_after(b, path);
    assert(closed_under_orphans(g, b.first(), b.candidates(), set)) by {
        assert(b.first().subset_of(set));
        assert forall|p: Seq<char>| #[trigger] b.candidates().contains(p) && orphan(
            g,
            set,
            p,
        ) implies set.contains(p) by {
            let at = b.candidates().index_of(p);
            if at < b.keep.len() {
                assert(keep_paths(b.keep)[at] == p);
            } else {
                assert(partial_paths(b.partial)[at - b.keep.len()] == p);
            }
            let from = choose|from: Seq<char>| refers(g.refs, from, p);
            assert(b.refs[from].contains(p));
            assert forall|from: Seq<char>|
                b.refs.contains_key(from) && from != p && #[trigger] b.refs[from].contains(
                    p,
                ) implies set.contains(from) by {
                assert(refers(g.refs, from, p));
            }
        }
    }
}

/// An entry that was kept is still kept, in its place among those that are, unless it is
/// not the package and is referred to, and by the final list of dropped store paths
/// alone.
pub proof fn law_kept_entries(b: Before)
    ensures
        b.keep_after() == b.keep.filter(
            |e: KeepView|
                e.store_path == b.target || !is_referred_to(b.refs, e.store_path)
                    || !referred_to_by_listed_only(
                    b.refs,
                    e.store_path,
                    drop_paths(b.drop_after()),
                ),
        ),
        b.partial_after() == b.partial.filter(
            |e: PartialView|
                e.store_path == b.target || !is_referred_to(b.refs, e.store_path)
                    || !referred_to_by_listed_only(
                    b.refs,
                    e.store_path,
                    drop_paths(b.drop_after()),
                ),
        ),
{
    let g = b.graph();
    let dropped = b.dropped();
    let f = |e: KeepView| !orphan(g, dropped, e.store_path);
    let h = |e: PartialView| !orphan(g, dropped, e.store_path);
    let f2 = |e: KeepView|
        e.store_path == b.target || !is_referred_to(b.refs, e.store_path)
            || !referred_to_by_listed_only(b.refs, e.store_path, drop_paths(b.drop_after()));
    let h2 = |e: PartialView|
        e.store_path == b.target || !is_referred_to(b.refs, e.store_path)
            || !referred_to_by_listed_only(b.refs, e.store_path, drop_paths(b.drop_after()));
    assert forall|e: KeepView| #[trigger] f(e) == f2(e) by {
        lemma_orphan_means(b, e.store_path);
    }
    assert forall|e: PartialView| #[trigger] h(e) == h2(e) by {
        lemma_orphan_means(b, e.store_path);
    }
    assert(f =~= f2);
    assert(h =~= h2);
}

/// The orphans that are added to the list of dropped store paths stand there once, in
/// order.
pub proof fn law_orphans_are_in_order(b: Before, i: int, j: int)
    requires
        b.drop.len() <= i < j < b.drop_after().len(),
    ensures
        crate::order::text_le(b.drop_after()[i].store_path, b.drop_after()[j].store_path),
        b.drop_after()[i].store_path != b.drop_after()[j].store_path,
{
    let g = b.graph();
    let dropped = b.dropped();
    let first = b.first();
    let found = b.candidates().filter(
        |path: Seq<char>| dropped.contains(path) && !first.contains(path),
    );
    crate::order::lemma_sorted_distinct(found);
}

proof fn lemma_filter_parts<A>(s: Seq<A>, f: spec_fn(A) -> bool)
    ensures
        s.filter(f).len() <= s.len(),
        s.filter(f).len() + s.filter(|x: A| !f(x)).len() == s.len(),
        s.no_duplicates() ==> s.filter(f).no_duplicates(),
    decreases s.len(),
{
    reveal(Seq::filter);
    if s.len() > 0 {
        let rest = s.drop_last();
        lemma_filter_parts(rest, f);
        if s.no_duplicates() {
            assert(rest.no_duplicates());
            if f(s.last()) {
                assert(!rest.filter(f).contains(s.last())) by {
                    if rest.filter(f).contains(s.last()) {
                        rest.lemma_filter_contains_rev(f, s.last());
                        assert(s[rest.index_of(s.last())] == s[s.len() - 1]);
                    }
                }
            }
        }
    }
}

proof fn lemma_count_paths(g: Graph, dropped: Set<Seq<char>>, keep: Seq<KeepView>)
    ensures
        keep_paths(keep).filter(|p: Seq<char>| orphan(g, dropped, p)).len() + still_kept(
            g,
            dropped,
            keep,
        ).len() == keep.len(),
    decreases keep.len(),
{
    reveal(Seq::filter);
    if keep.len() > 0 {
        lemma_count_paths(g, dropped, keep.drop_last());
        assert(keep_paths(keep).drop_last() =~= keep_paths(keep.drop_last()));
    }
}

proof fn lemma_count_parts(g: Graph, dropped: Set<Seq<char>>, partial: Seq<PartialView>)
    ensures
        partial_paths(partial).filter(|p: Seq<char>| orphan(g, dropped, p)).len() + still_partial(
            g,
            dropped,
            partial,
        ).len() == partial.len(),
    decreases partial.len(),
{
    reveal(Seq::filter);
    if partial.len() > 0 {
        lemma_count_parts(g, dropped, partial.drop_last());
        assert(partial_paths(partial).drop_last() =~= partial_paths(partial.drop_last()));
    }
}

/// The number that is said is how many entries are no longer kept, where no store path is
/// kept twice in a list.
pub proof fn law_orphans_are_counted(b: Before)
    requires
        keep_paths(b.keep).no_duplicates(),
        partial_paths(b.partial).no_duplicates(),
    ensures
        orphan_count(b.graph(), b.dropped(), keep_paths(b.keep)) == b.keep.len()
            - b.keep_after().len(),
        orphan_count(b.graph(), b.dropped(), partial_paths(b.partial)) == b.partial.len()
            - b.partial_after().len(),
{
    let g = b.graph();
    let d = b.dropped();
    let f = |p: Seq<char>| orphan(g, d, p);
    lemma_filter_parts(keep_paths(b.keep), f);
    lemma_filter_parts(partial_paths(b.partial), f);
    crate::order::lemma_distinct_same(keep_paths(b.keep).filter(f));
    crate::order::lemma_distinct_same(partial_paths(b.partial).filter(f));
    lemma_count_paths(g, d, b.keep);
    lemma_count_parts(g, d, b.partial);
}

/// The orphans among store paths are counted once each: those that are not the package, and
/// that are referred to, but by the final list of dropped store paths alone.
pub proof fn law_orphan_count(b: Before, paths: Seq<Seq<char>>)
    ensures
        orphan_count(b.graph(), b.dropped(), paths) == distinct(
            paths.filter(
                |p: Seq<char>|
                    p != b.target && is_referred_to(b.refs, p) && referred_to_by_listed_only(
                        b.refs,
                        p,
                        drop_paths(b.drop_after()),
                    ),
            ),
        ).len(),
{
    let g = b.graph();
    let dropped = b.dropped();
    let f = |p: Seq<char>| orphan(g, dropped, p);
    let f2 = |p: Seq<char>|
        p != b.target && is_referred_to(b.refs, p) && referred_to_by_listed_only(
            b.refs,
            p,
            drop_paths(b.drop_after()),
        );
    assert forall|p: Seq<char>| #[trigger] f(p) == f2(p) by {
        lemma_orphan_means(b, p);
    }
    assert(f =~= f2);
}

/// Who refers to a store path: the others that have it among their references.
pub proof fn law_referrers(refs: Map<Seq<char>, Seq<Seq<char>>>, from: Seq<char>, to: Seq<char>)
    ensures
        referrers(refs, to).contains(from) <==> from != to && refs.contains_key(from)
            && refs[from].contains(to),
        refers(refs, from, to) <==> from != to && refs.contains_key(from) && refs[from].contains(to),
{
}

/// The essential dependencies of a package are its references, and theirs.
pub proof fn law_essential_dependencies(
    refs: Map<Seq<char>, Seq<Seq<char>>>,
    package: Seq<char>,
    mid: Seq<char>,
    path: Seq<char>,
)
    ensures
        refs.contains_key(package) && refs[package].contains(path) ==> within_two(
            refs,
            package,
            path,
        ),
        refs.contains_key(package) && refs[package].contains(mid) && refs.contains_key(mid)
            && refs[mid].contains(path) ==> within_two(refs, package, path),
        within_two(refs, package, path) && !refs[package].contains(path) ==> exists|m: Seq<char>|
            #[trigger] refs[package].contains(m) && refs.contains_key(m) && refs[m].contains(path),
        within_two(refs, package, path) ==> refs.contains_key(package),
{
}

} // verus!
