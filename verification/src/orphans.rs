//! The entries of a plan, and dropping store paths that nothing kept refers to.
use vstd::prelude::*;

use crate::classify::Reason;
use crate::closure::{compute_reverse_refs, referrers, refers, refs_map};
use crate::order::{distinct, lemma_distinct, lemma_sorted, sort_texts, sorted, unique};
use crate::table::{NameSet, Table};
use crate::text::{copy_strings, lemma_views_push, same_text, views};

verus! {

// ---------------------------------------------------------------------------
// Entries
// ---------------------------------------------------------------------------

/// A store path that is kept whole.
pub struct KeepEntry {
    pub store_path: String,
    pub reason: Reason,
}

/// A store path that is dropped whole.
pub struct DropEntry {
    pub store_path: String,
    pub reason: Reason,
    pub matched_sonames: Vec<String>,
}

/// A store path of which some files are kept.
pub struct PartialEntry {
    pub store_path: String,
    pub keep_files: Vec<String>,
    pub drop_files: Vec<String>,
}

/// The model of a store path that is kept whole.
pub struct KeepView {
    pub store_path: Seq<char>,
    pub reason: Reason,
}

/// The model of a store path that is dropped whole.
pub struct DropView {
    pub store_path: Seq<char>,
    pub reason: Reason,
    pub matched_sonames: Seq<Seq<char>>,
}

/// The model of a store path of which some files are kept.
pub struct PartialView {
    pub store_path: Seq<char>,
    pub keep_files: Seq<Seq<char>>,
    pub drop_files: Seq<Seq<char>>,
}

impl KeepEntry {
    pub open spec fn view(self) -> KeepView {
        KeepView { store_path: self.store_path@, reason: self.reason }
    }

    pub fn copy(&self) -> (r: KeepEntry)
        ensures
            r@ == self@,
    {
        KeepEntry { store_path: self.store_path.clone(), reason: self.reason }
    }
}

impl DropEntry {
    pub open spec fn view(self) -> DropView {
        DropView {
            store_path: self.store_path@,
            reason: self.reason,
            matched_sonames: views(self.matched_sonames@),
        }
    }

    pub fn copy(&self) -> (r: DropEntry)
        ensures
            r@ == self@,
    {
        DropEntry {
            store_path: self.store_path.clone(),
            reason: self.reason,
            matched_sonames: copy_strings(&self.matched_sonames),
        }
    }
}

impl PartialEntry {
    pub open spec fn view(self) -> PartialView {
        PartialView {
            store_path: self.store_path@,
            keep_files: views(self.keep_files@),
            drop_files: views(self.drop_files@),
        }
    }

    pub fn copy(&self) -> (r: PartialEntry)
        ensures
            r@ == self@,
    {
        PartialEntry {
            store_path: self.store_path.clone(),
            keep_files: copy_strings(&self.keep_files),
            drop_files: copy_strings(&self.drop_files),
        }
    }
}

pub open spec fn keep_views(list: Seq<KeepEntry>) -> Seq<KeepView> {
    list.map_values(|e: KeepEntry| e.view())
}

pub open spec fn drop_views(list: Seq<DropEntry>) -> Seq<DropView> {
    list.map_values(|e: DropEntry| e.view())
}

pub open spec fn partial_views(list: Seq<PartialEntry>) -> Seq<PartialView> {
    list.map_values(|e: PartialEntry| e.view())
}

/// The store paths that are kept whole.
pub open spec fn keep_paths(list: Seq<KeepView>) -> Seq<Seq<char>> {
    list.map_values(|e: KeepView| e.store_path)
}

/// The store paths that are dropped whole.
pub open spec fn drop_paths(list: Seq<DropView>) -> Seq<Seq<char>> {
    list.map_values(|e: DropView| e.store_path)
}

/// The store paths of which some files are kept.
pub open spec fn partial_paths(list: Seq<PartialView>) -> Seq<Seq<char>> {
    list.map_values(|e: PartialView| e.store_path)
}

// ---------------------------------------------------------------------------
// Model of orphans
// ---------------------------------------------------------------------------

/// What decides which store paths become orphans.
pub struct Graph {
    pub refs: Map<Seq<char>, Seq<Seq<char>>>,
    pub target: Seq<char>,
}

/// A store path that is referred to, but by dropped store paths alone. The
/// package itself is none.
pub open spec fn orphan(g: Graph, dropped: Set<Seq<char>>, path: Seq<char>) -> bool {
    &&& path != g.target
    &&& exists|from: Seq<char>| refers(g.refs, from, path)
    &&& forall|from: Seq<char>| refers(g.refs, from, path) ==> dropped.contains(from)
}

/// A set of store paths that holds those that are dropped at first, and with
/// them each candidate that they make an orphan.
pub open spec fn closed_under_orphans(
    g: Graph,
    first: Set<Seq<char>>,
    candidates: Seq<Seq<char>>,
    dropped: Set<Seq<char>>,
) -> bool {
    &&& first.subset_of(dropped)
    &&& forall|path: Seq<char>| #[trigger]
        candidates.contains(path) && orphan(g, dropped, path) ==> dropped.contains(path)
}

/// The store paths that are dropped in the end: the least set that holds those
/// that are dropped at first and the orphans that it makes.
pub open spec fn all_dropped(
    g: Graph,
    first: Set<Seq<char>>,
    candidates: Seq<Seq<char>>,
) -> Set<Seq<char>> {
    Set::new(
        |path: Seq<char>|
            forall|dropped: Set<Seq<char>>| #[trigger]
                closed_under_orphans(g, first, candidates, dropped) ==> dropped.contains(path),
    )
}

/// The orphans among the candidates that were not dropped at first, in order.
pub open spec fn new_orphans(
    g: Graph,
    first: Set<Seq<char>>,
    candidates: Seq<Seq<char>>,
) -> Seq<Seq<char>> {
    let dropped = all_dropped(g, first, candidates);
    sorted(
        distinct(
            candidates.filter(|path: Seq<char>| dropped.contains(path) && !first.contains(path)),
        ),
    )
}

/// What is still kept whole.
pub open spec fn still_kept(g: Graph, dropped: Set<Seq<char>>, keep: Seq<KeepView>) -> Seq<
    KeepView,
> {
    keep.filter(|e: KeepView| !orphan(g, dropped, e.store_path))
}

/// What is still kept in part.
pub open spec fn still_partial(
    g: Graph,
    dropped: Set<Seq<char>>,
    partial: Seq<PartialView>,
) -> Seq<PartialView> {
    partial.filter(|e: PartialView| !orphan(g, dropped, e.store_path))
}

/// How many store paths of a list are orphans, each counted once.
pub open spec fn orphan_count(g: Graph, dropped: Set<Seq<char>>, paths: Seq<Seq<char>>) -> nat {
    distinct(paths.filter(|path: Seq<char>| orphan(g, dropped, path))).len()
}

/// The entry of an orphan.
pub open spec fn orphan_entry(path: Seq<char>) -> DropView {
    DropView { store_path: path, reason: Reason::OrphanedTransitive, matched_sonames: seq![] }
}

// ---------------------------------------------------------------------------
// Laws
// ---------------------------------------------------------------------------

/// More dropped store paths make no fewer orphans.
pub proof fn law_orphans_grow(
    g: Graph,
    some: Set<Seq<char>>,
    more: Set<Seq<char>>,
    path: Seq<char>,
)
    requires
        some.subset_of(more),
        orphan(g, some, path),
    ensures
        orphan(g, more, path),
{
    assert forall|from: Seq<char>| refers(g.refs, from, path) implies more.contains(from) by {
        assert(some.contains(from));
    }
}

/// The store paths that are dropped in the end hold those that are dropped at
/// first and each candidate that they make an orphan, and a store path that was
/// not dropped at first is a candidate and an orphan.
pub proof fn law_all_dropped(g: Graph, first: Set<Seq<char>>, candidates: Seq<Seq<char>>)
    ensures
        closed_under_orphans(g, first, candidates, all_dropped(g, first, candidates)),
        forall|path: Seq<char>| #[trigger]
            all_dropped(g, first, candidates).contains(path) && !first.contains(path)
                ==> candidates.contains(path) && orphan(
                g,
                all_dropped(g, first, candidates),
                path,
            ),
{
    let least = all_dropped(g, first, candidates);
    assert(first.subset_of(least)) by {
        assert forall|path: Seq<char>| first.contains(path) implies least.contains(path) by {}
    }
    assert forall|path: Seq<char>| #[trigger] candidates.contains(path) && orphan(
        g,
        least,
        path,
    ) implies least.contains(path) by {
        assert forall|dropped: Set<Seq<char>>| #[trigger]
            closed_under_orphans(g, first, candidates, dropped) implies dropped.contains(path) by {
            assert(least.subset_of(dropped));
            law_orphans_grow(g, least, dropped, path);
        }
    }
    assert forall|path: Seq<char>| #[trigger]
        least.contains(path) && !first.contains(path) implies candidates.contains(path) && orphan(
        g,
        least,
        path,
    ) by {
        if !(candidates.contains(path) && orphan(g, least, path)) {
            let smaller = least.remove(path);
            assert(first.subset_of(smaller));
            assert forall|p: Seq<char>| #[trigger] candidates.contains(p) && orphan(
                g,
                smaller,
                p,
            ) implies smaller.contains(p) by {
                law_orphans_grow(g, smaller, least, p);
                assert(least.contains(p));
            }
            assert(closed_under_orphans(g, first, candidates, smaller));
            assert(smaller.contains(path));
        }
    }
}

/// The package itself is never dropped, unless it was at first.
pub proof fn law_target_stays(g: Graph, first: Set<Seq<char>>, candidates: Seq<Seq<char>>)
    requires
        !first.contains(g.target),
    ensures
        !all_dropped(g, first, candidates).contains(g.target),
{
    law_all_dropped(g, first, candidates);
}

/// No store path that is still kept, whole or in part, is an orphan.
pub proof fn law_nothing_kept_is_an_orphan(
    g: Graph,
    first: Set<Seq<char>>,
    keep: Seq<KeepView>,
    partial: Seq<PartialView>,
)
    ensures
        ({
            let dropped = all_dropped(g, first, keep_paths(keep) + partial_paths(partial));
            &&& forall|i: int|
                0 <= i < still_kept(g, dropped, keep).len() ==> !orphan(
                    g,
                    dropped,
                    #[trigger] still_kept(g, dropped, keep)[i].store_path,
                )
            &&& forall|i: int|
                0 <= i < still_partial(g, dropped, partial).len() ==> !orphan(
                    g,
                    dropped,
                    #[trigger] still_partial(g, dropped, partial)[i].store_path,
                )
        }),
{
    let dropped = all_dropped(g, first, keep_paths(keep) + partial_paths(partial));
    let f = |e: KeepView| !orphan(g, dropped, e.store_path);
    let h = |e: PartialView| !orphan(g, dropped, e.store_path);
    assert forall|i: int| 0 <= i < still_kept(g, dropped, keep).len() implies !orphan(
        g,
        dropped,
        #[trigger] still_kept(g, dropped, keep)[i].store_path,
    ) by {
        keep.lemma_filter_pred(f, i);
    }
    assert forall|i: int| 0 <= i < still_partial(g, dropped, partial).len() implies !orphan(
        g,
        dropped,
        #[trigger] still_partial(g, dropped, partial)[i].store_path,
    ) by {
        partial.lemma_filter_pred(h, i);
    }
}

/// The new orphans are the dropped store paths that were not dropped at first,
/// and each is a candidate.
pub proof fn law_new_orphans(g: Graph, first: Set<Seq<char>>, candidates: Seq<Seq<char>>)
    ensures
        forall|path: Seq<char>| #[trigger]
            new_orphans(g, first, candidates).contains(path) <==> all_dropped(
                g,
                first,
                candidates,
            ).contains(path) && !first.contains(path),
        forall|path: Seq<char>| #[trigger]
            new_orphans(g, first, candidates).contains(path) ==> candidates.contains(path),
{
    let dropped = all_dropped(g, first, candidates);
    let f = |path: Seq<char>| dropped.contains(path) && !first.contains(path);
    let found = candidates.filter(f);
    lemma_distinct(found);
    lemma_sorted(distinct(found));
    law_all_dropped(g, first, candidates);
    assert forall|path: Seq<char>| #[trigger]
        new_orphans(g, first, candidates).contains(path) <==> dropped.contains(path)
            && !first.contains(path) by {
        if found.contains(path) {
            let k = found.index_of(path);
            candidates.lemma_filter_pred(f, k);
        }
        if dropped.contains(path) && !first.contains(path) {
            let k = candidates.index_of(path);
            assert(f(candidates[k]));
            candidates.lemma_filter_contains(f, k);
        }
    }
}

/// Dropping orphans loses no store path: what was kept, whole or in part, is
/// still kept in the same way, or is dropped.
pub proof fn law_no_path_is_lost(
    g: Graph,
    drop: Seq<DropView>,
    keep: Seq<KeepView>,
    partial: Seq<PartialView>,
)
    ensures
        ({
            let first = drop_paths(drop).to_set();
            let candidates = keep_paths(keep) + partial_paths(partial);
            let dropped = all_dropped(g, first, candidates);
            let orphans = new_orphans(g, first, candidates);
            &&& forall|i: int|
                0 <= i < keep.len() ==> still_kept(g, dropped, keep).contains(#[trigger] keep[i])
                    || drop_paths(drop).contains(keep[i].store_path) || orphans.contains(
                    keep[i].store_path,
                )
            &&& forall|i: int|
                0 <= i < partial.len() ==> still_partial(g, dropped, partial).contains(
                    #[trigger] partial[i],
                ) || drop_paths(drop).contains(partial[i].store_path) || orphans.contains(
                    partial[i].store_path,
                )
        }),
{
    let first = drop_paths(drop).to_set();
    let candidates = keep_paths(keep) + partial_paths(partial);
    let dropped = all_dropped(g, first, candidates);
    let orphans = new_orphans(g, first, candidates);
    law_all_dropped(g, first, candidates);
    law_new_orphans(g, first, candidates);
    let f = |e: KeepView| !orphan(g, dropped, e.store_path);
    let h = |e: PartialView| !orphan(g, dropped, e.store_path);
    assert forall|i: int| 0 <= i < keep.len() implies still_kept(g, dropped, keep).contains(
        #[trigger] keep[i],
    ) || drop_paths(drop).contains(keep[i].store_path) || orphans.contains(keep[i].store_path) by {
        if f(keep[i]) {
            keep.lemma_filter_contains(f, i);
        } else {
            assert(candidates[i] == keep[i].store_path);
            assert(candidates.contains(keep[i].store_path));
        }
    }
    assert forall|i: int| 0 <= i < partial.len() implies still_partial(
        g,
        dropped,
        partial,
    ).contains(#[trigger] partial[i]) || drop_paths(drop).contains(partial[i].store_path)
        || orphans.contains(partial[i].store_path) by {
        if h(partial[i]) {
            partial.lemma_filter_contains(h, i);
        } else {
            assert(candidates[keep.len() + i] == partial[i].store_path);
            assert(candidates.contains(partial[i].store_path));
        }
    }
}

/// Dropping orphans a second time drops nothing more.
pub proof fn law_dropping_again(g: Graph, first: Set<Seq<char>>, candidates: Seq<Seq<char>>)
    ensures
        all_dropped(g, all_dropped(g, first, candidates), candidates) == all_dropped(
            g,
            first,
            candidates,
        ),
{
    let once = all_dropped(g, first, candidates);
    let twice = all_dropped(g, once, candidates);
    law_all_dropped(g, first, candidates);
    law_all_dropped(g, once, candidates);
    assert(closed_under_orphans(g, once, candidates, once));
    assert(twice =~= once);
}

// ---------------------------------------------------------------------------
// Dropping orphans
// ---------------------------------------------------------------------------

/// How many of the candidates are not dropped.
spec fn left(candidates: Seq<Seq<char>>, dropped: Set<Seq<char>>) -> nat
    decreases candidates.len(),
{
    if candidates.len() == 0 {
        0
    } else if dropped.contains(candidates.last()) {
        left(candidates.drop_last(), dropped)
    } else {
        left(candidates.drop_last(), dropped) + 1
    }
}

proof fn lemma_left(candidates: Seq<Seq<char>>, dropped: Set<Seq<char>>, path: Seq<char>)
    ensures
        left(candidates, dropped.insert(path)) <= left(candidates, dropped),
        candidates.contains(path) && !dropped.contains(path) ==> left(
            candidates,
            dropped.insert(path),
        ) < left(candidates, dropped),
    decreases candidates.len(),
{
    if candidates.len() > 0 {
        let rest = candidates.drop_last();
        lemma_left(rest, dropped, path);
        if candidates.contains(path) && candidates.last() != path {
            let k = candidates.index_of(path);
            assert(rest[k] == path);
        }
    }
}

/// Whether a store path is an orphan.
fn is_orphan(
    refs: &Table<Vec<String>>,
    reverse: &Table<Vec<String>>,
    dropped: &NameSet,
    target: &str,
    path: &str,
) -> (r: bool)
    requires
        reverse.wf(),
        forall|to: Seq<char>| #[trigger]
            reverse.has(to) <==> exists|from: Seq<char>| refers(refs_map(refs), from, to),
        forall|to: Seq<char>| #[trigger]
            reverse.has(to) ==> views(reverse.at(to)@).to_set() == referrers(refs_map(refs), to),
    ensures
        r == orphan((Graph { refs: refs_map(refs), target: target@ }), dropped@, path@),
{
    if same_text(path, target) {
        return false;
    }
    let ghost g = Graph { refs: refs_map(refs), target: target@ };
    match reverse.get(path) {
        Some(list) => {
            let ghost v = views(list@);
            proof {
                assert(reverse.has(path@));
                assert(exists|from: Seq<char>| refers(refs_map(refs), from, path@));
                let from = choose|from: Seq<char>| refers(refs_map(refs), from, path@);
                assert(refers(g.refs, from, path@));
                assert forall|from: Seq<char>| refers(g.refs, from, path@) <==> v.contains(from) by {
                    assert(referrers(g.refs, path@).contains(from) <==> v.to_set().contains(from));
                }
            }
            let mut i: usize = 0;
            while i < list.len()
                invariant
                    i <= list@.len(),
                    v == views(list@),
                    g == (Graph { refs: refs_map(refs), target: target@ }),
                    forall|from: Seq<char>| refers(g.refs, from, path@) <==> v.contains(from),
                    forall|k: int| 0 <= k < i ==> dropped@.contains(v[k]),
                decreases list@.len() - i,
            {
                proof {
                    assert(v[i as int] == list@[i as int]@);
                }
                if !dropped.contains(&list[i]) {
                    proof {
                        assert(v.contains(v[i as int]));
                        assert(refers(g.refs, v[i as int], path@));
                    }
                    return false;
                }
                i += 1;
            }
            proof {
                assert forall|from: Seq<char>| refers(g.refs, from, path@) implies dropped@.contains(
                    from,
                ) by {
                    assert(v.contains(from));
                    assert(v[v.index_of(from)] == from);
                }
            }
            true
        },
        None => false,
    }
}

/// The store paths that are dropped in the end.
fn drop_all(
    refs: &Table<Vec<String>>,
    reverse: &Table<Vec<String>>,
    first: &Vec<String>,
    candidates: &Vec<String>,
    target: &str,
) -> (r: NameSet)
    requires
        reverse.wf(),
        forall|to: Seq<char>| #[trigger]
            reverse.has(to) <==> exists|from: Seq<char>| refers(refs_map(refs), from, to),
        forall|to: Seq<char>| #[trigger]
            reverse.has(to) ==> views(reverse.at(to)@).to_set() == referrers(refs_map(refs), to),
    ensures
        r@ == all_dropped(
            (Graph { refs: refs_map(refs), target: target@ }),
            views(first@).to_set(),
            views(candidates@),
        ),
{
    let ghost g = Graph { refs: refs_map(refs), target: target@ };
    let ghost start = views(first@).to_set();
    let ghost v = views(candidates@);
    let mut dropped: NameSet = NameSet::from_list(first);
    let mut changed: bool = true;
    while changed
        invariant
            reverse.wf(),
            forall|to: Seq<char>| #[trigger]
                reverse.has(to) <==> exists|from: Seq<char>| refers(refs_map(refs), from, to),
            forall|to: Seq<char>| #[trigger]
                reverse.has(to) ==> views(reverse.at(to)@).to_set() == referrers(
                    refs_map(refs),
                    to,
                ),
            g == (Graph { refs: refs_map(refs), target: target@ }),
            v == views(candidates@),
            start.subset_of(dropped@),
            forall|d: Set<Seq<char>>| #[trigger]
                closed_under_orphans(g, start, v, d) ==> dropped@.subset_of(d),
            !changed ==> closed_under_orphans(g, start, v, dropped@),
        decreases left(v, dropped@), changed as int,
    {
        let ghost at_first = dropped@;
        changed = false;
        let mut i: usize = 0;
        while i < candidates.len()
            invariant
                i <= candidates@.len(),
                reverse.wf(),
                forall|to: Seq<char>| #[trigger]
                    reverse.has(to) <==> exists|from: Seq<char>| refers(refs_map(refs), from, to),
                forall|to: Seq<char>| #[trigger]
                    reverse.has(to) ==> views(reverse.at(to)@).to_set() == referrers(
                        refs_map(refs),
                        to,
                    ),
                g == (Graph { refs: refs_map(refs), target: target@ }),
                v == views(candidates@),
                start.subset_of(dropped@),
                forall|d: Set<Seq<char>>| #[trigger]
                    closed_under_orphans(g, start, v, d) ==> dropped@.subset_of(d),
                left(v, dropped@) <= left(v, at_first),
                changed ==> left(v, dropped@) < left(v, at_first),
                !changed ==> forall|k: int|
                    0 <= k < i && orphan(g, dropped@, #[trigger] v[k]) ==> dropped@.contains(v[k]),
            decreases candidates@.len() - i,
        {
            let path: &String = &candidates[i];
            let ghost before = dropped@;
            proof {
                assert(v[i as int] == path@);
                assert(v.contains(path@));
            }
            if is_orphan(refs, reverse, &dropped, target, path) {
                proof {
                    lemma_left(v, before, path@);
                    assert forall|d: Set<Seq<char>>| #[trigger]
                        closed_under_orphans(g, start, v, d) implies before.insert(
                        path@,
                    ).subset_of(d) by {
                        law_orphans_grow(g, before, d, path@);
                    }
                }
                if dropped.insert(path.clone()) {
                    changed = true;
                } else {
                    proof {
                        assert(dropped@ =~= before);
                    }
                }
            }
            i += 1;
        }
        proof {
            if !changed {
                assert forall|p: Seq<char>| #[trigger] v.contains(p) && orphan(
                    g,
                    dropped@,
                    p,
                ) implies dropped@.contains(p) by {
                    let k = v.index_of(p);
                    assert(v[k] == p);
                }
            }
        }
    }
    proof {
        assert(dropped@ =~= all_dropped(g, start, v));
    }
    dropped
}

proof fn lemma_distinct_len<A>(s: Seq<A>)
    ensures
        distinct(s).len() <= s.len(),
    decreases s.len(),
{
    if s.len() > 0 {
        lemma_distinct_len(s.drop_last());
    }
}

/// How many store paths of a list are orphans.
fn count_orphans(
    refs: &Table<Vec<String>>,
    reverse: &Table<Vec<String>>,
    dropped: &NameSet,
    target: &str,
    paths: &Vec<String>,
) -> (r: usize)
    requires
        reverse.wf(),
        forall|to: Seq<char>| #[trigger]
            reverse.has(to) <==> exists|from: Seq<char>| refers(refs_map(refs), from, to),
        forall|to: Seq<char>| #[trigger]
            reverse.has(to) ==> views(reverse.at(to)@).to_set() == referrers(refs_map(refs), to),
    ensures
        r == orphan_count(
            (Graph { refs: refs_map(refs), target: target@ }),
            dropped@,
            views(paths@),
        ),
        r <= paths@.len(),
{
    let ghost g = Graph { refs: refs_map(refs), target: target@ };
    let ghost v = views(paths@);
    let ghost f = |path: Seq<char>| orphan(g, dropped@, path);
    let mut found: Vec<String> = Vec::new();
    let mut i: usize = 0;
    proof {
        reveal(Seq::filter);
        assert(views(found@) =~= v.take(0).filter(f));
    }
    while i < paths.len()
        invariant
            i <= paths@.len(),
            v == views(paths@),
            g == (Graph { refs: refs_map(refs), target: target@ }),
            f == (|path: Seq<char>| orphan(g, dropped@, path)),
            reverse.wf(),
            forall|to: Seq<char>| #[trigger]
                reverse.has(to) <==> exists|from: Seq<char>| refers(refs_map(refs), from, to),
            forall|to: Seq<char>| #[trigger]
                reverse.has(to) ==> views(reverse.at(to)@).to_set() == referrers(
                    refs_map(refs),
                    to,
                ),
            views(found@) == v.take(i as int).filter(f),
            found@.len() <= i,
        decreases paths@.len() - i,
    {
        let path: String = paths[i].clone();
        proof {
            reveal(Seq::filter);
            let t = v.take(i as int + 1);
            assert(t.drop_last() =~= v.take(i as int));
            assert(t.last() == path@);
            lemma_views_push(found@, path);
        }
        if is_orphan(refs, reverse, dropped, target, &path) {
            found.push(path);
        }
        i += 1;
    }
    let r: Vec<String> = unique(&found);
    proof {
        assert(v.take(i as int) =~= v);
        lemma_distinct_len(views(found@));
        assert(views(r@).len() == r@.len());
    }
    r.len()
}

/// Iteratively drop kept/partial paths only referenced by already-dropped paths.
/// Says how many store paths were orphans, those that were kept whole and those that
/// were kept in part.
pub fn drop_orphaned_paths(
    keep: &mut Vec<KeepEntry>,
    drop_list: &mut Vec<DropEntry>,
    partial: &mut Vec<PartialEntry>,
    refs: &Table<Vec<String>>,
    target_package: &str,
) -> (r: usize)
    requires
        refs.wf(),
    ensures
        ({
            let g = Graph { refs: refs_map(refs), target: target_package@ };
            let first = drop_paths(drop_views(old(drop_list)@)).to_set();
            let candidates = keep_paths(keep_views(old(keep)@)) + partial_paths(
                partial_views(old(partial)@),
            );
            let dropped = all_dropped(g, first, candidates);
            let orphans = new_orphans(g, first, candidates);
            &&& keep_views(final(keep)@) == still_kept(g, dropped, keep_views(old(keep)@))
            &&& partial_views(final(partial)@) == still_partial(
                g,
                dropped,
                partial_views(old(partial)@),
            )
            &&& drop_views(final(drop_list)@) == drop_views(old(drop_list)@)
                + orphans.map_values(|p: Seq<char>| orphan_entry(p))
            &&& r == orphan_count(g, dropped, keep_paths(keep_views(old(keep)@))) + orphan_count(
                g,
                dropped,
                partial_paths(partial_views(old(partial)@)),
            )
        }),
{
    let ghost g = Graph { refs: refs_map(refs), target: target_package@ };
    let ghost keep0 = keep_views(keep@);
    let ghost drop0 = drop_views(drop_list@);
    let ghost partial0 = partial_views(partial@);
    let reverse: Table<Vec<String>> = compute_reverse_refs(refs);
    let mut first: Vec<String> = Vec::new();
    let mut i: usize = 0;
    while i < drop_list.len()
        invariant
            i <= drop_list@.len(),
            drop0 == drop_views(drop_list@),
            views(first@) == drop_paths(drop0).take(i as int),
        decreases drop_list@.len() - i,
    {
        let path: String = drop_list[i].store_path.clone();
        proof {
            lemma_views_push(first@, path);
            assert(drop_paths(drop0)[i as int] == path@);
            assert(drop_paths(drop0).take(i as int + 1) =~= drop_paths(drop0).take(i as int).push(
                path@,
            ));
        }
        first.push(path);
        i += 1;
    }
    let mut candidates: Vec<String> = Vec::new();
    let mut whole: Vec<String> = Vec::new();
    i = 0;
    while i < keep.len()
        invariant
            i <= keep@.len(),
            keep0 == keep_views(keep@),
            views(whole@) == keep_paths(keep0).take(i as int),
            views(candidates@) == keep_paths(keep0).take(i as int),
        decreases keep@.len() - i,
    {
        let path: String = keep[i].store_path.clone();
        proof {
            lemma_views_push(whole@, path);
            lemma_views_push(candidates@, path);
            assert(keep_paths(keep0)[i as int] == path@);
            assert(keep_paths(keep0).take(i as int + 1) =~= keep_paths(keep0).take(i as int).push(
                path@,
            ));
        }
        whole.push(path.clone());
        candidates.push(path);
        i += 1;
    }
    proof {
        assert(keep_paths(keep0).take(i as int) =~= keep_paths(keep0));
        assert(keep_paths(keep0) + partial_paths(partial0).take(0) =~= keep_paths(keep0));
    }
    let mut parts: Vec<String> = Vec::new();
    i = 0;
    while i < partial.len()
        invariant
            i <= partial@.len(),
            partial0 == partial_views(partial@),
            views(parts@) == partial_paths(partial0).take(i as int),
            views(candidates@) == keep_paths(keep0) + partial_paths(partial0).take(i as int),
        decreases partial@.len() - i,
    {
        let path: String = partial[i].store_path.clone();
        proof {
            lemma_views_push(parts@, path);
            lemma_views_push(candidates@, path);
            assert(partial_paths(partial0)[i as int] == path@);
            assert(partial_paths(partial0).take(i as int + 1) =~= partial_paths(partial0).take(
                i as int,
            ).push(path@));
            assert(keep_paths(keep0) + partial_paths(partial0).take(i as int + 1) =~= (keep_paths(
                keep0,
            ) + partial_paths(partial0).take(i as int)).push(path@));
        }
        parts.push(path.clone());
        candidates.push(path);
        i += 1;
    }
    let total: usize = candidates.len();
    proof {
        assert(drop_paths(drop0).take(drop0.len() as int) =~= drop_paths(drop0));
        assert(partial_paths(partial0).take(i as int) =~= partial_paths(partial0));
        assert(views(candidates@).len() == total);
        assert(views(whole@).len() == whole@.len());
        assert(views(parts@).len() == parts@.len());
    }
    let ghost start = drop_paths(drop0).to_set();
    let ghost v = keep_paths(keep0) + partial_paths(partial0);
    let ghost end = all_dropped(g, start, v);
    let dropped: NameSet = drop_all(refs, &reverse, &first, &candidates, target_package);
    let first_set: NameSet = NameSet::from_list(&first);
    let count: usize = count_orphans(refs, &reverse, &dropped, target_package, &whole)
        + count_orphans(refs, &reverse, &dropped, target_package, &parts);

    // Rebuild lists
    let ghost f = |e: KeepView| !orphan(g, end, e.store_path);
    let mut new_keep: Vec<KeepEntry> = Vec::new();
    i = 0;
    proof {
        reveal(Seq::filter);
        assert(keep_views(new_keep@) =~= keep0.take(0).filter(f));
    }
    while i < keep.len()
        invariant
            i <= keep@.len(),
            keep0 == keep_views(keep@),
            g == (Graph { refs: refs_map(refs), target: target_package@ }),
            dropped@ == end,
            f == (|e: KeepView| !orphan(g, end, e.store_path)),
            reverse.wf(),
            forall|to: Seq<char>| #[trigger]
                reverse.has(to) <==> exists|from: Seq<char>| refers(refs_map(refs), from, to),
            forall|to: Seq<char>| #[trigger]
                reverse.has(to) ==> views(reverse.at(to)@).to_set() == referrers(
                    refs_map(refs),
                    to,
                ),
            keep_views(new_keep@) == keep0.take(i as int).filter(f),
        decreases keep@.len() - i,
    {
        let entry: KeepEntry = keep[i].copy();
        proof {
            reveal(Seq::filter);
            let t = keep0.take(i as int + 1);
            assert(t.drop_last() =~= keep0.take(i as int));
            assert(t.last() == entry@);
            assert(keep_views(new_keep@.push(entry)) =~= keep_views(new_keep@).push(entry@));
        }
        if !is_orphan(refs, &reverse, &dropped, target_package, &entry.store_path) {
            new_keep.push(entry);
        }
        i += 1;
    }
    proof {
        assert(keep0.take(i as int) =~= keep0);
    }
    let ghost h = |e: PartialView| !orphan(g, end, e.store_path);
    let mut new_partial: Vec<PartialEntry> = Vec::new();
    i = 0;
    proof {
        assert(partial_views(new_partial@) =~= partial0.take(0).filter(h));
    }
    while i < partial.len()
        invariant
            i <= partial@.len(),
            partial0 == partial_views(partial@),
            g == (Graph { refs: refs_map(refs), target: target_package@ }),
            dropped@ == end,
            h == (|e: PartialView| !orphan(g, end, e.store_path)),
            reverse.wf(),
            forall|to: Seq<char>| #[trigger]
                reverse.has(to) <==> exists|from: Seq<char>| refers(refs_map(refs), from, to),
            forall|to: Seq<char>| #[trigger]
                reverse.has(to) ==> views(reverse.at(to)@).to_set() == referrers(
                    refs_map(refs),
                    to,
                ),
            partial_views(new_partial@) == partial0.take(i as int).filter(h),
        decreases partial@.len() - i,
    {
        let entry: PartialEntry = partial[i].copy();
        proof {
            reveal(Seq::filter);
            let t = partial0.take(i as int + 1);
            assert(t.drop_last() =~= partial0.take(i as int));
            assert(t.last() == entry@);
            assert(partial_views(new_partial@.push(entry)) =~= partial_views(new_partial@).push(
                entry@,
            ));
        }
        if !is_orphan(refs, &reverse, &dropped, target_package, &entry.store_path) {
            new_partial.push(entry);
        }
        i += 1;
    }
    proof {
        assert(partial0.take(i as int) =~= partial0);
    }

    // Add newly orphaned paths to drop list
    let ghost fresh = |path: Seq<char>| end.contains(path) && !start.contains(path);
    let mut found: Vec<String> = Vec::new();
    i = 0;
    proof {
        assert(views(found@) =~= v.take(0).filter(fresh));
    }
    while i < candidates.len()
        invariant
            i <= candidates@.len(),
            v == views(candidates@),
            dropped@ == end,
            first_set@ == start,
            fresh == (|path: Seq<char>| end.contains(path) && !start.contains(path)),
            views(found@) == v.take(i as int).filter(fresh),
        decreases candidates@.len() - i,
    {
        let path: String = candidates[i].clone();
        proof {
            reveal(Seq::filter);
            let t = v.take(i as int + 1);
            assert(t.drop_last() =~= v.take(i as int));
            assert(t.last() == path@);
            lemma_views_push(found@, path);
        }
        if dropped.contains(&path) && !first_set.contains(&path) {
            found.push(path);
        }
        i += 1;
    }
    proof {
        assert(v.take(i as int) =~= v);
    }
    let orphans: Vec<String> = sort_texts(&unique(&found));
    let ghost o = new_orphans(g, start, v);
    let ghost entry_of = |p: Seq<char>| orphan_entry(p);
    let mut new_drop: Vec<DropEntry> = Vec::new();
    i = 0;
    while i < drop_list.len()
        invariant
            i <= drop_list@.len(),
            drop0 == drop_views(drop_list@),
            drop_views(new_drop@) == drop0.take(i as int),
        decreases drop_list@.len() - i,
    {
        let entry: DropEntry = drop_list[i].copy();
        proof {
            assert(drop0[i as int] == entry@);
            assert(drop0.take(i as int + 1) =~= drop0.take(i as int).push(entry@));
            assert(drop_views(new_drop@.push(entry)) =~= drop_views(new_drop@).push(entry@));
        }
        new_drop.push(entry);
        i += 1;
    }
    proof {
        assert(drop0.take(i as int) =~= drop0);
        assert(drop0 + o.take(0).map_values(entry_of) =~= drop0);
    }
    i = 0;
    while i < orphans.len()
        invariant
            i <= orphans@.len(),
            views(orphans@) == o,
            entry_of == (|p: Seq<char>| orphan_entry(p)),
            drop_views(new_drop@) == drop0 + o.take(i as int).map_values(entry_of),
        decreases orphans@.len() - i,
    {
        let entry: DropEntry = DropEntry {
            store_path: orphans[i].clone(),
            reason: Reason::OrphanedTransitive,
            matched_sonames: Vec::new(),
        };
        proof {
            assert(entry@.matched_sonames =~= seq![]);
            assert(o[i as int] == orphans@[i as int]@);
            assert(entry@ == entry_of(o[i as int]));
            assert(drop0 + o.take(i as int + 1).map_values(entry_of) =~= (drop0 + o.take(
                i as int,
            ).map_values(entry_of)).push(entry_of(o[i as int])));
            assert(drop_views(new_drop@.push(entry)) =~= drop_views(new_drop@).push(entry@));
        }
        new_drop.push(entry);
        i += 1;
    }
    proof {
        assert(o.take(i as int) =~= o);
    }
    *keep = new_keep;
    *drop_list = new_drop;
    *partial = new_partial;
    count
}

} // verus!
