//! The plan: what is kept of a closure, what is dropped, and which paths are
//! rewritten.
use vstd::multiset::Multiset;
use vstd::prelude::*;

use crate::classify::{Classification, ClassifyResult, ClassView};
use crate::json::{Json, JsonView};
use crate::order::{
    by_text, ints, lemma_sorted_by_text, picked, ranking, sort_texts, sorted, sorted_by_text,
    text_le, text_positions,
};
use crate::orphans::{
    drop_paths, drop_views, keep_paths, keep_views, partial_paths, partial_views, DropEntry,
    DropView, KeepEntry, KeepView, PartialEntry, PartialView,
};
use crate::rewrites::{rewrite_views, Rewrite, RewriteView};
use crate::table::NameSet;
use crate::text::{lemma_views_push, views};

verus! {

// ---------------------------------------------------------------------------
// Lists of entries
// ---------------------------------------------------------------------------

/// The store paths of a closure by what becomes of them, and the rewrites.
pub struct Lists {
    pub keep: Vec<KeepEntry>,
    pub drop: Vec<DropEntry>,
    pub partial: Vec<PartialEntry>,
    pub rewrites: Vec<Rewrite>,
}

/// The model of the lists.
pub struct ListsView {
    pub keep: Seq<KeepView>,
    pub drop: Seq<DropView>,
    pub partial: Seq<PartialView>,
    pub rewrites: Seq<RewriteView>,
}

/// The lists with a classified store path added. The rewrites of a store path
/// that is kept whole are not needed.
pub open spec fn added(lists: ListsView, c: ClassView) -> ListsView {
    match c.classification {
        Classification::Keep => ListsView {
            keep: lists.keep.push(KeepView { store_path: c.store_path, reason: c.reason }),
            ..lists
        },
        Classification::Drop => ListsView {
            drop: lists.drop.push(
                DropView {
                    store_path: c.store_path,
                    reason: c.reason,
                    matched_sonames: sorted(c.matched_sonames),
                },
            ),
            rewrites: lists.rewrites + c.rewrites,
            ..lists
        },
        Classification::Partial => ListsView {
            partial: lists.partial.push(
                PartialView {
                    store_path: c.store_path,
                    keep_files: sorted(c.kept_files),
                    drop_files: sorted(c.dropped_files),
                },
            ),
            rewrites: lists.rewrites + c.rewrites,
            ..lists
        },
    }
}

/// The lists of several classified store paths.
pub open spec fn all_added(results: Seq<ClassView>) -> ListsView
    decreases results.len(),
{
    if results.len() == 0 {
        ListsView { keep: seq![], drop: seq![], partial: seq![], rewrites: seq![] }
    } else {
        added(all_added(results.drop_last()), results.last())
    }
}

/// The store paths of lists.
pub open spec fn listed_paths(lists: ListsView) -> Multiset<Seq<char>> {
    keep_paths(lists.keep).to_multiset().add(drop_paths(lists.drop).to_multiset()).add(
        partial_paths(lists.partial).to_multiset(),
    )
}

/// Each store path of a closure is listed once, as kept, as dropped or as kept in
/// part.
pub proof fn law_each_path_is_listed_once(results: Seq<ClassView>)
    ensures
        listed_paths(all_added(results)) == results.map_values(
            |c: ClassView| c.store_path,
        ).to_multiset(),
    decreases results.len(),
{
    broadcast use vstd::seq_lib::group_to_multiset_ensures;

    let paths = results.map_values(|c: ClassView| c.store_path);
    let lists = all_added(results);
    if results.len() == 0 {
        assert(keep_paths(lists.keep) =~= paths);
        assert(drop_paths(lists.drop) =~= paths);
        assert(partial_paths(lists.partial) =~= paths);
        assert(listed_paths(lists) =~= paths.to_multiset());
    } else {
        let rest = results.drop_last();
        let before = all_added(rest);
        let last = results.last();
        law_each_path_is_listed_once(rest);
        assert(paths =~= rest.map_values(|c: ClassView| c.store_path).push(last.store_path));
        match last.classification {
            Classification::Keep => {
                assert(keep_paths(lists.keep) =~= keep_paths(before.keep).push(last.store_path));
            },
            Classification::Drop => {
                assert(drop_paths(lists.drop) =~= drop_paths(before.drop).push(last.store_path));
            },
            Classification::Partial => {
                assert(partial_paths(lists.partial) =~= partial_paths(before.partial).push(
                    last.store_path,
                ));
            },
        }
        assert(listed_paths(lists) =~= paths.to_multiset());
    }
}

impl Lists {
    pub open spec fn view(self) -> ListsView {
        ListsView {
            keep: keep_views(self.keep@),
            drop: drop_views(self.drop@),
            partial: partial_views(self.partial@),
            rewrites: rewrite_views(self.rewrites@),
        }
    }

    pub fn new() -> (r: Lists)
        ensures
            r@ == (ListsView { keep: seq![], drop: seq![], partial: seq![], rewrites: seq![] }),
    {
        let r: Lists = Lists {
            keep: Vec::new(),
            drop: Vec::new(),
            partial: Vec::new(),
            rewrites: Vec::new(),
        };
        proof {
            assert(r@.keep =~= seq![]);
            assert(r@.drop =~= seq![]);
            assert(r@.partial =~= seq![]);
            assert(r@.rewrites =~= seq![]);
        }
        r
    }

    /// Adds a classified store path.
    pub fn add(&mut self, result: ClassifyResult)
        ensures
            final(self)@ == added(old(self)@, result@),
    {
        let ghost before = *self;
        match result.classification {
            Classification::Keep => {
                let entry: KeepEntry = KeepEntry {
                    store_path: result.store_path,
                    reason: result.reason,
                };
                self.keep.push(entry);
                proof {
                    assert(self@.keep =~= before@.keep.push(entry@));
                }
            },
            Classification::Drop => {
                let entry: DropEntry = DropEntry {
                    store_path: result.store_path,
                    reason: result.reason,
                    matched_sonames: sort_texts(&result.matched_sonames),
                };
                let mut rewrites: Vec<Rewrite> = result.rewrites;
                self.drop.push(entry);
                self.rewrites.append(&mut rewrites);
                proof {
                    assert(self@.drop =~= before@.drop.push(entry@));
                    assert(self@.rewrites =~= before@.rewrites + result@.rewrites);
                }
            },
            Classification::Partial => {
                let entry: PartialEntry = PartialEntry {
                    store_path: result.store_path,
                    keep_files: sort_texts(&result.kept_files),
                    drop_files: sort_texts(&result.dropped_files),
                };
                let mut rewrites: Vec<Rewrite> = result.rewrites;
                self.partial.push(entry);
                self.rewrites.append(&mut rewrites);
                proof {
                    assert(self@.partial =~= before@.partial.push(entry@));
                    assert(self@.rewrites =~= before@.rewrites + result@.rewrites);
                }
            },
        }
    }
}

// ---------------------------------------------------------------------------
// Rewrites
// ---------------------------------------------------------------------------

/// Some rewrite is of that path.
pub open spec fn rewrites_path(list: Seq<RewriteView>, from: Seq<char>) -> bool {
    exists|i: int| 0 <= i < list.len() && (#[trigger] list[i]).from == from
}

/// The first rewrite of each path.
pub open spec fn first_rewrites(list: Seq<RewriteView>) -> Seq<RewriteView>
    decreases list.len(),
{
    if list.len() == 0 {
        seq![]
    } else if rewrites_path(list.drop_last(), list.last().from) {
        first_rewrites(list.drop_last())
    } else {
        first_rewrites(list.drop_last()).push(list.last())
    }
}

/// The paths that are rewritten.
pub open spec fn rewrite_froms(list: Seq<RewriteView>) -> Seq<Seq<char>> {
    list.map_values(|r: RewriteView| r.from)
}

/// Among the first rewrites no path stands twice, and each rewritten path has one.
pub proof fn law_first_rewrites(list: Seq<RewriteView>)
    ensures
        rewrite_froms(first_rewrites(list)).no_duplicates(),
        forall|from: Seq<char>| #[trigger]
            rewrites_path(first_rewrites(list), from) <==> rewrites_path(list, from),
    decreases list.len(),
{
    if list.len() > 0 {
        let rest = list.drop_last();
        law_first_rewrites(rest);
        let before = first_rewrites(rest);
        let all = first_rewrites(list);
        assert forall|from: Seq<char>| #[trigger]
            rewrites_path(list, from) <==> rewrites_path(rest, from) || from == list.last().from by {
            if rewrites_path(list, from) {
                let i = choose|i: int| 0 <= i < list.len() && (#[trigger] list[i]).from == from;
                if i < rest.len() {
                    assert(rest[i].from == from);
                }
            }
            if rewrites_path(rest, from) {
                let i = choose|i: int| 0 <= i < rest.len() && (#[trigger] rest[i]).from == from;
                assert(list[i].from == from);
            }
            assert(list[list.len() - 1] == list.last());
        }
        if !rewrites_path(rest, list.last().from) {
            assert forall|from: Seq<char>| #[trigger]
                rewrites_path(all, from) <==> rewrites_path(before, from) || from
                    == list.last().from by {
                if rewrites_path(all, from) {
                    let i = choose|i: int| 0 <= i < all.len() && (#[trigger] all[i]).from == from;
                    if i < before.len() {
                        assert(before[i].from == from);
                    }
                }
                if rewrites_path(before, from) {
                    let i = choose|i: int|
                        0 <= i < before.len() && (#[trigger] before[i]).from == from;
                    assert(all[i].from == from);
                }
                assert(all[before.len() as int] == list.last());
            }
            let f = rewrite_froms(all);
            assert forall|i: int, j: int|
                0 <= i < f.len() && 0 <= j < f.len() && i != j implies f[i] != f[j] by {
                assert(!rewrites_path(before, list.last().from));
                if i < before.len() {
                    assert(rewrite_froms(before)[i] == f[i]);
                    assert(before[i].from == f[i]);
                }
                if j < before.len() {
                    assert(rewrite_froms(before)[j] == f[j]);
                    assert(before[j].from == f[j]);
                }
            }
        }
    }
}

/// The first rewrite of each path.
pub fn unique_rewrites(list: &Vec<Rewrite>) -> (r: Vec<Rewrite>)
    ensures
        rewrite_views(r@) == first_rewrites(rewrite_views(list@)),
{
    let ghost v = rewrite_views(list@);
    let mut seen: NameSet = NameSet::new();
    let mut r: Vec<Rewrite> = Vec::new();
    let mut i: usize = 0;
    proof {
        assert(rewrite_views(r@) =~= first_rewrites(v.take(0)));
    }
    while i < list.len()
        invariant
            i <= list@.len(),
            v == rewrite_views(list@),
            rewrite_views(r@) == first_rewrites(v.take(i as int)),
            forall|from: Seq<char>|
                seen@.contains(from) <==> #[trigger] rewrites_path(v.take(i as int), from),
        decreases list@.len() - i,
    {
        let rewrite: Rewrite = list[i].copy();
        let ghost t0 = v.take(i as int);
        let ghost t1 = v.take(i as int + 1);
        proof {
            assert(t1.drop_last() =~= t0);
            assert(t1.last() == rewrite@);
            assert(rewrite_views(r@.push(rewrite)) =~= rewrite_views(r@).push(rewrite@));
            assert forall|from: Seq<char>| #[trigger]
                rewrites_path(t1, from) <==> rewrites_path(t0, from) || from == rewrite@.from by {
                if rewrites_path(t1, from) {
                    let k = choose|k: int| 0 <= k < t1.len() && (#[trigger] t1[k]).from == from;
                    if k < t0.len() {
                        assert(t0[k].from == from);
                    }
                }
                if rewrites_path(t0, from) {
                    let k = choose|k: int| 0 <= k < t0.len() && (#[trigger] t0[k]).from == from;
                    assert(t1[k].from == from);
                }
                assert(t1[i as int] == rewrite@);
            }
        }
        if seen.insert(rewrite.from.clone()) {
            r.push(rewrite);
        }
        i += 1;
    }
    proof {
        assert(v.take(i as int) =~= v);
    }
    r
}

// ---------------------------------------------------------------------------
// Sorting the lists
// ---------------------------------------------------------------------------

/// What a plan lists, sorted by a text.
pub trait Entry: Sized {
    type Model;

    spec fn model(&self) -> Self::Model;

    /// The text by which entries are sorted.
    spec fn text_of(model: Self::Model) -> Seq<char>;

    fn text(&self) -> (r: &String)
        ensures
            r@ == Self::text_of(self.model()),
    ;

    fn duplicate(&self) -> (r: Self)
        ensures
            r.model() == self.model(),
    ;
}

impl Entry for KeepEntry {
    type Model = KeepView;

    open spec fn model(&self) -> KeepView {
        self@
    }

    open spec fn text_of(model: KeepView) -> Seq<char> {
        model.store_path
    }

    fn text(&self) -> (r: &String) {
        &self.store_path
    }

    fn duplicate(&self) -> (r: Self) {
        self.copy()
    }
}

impl Entry for DropEntry {
    type Model = DropView;

    open spec fn model(&self) -> DropView {
        self@
    }

    open spec fn text_of(model: DropView) -> Seq<char> {
        model.store_path
    }

    fn text(&self) -> (r: &String) {
        &self.store_path
    }

    fn duplicate(&self) -> (r: Self) {
        self.copy()
    }
}

impl Entry for PartialEntry {
    type Model = PartialView;

    open spec fn model(&self) -> PartialView {
        self@
    }

    open spec fn text_of(model: PartialView) -> Seq<char> {
        model.store_path
    }

    fn text(&self) -> (r: &String) {
        &self.store_path
    }

    fn duplicate(&self) -> (r: Self) {
        self.copy()
    }
}

impl Entry for Rewrite {
    type Model = RewriteView;

    open spec fn model(&self) -> RewriteView {
        self@
    }

    open spec fn text_of(model: RewriteView) -> Seq<char> {
        model.from
    }

    fn text(&self) -> (r: &String) {
        &self.from
    }

    fn duplicate(&self) -> (r: Self) {
        self.copy()
    }
}

/// The entries in the order of their texts.
fn sort_entries<E: Entry>(list: &Vec<E>) -> (r: Vec<E>)
    ensures
        r@.map_values(|e: E| e.model()) == sorted_by_text(
            list@.map_values(|e: E| e.model()),
            list@.map_values(|e: E| E::text_of(e.model())),
        ),
{
    let ghost v = list@.map_values(|e: E| e.model());
    let ghost keys = list@.map_values(|e: E| E::text_of(e.model()));
    let mut texts: Vec<String> = Vec::new();
    let mut i: usize = 0;
    while i < list.len()
        invariant
            i <= list@.len(),
            keys == list@.map_values(|e: E| E::text_of(e.model())),
            views(texts@) == keys.take(i as int),
        decreases list@.len() - i,
    {
        let text: String = list[i].text().clone();
        proof {
            lemma_views_push(texts@, text);
            assert(keys[i as int] == text@);
            assert(keys.take(i as int + 1) =~= keys.take(i as int).push(text@));
        }
        texts.push(text);
        i += 1;
    }
    proof {
        assert(keys.take(i as int) =~= keys);
        assert(views(texts@).len() == texts@.len());
    }
    let at: Vec<usize> = text_positions(&texts);
    let ghost rank = ranking(by_text(keys), v.len());
    let mut r: Vec<E> = Vec::new();
    i = 0;
    while i < at.len()
        invariant
            i <= at@.len(),
            v == list@.map_values(|e: E| e.model()),
            ints(at@) == rank,
            forall|k: int| 0 <= k < at@.len() ==> (#[trigger] at@[k]) < list@.len(),
            r@.len() == i,
            forall|k: int| 0 <= k < i ==> (#[trigger] r@[k]).model() == v[rank[k]],
        decreases at@.len() - i,
    {
        proof {
            assert(ints(at@)[i as int] == at@[i as int]);
        }
        r.push(list[at[i]].duplicate());
        i += 1;
    }
    proof {
        assert(r@.map_values(|e: E| e.model()) =~= picked(v, rank));
    }
    r
}

// ---------------------------------------------------------------------------
// The plan
// ---------------------------------------------------------------------------

/// The sum of sizes.
pub open spec fn sum_of(sizes: Seq<u64>) -> nat
    decreases sizes.len(),
{
    if sizes.len() == 0 {
        0
    } else {
        sum_of(sizes.drop_last()) + sizes.last() as nat
    }
}

proof fn lemma_sum_of_prefix(sizes: Seq<u64>, k: int)
    requires
        0 <= k <= sizes.len(),
    ensures
        sum_of(sizes.take(k)) <= sum_of(sizes),
    decreases sizes.len() - k,
{
    if k < sizes.len() {
        lemma_sum_of_prefix(sizes, k + 1);
        assert(sizes.take(k + 1).drop_last() =~= sizes.take(k));
    } else {
        assert(sizes.take(k) =~= sizes);
    }
}

/// The sum of sizes, where it fits.
pub fn total_size(sizes: &Vec<u64>) -> (r: Option<u64>)
    ensures
        match r {
            Some(n) => n == sum_of(sizes@),
            None => sum_of(sizes@) > u64::MAX,
        },
{
    let mut total: u64 = 0;
    let mut i: usize = 0;
    while i < sizes.len()
        invariant
            i <= sizes@.len(),
            total == sum_of(sizes@.take(i as int)),
        decreases sizes@.len() - i,
    {
        proof {
            let t = sizes@.take(i as int + 1);
            assert(t.drop_last() =~= sizes@.take(i as int));
            assert(t.last() == sizes@[i as int]);
            lemma_sum_of_prefix(sizes@, i as int + 1);
        }
        match total.checked_add(sizes[i]) {
            Some(n) => {
                total = n;
            },
            None => {
                return None;
            },
        }
        i += 1;
    }
    proof {
        assert(sizes@.take(i as int) =~= sizes@);
    }
    Some(total)
}

/// What the plan says of the sizes of what it lists.
pub struct Stats {
    pub closure_paths: usize,
    pub closure_size: u64,
    pub kept_size: u64,
    /// How much of the closure is not kept, as text.
    pub dedup_ratio: String,
}

/// The model of the statistics.
pub struct StatsView {
    pub closure_paths: usize,
    pub closure_size: u64,
    pub kept_size: u64,
    pub dedup_ratio: Seq<char>,
}

impl Stats {
    pub open spec fn view(self) -> StatsView {
        StatsView {
            closure_paths: self.closure_paths,
            closure_size: self.closure_size,
            kept_size: self.kept_size,
            dedup_ratio: self.dedup_ratio@,
        }
    }
}

/// The plan.
pub struct Plan {
    pub runtime: String,
    pub package: String,
    pub lists: Lists,
    pub stats: Stats,
}

/// The model of the plan.
pub struct PlanView {
    pub runtime: Seq<char>,
    pub package: Seq<char>,
    pub lists: ListsView,
    pub stats: StatsView,
}

impl Plan {
    pub open spec fn view(self) -> PlanView {
        PlanView {
            runtime: self.runtime@,
            package: self.package@,
            lists: self.lists@,
            stats: self.stats@,
        }
    }
}

/// The name of the runtime in its index.
pub open spec fn runtime_name(index: JsonView) -> Seq<char> {
    match index.get2("metadata"@, "Runtime"@) {
        Some(section) => match section.text_at("name"@) {
            Some(name) => name,
            None => "detected-from-index"@,
        },
        None => "detected-from-index"@,
    }
}

/// The lists in order, and one rewrite for each path.
pub open spec fn ordered(lists: ListsView) -> ListsView {
    let rewrites = first_rewrites(lists.rewrites);
    ListsView {
        keep: sorted_by_text(lists.keep, keep_paths(lists.keep)),
        drop: sorted_by_text(lists.drop, drop_paths(lists.drop)),
        partial: sorted_by_text(lists.partial, partial_paths(lists.partial)),
        rewrites: sorted_by_text(rewrites, rewrite_froms(rewrites)),
    }
}

/// The lists of a plan are in order, by store path or by the path that is
/// rewritten. They hold the entries that were there before, and one rewrite for
/// each path.
pub proof fn law_plan_is_in_order(lists: ListsView)
    ensures
        ({
            let r = ordered(lists);
            &&& forall|i: int, j: int|
                0 <= i < j < r.keep.len() ==> text_le(
                    (#[trigger] r.keep[i]).store_path,
                    (#[trigger] r.keep[j]).store_path,
                )
            &&& forall|i: int, j: int|
                0 <= i < j < r.drop.len() ==> text_le(
                    (#[trigger] r.drop[i]).store_path,
                    (#[trigger] r.drop[j]).store_path,
                )
            &&& forall|i: int, j: int|
                0 <= i < j < r.partial.len() ==> text_le(
                    (#[trigger] r.partial[i]).store_path,
                    (#[trigger] r.partial[j]).store_path,
                )
            &&& forall|i: int, j: int|
                0 <= i < j < r.rewrites.len() ==> text_le(
                    (#[trigger] r.rewrites[i]).from,
                    (#[trigger] r.rewrites[j]).from,
                ) && r.rewrites[i].from != r.rewrites[j].from
            &&& forall|e: KeepView| #[trigger] r.keep.contains(e) <==> lists.keep.contains(e)
            &&& forall|e: DropView| #[trigger] r.drop.contains(e) <==> lists.drop.contains(e)
            &&& forall|e: PartialView| #[trigger]
                r.partial.contains(e) <==> lists.partial.contains(e)
            &&& forall|e: RewriteView| #[trigger]
                r.rewrites.contains(e) <==> first_rewrites(lists.rewrites).contains(e)
            &&& r.keep.len() == lists.keep.len()
            &&& r.drop.len() == lists.drop.len()
            &&& r.partial.len() == lists.partial.len()
        }),
{
    let r = ordered(lists);
    let rewrites = first_rewrites(lists.rewrites);
    let froms = rewrite_froms(rewrites);
    lemma_sorted_by_text(lists.keep, keep_paths(lists.keep));
    lemma_sorted_by_text(lists.drop, drop_paths(lists.drop));
    lemma_sorted_by_text(lists.partial, partial_paths(lists.partial));
    lemma_sorted_by_text(rewrites, froms);
    law_first_rewrites(lists.rewrites);
    let rank = ranking(by_text(froms), rewrites.len());
    assert forall|i: int, j: int| 0 <= i < j < r.rewrites.len() implies text_le(
        (#[trigger] r.rewrites[i]).from,
        (#[trigger] r.rewrites[j]).from,
    ) && r.rewrites[i].from != r.rewrites[j].from by {
        assert(rank[i] != rank[j]);
        assert(froms[rank[i]] != froms[rank[j]]);
    }
    let kr = ranking(by_text(keep_paths(lists.keep)), lists.keep.len());
    assert forall|i: int, j: int| 0 <= i < j < r.keep.len() implies text_le(
        (#[trigger] r.keep[i]).store_path,
        (#[trigger] r.keep[j]).store_path,
    ) by {
        assert(kr[i] != kr[j]);
    }
    let dr = ranking(by_text(drop_paths(lists.drop)), lists.drop.len());
    assert forall|i: int, j: int| 0 <= i < j < r.drop.len() implies text_le(
        (#[trigger] r.drop[i]).store_path,
        (#[trigger] r.drop[j]).store_path,
    ) by {
        assert(dr[i] != dr[j]);
    }
    let pr = ranking(by_text(partial_paths(lists.partial)), lists.partial.len());
    assert forall|i: int, j: int| 0 <= i < j < r.partial.len() implies text_le(
        (#[trigger] r.partial[i]).store_path,
        (#[trigger] r.partial[j]).store_path,
    ) by {
        assert(pr[i] != pr[j]);
    }
}

/// Makes the plan. The rewrites for references come behind the others.
pub fn make_plan(
    lists: Lists,
    references: Vec<Rewrite>,
    runtime_index: &Json,
    package: &str,
    stats: Stats,
) -> (r: Plan)
    ensures
        r@ == (PlanView {
            runtime: runtime_name(runtime_index@),
            package: package@,
            lists: ordered(
                ListsView {
                    rewrites: lists@.rewrites + rewrite_views(references@),
                    ..lists@
                },
            ),
            stats: stats@,
        }),
{
    let runtime: String = match runtime_index.get2("metadata", "Runtime") {
        Some(section) => match section.text_at("name") {
            Some(name) => name.clone(),
            None => "detected-from-index".to_owned(),
        },
        None => "detected-from-index".to_owned(),
    };
    let ghost before = lists@;
    let mut all: Vec<Rewrite> = lists.rewrites;
    let mut more: Vec<Rewrite> = references;
    all.append(&mut more);
    let unique: Vec<Rewrite> = unique_rewrites(&all);
    let keep: Vec<KeepEntry> = sort_entries(&lists.keep);
    let drop: Vec<DropEntry> = sort_entries(&lists.drop);
    let partial: Vec<PartialEntry> = sort_entries(&lists.partial);
    let rewrites: Vec<Rewrite> = sort_entries(&unique);
    proof {
        assert(rewrite_views(all@) =~= before.rewrites + rewrite_views(references@));
        assert(lists.keep@.map_values(|e: KeepEntry| e.model()) =~= keep_views(lists.keep@));
        assert(lists.keep@.map_values(|e: KeepEntry| KeepEntry::text_of(e.model())) =~= keep_paths(
            keep_views(lists.keep@),
        ));
        assert(keep@.map_values(|e: KeepEntry| e.model()) =~= keep_views(keep@));
        assert(lists.drop@.map_values(|e: DropEntry| e.model()) =~= drop_views(lists.drop@));
        assert(lists.drop@.map_values(|e: DropEntry| DropEntry::text_of(e.model())) =~= drop_paths(
            drop_views(lists.drop@),
        ));
        assert(drop@.map_values(|e: DropEntry| e.model()) =~= drop_views(drop@));
        assert(lists.partial@.map_values(|e: PartialEntry| e.model()) =~= partial_views(
            lists.partial@,
        ));
        assert(lists.partial@.map_values(|e: PartialEntry| PartialEntry::text_of(e.model()))
            =~= partial_paths(partial_views(lists.partial@)));
        assert(partial@.map_values(|e: PartialEntry| e.model()) =~= partial_views(partial@));
        assert(unique@.map_values(|e: Rewrite| e.model()) =~= rewrite_views(unique@));
        assert(unique@.map_values(|e: Rewrite| Rewrite::text_of(e.model())) =~= rewrite_froms(
            rewrite_views(unique@),
        ));
        assert(rewrites@.map_values(|e: Rewrite| e.model()) =~= rewrite_views(rewrites@));
    }
    Plan {
        runtime,
        package: package.to_owned(),
        lists: Lists { keep, drop, partial, rewrites },
        stats,
    }
}

} // verus!
