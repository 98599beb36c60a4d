//! The plan as JSON, and what is read from it when files are rewritten.
use vstd::prelude::*;

use crate::json::{
    json_views, lemma_lookup, lemma_view, member, text_list, text_member, Json, JsonView,
    Member,
};
use crate::order::distinct;
use crate::orphans::{
    drop_paths, keep_paths, partial_paths, DropEntry, DropView, KeepEntry, KeepView,
    PartialEntry, PartialView,
};
use crate::pairs::{
    holds_pairs, insert_pair, law_last_pair_counts, lemma_last_with_key, pair_keys, pair_map,
    string_map,
};
use crate::plan::{Plan, PlanView, Stats, StatsView};
use crate::rewrites::{Rewrite, RewriteView};
use crate::store::{hash_of, store_path_hash};
use crate::table::{NameSet, Table};
use crate::text::{glue, lemma_views_push, opt_view, views};

verus! {

// ---------------------------------------------------------------------------
// Writing
// ---------------------------------------------------------------------------

pub open spec fn keep_json(e: KeepView) -> JsonView {
    JsonView::Record(
        seq![
            ("reason"@, JsonView::Text(e.reason@)),
            ("storePath"@, JsonView::Text(e.store_path)),
        ],
    )
}

pub open spec fn drop_json(e: DropView) -> JsonView {
    if e.matched_sonames.len() > 0 {
        JsonView::Record(
            seq![
                ("matchedSonames"@, text_list(e.matched_sonames)),
                ("reason"@, JsonView::Text(e.reason@)),
                ("storePath"@, JsonView::Text(e.store_path)),
            ],
        )
    } else {
        JsonView::Record(
            seq![
                ("reason"@, JsonView::Text(e.reason@)),
                ("storePath"@, JsonView::Text(e.store_path)),
            ],
        )
    }
}

pub open spec fn partial_json(e: PartialView) -> JsonView {
    JsonView::Record(
        seq![
            ("dropFiles"@, text_list(e.drop_files)),
            ("keepFiles"@, text_list(e.keep_files)),
            ("storePath"@, JsonView::Text(e.store_path)),
        ],
    )
}

pub open spec fn rewrite_json(r: RewriteView) -> JsonView {
    match r.referenced_by {
        Some(file) => JsonView::Record(
            seq![
                ("from"@, JsonView::Text(r.from)),
                ("referencedBy"@, JsonView::Text(file)),
                ("to"@, JsonView::Text(r.to)),
                ("type"@, JsonView::Text(r.kind@)),
            ],
        ),
        None => JsonView::Record(
            seq![
                ("from"@, JsonView::Text(r.from)),
                ("to"@, JsonView::Text(r.to)),
                ("type"@, JsonView::Text(r.kind@)),
            ],
        ),
    }
}

pub open spec fn stats_json(s: StatsView, kept_paths: nat) -> JsonView {
    JsonView::Record(
        seq![
            ("closurePaths"@, JsonView::Number(s.closure_paths as u64)),
            ("closureSizeBytes"@, JsonView::Number(s.closure_size)),
            ("dedupRatio"@, JsonView::Text(s.dedup_ratio)),
            ("keptPaths"@, JsonView::Number(kept_paths as u64)),
            ("keptSizeBytes"@, JsonView::Number(s.kept_size)),
        ],
    )
}

/// The plan as JSON, with the members of each object in the order of their keys.
pub open spec fn plan_json(p: PlanView) -> JsonView {
    JsonView::Record(
        seq![
            (
                "drop"@,
                JsonView::List(p.lists.drop.map_values(|e: DropView| drop_json(e))),
            ),
            (
                "keep"@,
                JsonView::List(p.lists.keep.map_values(|e: KeepView| keep_json(e))),
            ),
            ("package"@, JsonView::Text(p.package)),
            (
                "partial"@,
                JsonView::List(p.lists.partial.map_values(|e: PartialView| partial_json(e))),
            ),
            (
                "rewrites"@,
                JsonView::List(p.lists.rewrites.map_values(|r: RewriteView| rewrite_json(r))),
            ),
            ("runtime"@, JsonView::Text(p.runtime)),
            ("stats"@, stats_json(p.stats, p.lists.keep.len() + p.lists.partial.len())),
        ],
    )
}

fn write_keep(e: &KeepEntry) -> (r: Json)
    ensures
        r@ == keep_json(e@),
{
    let members: Vec<Member> = vec![
        text_member("reason", e.reason.text()),
        text_member("storePath", &e.store_path),
    ];
    let r: Json = Json::Record(members);
    proof {
        lemma_view(r);
        assert(r@->Record_0 =~= keep_json(e@)->Record_0);
    }
    r
}

fn write_drop(e: &DropEntry) -> (r: Json)
    ensures
        r@ == drop_json(e@),
{
    let members: Vec<Member> = if e.matched_sonames.len() > 0 {
        vec![
            member("matchedSonames", Json::from_texts(&e.matched_sonames)),
            text_member("reason", e.reason.text()),
            text_member("storePath", &e.store_path),
        ]
    } else {
        vec![
            text_member("reason", e.reason.text()),
            text_member("storePath", &e.store_path),
        ]
    };
    let r: Json = Json::Record(members);
    proof {
        lemma_view(r);
        assert(r@->Record_0 =~= drop_json(e@)->Record_0);
    }
    r
}

fn write_partial(e: &PartialEntry) -> (r: Json)
    ensures
        r@ == partial_json(e@),
{
    let members: Vec<Member> = vec![
        member("dropFiles", Json::from_texts(&e.drop_files)),
        member("keepFiles", Json::from_texts(&e.keep_files)),
        text_member("storePath", &e.store_path),
    ];
    let r: Json = Json::Record(members);
    proof {
        lemma_view(r);
        assert(r@->Record_0 =~= partial_json(e@)->Record_0);
    }
    r
}

fn write_rewrite(e: &Rewrite) -> (r: Json)
    ensures
        r@ == rewrite_json(e@),
{
    let members: Vec<Member> = match &e.referenced_by {
        Some(file) => vec![
            text_member("from", &e.from),
            text_member("referencedBy", file),
            text_member("to", &e.to),
            text_member("type", e.kind.text()),
        ],
        None => vec![
            text_member("from", &e.from),
            text_member("to", &e.to),
            text_member("type", e.kind.text()),
        ],
    };
    let r: Json = Json::Record(members);
    proof {
        lemma_view(r);
        assert(r@->Record_0 =~= rewrite_json(e@)->Record_0);
    }
    r
}

fn write_stats(s: &Stats, kept_paths: usize) -> (r: Json)
    ensures
        r@ == stats_json(s@, kept_paths as nat),
{
    let members: Vec<Member> = vec![
        member("closurePaths", Json::Number(s.closure_paths as u64)),
        member("closureSizeBytes", Json::Number(s.closure_size)),
        text_member("dedupRatio", &s.dedup_ratio),
        member("keptPaths", Json::Number(kept_paths as u64)),
        member("keptSizeBytes", Json::Number(s.kept_size)),
    ];
    let r: Json = Json::Record(members);
    proof {
        lemma_view(r);
        assert(r@->Record_0 =~= stats_json(s@, kept_paths as nat)->Record_0);
    }
    r
}

/// The plan as JSON.
pub fn write_plan(plan: &Plan) -> (r: Json)
    requires
        plan.lists.keep@.len() + plan.lists.partial@.len() <= usize::MAX,
    ensures
        r@ == plan_json(plan@),
{
    let mut drop: Vec<Json> = Vec::new();
    let mut i: usize = 0;
    while i < plan.lists.drop.len()
        invariant
            i <= plan.lists.drop@.len(),
            drop@.len() == i,
            forall|k: int| 0 <= k < i ==> (#[trigger] drop@[k])@ == drop_json(plan.lists.drop@[k]@),
        decreases plan.lists.drop@.len() - i,
    {
        drop.push(write_drop(&plan.lists.drop[i]));
        i += 1;
    }
    let mut keep: Vec<Json> = Vec::new();
    i = 0;
    while i < plan.lists.keep.len()
        invariant
            i <= plan.lists.keep@.len(),
            keep@.len() == i,
            forall|k: int| 0 <= k < i ==> (#[trigger] keep@[k])@ == keep_json(plan.lists.keep@[k]@),
        decreases plan.lists.keep@.len() - i,
    {
        keep.push(write_keep(&plan.lists.keep[i]));
        i += 1;
    }
    let mut partial: Vec<Json> = Vec::new();
    i = 0;
    while i < plan.lists.partial.len()
        invariant
            i <= plan.lists.partial@.len(),
            partial@.len() == i,
            forall|k: int|
                0 <= k < i ==> (#[trigger] partial@[k])@ == partial_json(plan.lists.partial@[k]@),
        decreases plan.lists.partial@.len() - i,
    {
        partial.push(write_partial(&plan.lists.partial[i]));
        i += 1;
    }
    let mut rewrites: Vec<Json> = Vec::new();
    i = 0;
    while i < plan.lists.rewrites.len()
        invariant
            i <= plan.lists.rewrites@.len(),
            rewrites@.len() == i,
            forall|k: int|
                0 <= k < i ==> (#[trigger] rewrites@[k])@ == rewrite_json(plan.lists.rewrites@[k]@),
        decreases plan.lists.rewrites@.len() - i,
    {
        rewrites.push(write_rewrite(&plan.lists.rewrites[i]));
        i += 1;
    }
    proof {
        assert(json_views(drop@) =~= plan@.lists.drop.map_values(|e: DropView| drop_json(e)));
        assert(json_views(keep@) =~= plan@.lists.keep.map_values(|e: KeepView| keep_json(e)));
        assert(json_views(partial@) =~= plan@.lists.partial.map_values(
            |e: PartialView| partial_json(e),
        ));
        assert(json_views(rewrites@) =~= plan@.lists.rewrites.map_values(
            |r: RewriteView| rewrite_json(r),
        ));
    }
    let drop: Json = Json::List(drop);
    let keep: Json = Json::List(keep);
    let partial: Json = Json::List(partial);
    let rewrites: Json = Json::List(rewrites);
    proof {
        lemma_view(drop);
        lemma_view(keep);
        lemma_view(partial);
        lemma_view(rewrites);
    }
    let kept_paths: usize = plan.lists.keep.len() + plan.lists.partial.len();
    let members: Vec<Member> = vec![
        member("drop", drop),
        member("keep", keep),
        text_member("package", &plan.package),
        member("partial", partial),
        member("rewrites", rewrites),
        text_member("runtime", &plan.runtime),
        member("stats", write_stats(&plan.stats, kept_paths)),
    ];
    let r: Json = Json::Record(members);
    proof {
        lemma_view(r);
        assert(r@->Record_0 =~= plan_json(plan@)->Record_0);
    }
    r
}

// ---------------------------------------------------------------------------
// Reading
// ---------------------------------------------------------------------------

/// The list of a member. A plan without it has an empty one.
pub open spec fn listed(plan: JsonView, key: Seq<char>) -> Seq<JsonView> {
    match plan.list_at(key) {
        Some(list) => list,
        None => seq![],
    }
}

/// The store paths of entries. An entry without one is left out.
pub open spec fn store_paths_in(list: Seq<JsonView>) -> Seq<Seq<char>>
    decreases list.len(),
{
    if list.len() == 0 {
        seq![]
    } else {
        match list.last().text_at("storePath"@) {
            Some(path) => store_paths_in(list.drop_last()).push(path),
            None => store_paths_in(list.drop_last()),
        }
    }
}

/// What is rewritten to what. An entry without both is left out.
pub open spec fn pairs_in(list: Seq<JsonView>) -> Seq<(Seq<char>, Seq<char>)>
    decreases list.len(),
{
    if list.len() == 0 {
        seq![]
    } else {
        match (list.last().text_at("from"@), list.last().text_at("to"@)) {
            (Some(from), Some(to)) => pairs_in(list.drop_last()).push((from, to)),
            _ => pairs_in(list.drop_last()),
        }
    }
}

/// Kept store paths go below `/app`.
pub open spec fn app_pairs(paths: Seq<Seq<char>>) -> Seq<(Seq<char>, Seq<char>)> {
    paths.map_values(|path: Seq<char>| (path, "/app"@ + path))
}

/// What a plan rewrites to what: its explicit rewrites, then the store paths that
/// it keeps, whole or in part.
pub open spec fn plan_pairs(plan: JsonView) -> Seq<(Seq<char>, Seq<char>)> {
    pairs_in(listed(plan, "rewrites"@)) + app_pairs(store_paths_in(listed(plan, "keep"@)))
        + app_pairs(store_paths_in(listed(plan, "partial"@)))
}

/// The store paths of the entries of a list.
fn read_store_paths(plan: &Json, key: &str) -> (r: Vec<String>)
    ensures
        views(r@) == store_paths_in(listed(plan@, key@)),
{
    let ghost all = listed(plan@, key@);
    let mut r: Vec<String> = Vec::new();
    proof {
        assert(views(r@) =~= store_paths_in(all.take(0)));
    }
    match plan.list_at(key) {
        Some(list) => {
            let mut i: usize = 0;
            while i < list.len()
                invariant
                    i <= list@.len(),
                    all == json_views(list@),
                    views(r@) == store_paths_in(all.take(i as int)),
                decreases list@.len() - i,
            {
                proof {
                    let t = all.take(i as int + 1);
                    assert(t.drop_last() =~= all.take(i as int));
                    assert(t.last() == list@[i as int]@);
                }
                match list[i].text_at("storePath") {
                    Some(path) => {
                        let path: String = path.clone();
                        proof {
                            lemma_views_push(r@, path);
                        }
                        r.push(path);
                    },
                    None => {},
                }
                i += 1;
            }
            proof {
                assert(all.take(i as int) =~= all);
            }
        },
        None => {
            proof {
                assert(all.take(0) =~= all);
            }
        },
    }
    r
}

/// Adds that kept store paths go below `/app`.
fn insert_app_paths(
    table: &mut Table<String>,
    paths: &Vec<String>,
    Ghost(pairs): Ghost<Seq<(Seq<char>, Seq<char>)>>,
)
    requires
        holds_pairs(&*old(table), pairs),
    ensures
        holds_pairs(&*final(table), pairs + app_pairs(views(paths@))),
{
    let ghost more = app_pairs(views(paths@));
    let mut i: usize = 0;
    proof {
        assert(pairs + more.take(0) =~= pairs);
    }
    while i < paths.len()
        invariant
            i <= paths@.len(),
            more == app_pairs(views(paths@)),
            holds_pairs(&*table, pairs + more.take(i as int)),
        decreases paths@.len() - i,
    {
        let path: String = paths[i].clone();
        let to: String = glue("/app", &path);
        proof {
            assert(more[i as int] == (path@, to@));
            assert(pairs + more.take(i as int + 1) =~= (pairs + more.take(i as int)).push(
                (path@, to@),
            ));
        }
        insert_pair(table, path, to, Ghost(pairs + more.take(i as int)));
        i += 1;
    }
    proof {
        assert(more.take(i as int) =~= more);
    }
}

/// What a plan rewrites to what.
pub fn build_rewrite_map(plan: &Json) -> (r: Table<String>)
    ensures
        holds_pairs(&r, plan_pairs(plan@)),
{
    let mut table: Table<String> = Table::new();
    let ghost mut pairs = Seq::<(Seq<char>, Seq<char>)>::empty();
    proof {
        assert(string_map(&table) =~= pair_map(pairs));
        assert(table.key_list() =~= distinct(pair_keys(pairs)));
    }
    // Explicit rewrites from the plan
    let ghost all = listed(plan@, "rewrites"@);
    proof {
        assert(pairs == pairs_in(all.take(0)));
    }
    match plan.list_at("rewrites") {
        Some(list) => {
            let mut i: usize = 0;
            while i < list.len()
                invariant
                    i <= list@.len(),
                    all == json_views(list@),
                    holds_pairs(&table, pairs),
                    pairs == pairs_in(all.take(i as int)),
                decreases list@.len() - i,
            {
                proof {
                    let t = all.take(i as int + 1);
                    assert(t.drop_last() =~= all.take(i as int));
                    assert(t.last() == list@[i as int]@);
                }
                match (list[i].text_at("from"), list[i].text_at("to")) {
                    (Some(from), Some(to)) => {
                        insert_pair(&mut table, from.clone(), to.clone(), Ghost(pairs));
                        proof {
                            pairs = pairs.push((from@, to@));
                        }
                    },
                    _ => {},
                }
                i += 1;
            }
            proof {
                assert(all.take(i as int) =~= all);
            }
        },
        None => {
            proof {
                assert(all.take(0) =~= all);
            }
        },
    }
    // Keep paths: /nix/store/… → /app/nix/store/…
    let keep: Vec<String> = read_store_paths(plan, "keep");
    insert_app_paths(&mut table, &keep, Ghost(pairs));
    // Partial paths: same treatment
    let partial: Vec<String> = read_store_paths(plan, "partial");
    insert_app_paths(&mut table, &partial, Ghost(pairs + app_pairs(views(keep@))));
    table
}

/// The hashes of store paths.
pub open spec fn hashes_of(paths: Seq<Seq<char>>) -> Set<Seq<char>> {
    paths.map_values(|path: Seq<char>| hash_of(path)).to_set()
}

/// The hashes of the store paths that a plan drops.
pub fn build_drop_hashes(plan: &Json) -> (r: NameSet)
    ensures
        r@ == hashes_of(store_paths_in(listed(plan@, "drop"@))),
{
    let paths: Vec<String> = read_store_paths(plan, "drop");
    let ghost v = views(paths@);
    let ghost f = |path: Seq<char>| hash_of(path);
    let mut hashes: Vec<String> = Vec::new();
    let mut i: usize = 0;
    while i < paths.len()
        invariant
            i <= paths@.len(),
            v == views(paths@),
            f == (|path: Seq<char>| hash_of(path)),
            views(hashes@) == v.take(i as int).map_values(f),
        decreases paths@.len() - i,
    {
        let hash: String = store_path_hash(&paths[i]).to_owned();
        proof {
            lemma_views_push(hashes@, hash);
            assert(v[i as int] == paths@[i as int]@);
            assert(v.take(i as int + 1).map_values(f) =~= v.take(i as int).map_values(f).push(
                f(v[i as int]),
            ));
        }
        hashes.push(hash);
        i += 1;
    }
    proof {
        assert(v.take(i as int) =~= v);
    }
    NameSet::from_list(&hashes)
}

/// The store paths that a plan keeps whole.
pub fn kept_store_paths(plan: &Json) -> (r: Vec<String>)
    ensures
        views(r@) == store_paths_in(listed(plan@, "keep"@)),
{
    read_store_paths(plan, "keep")
}

/// The package that a plan is for.
pub fn plan_package(plan: &Json) -> (r: Option<String>)
    ensures
        opt_view(r) == plan@.text_at("package"@),
{
    match plan.text_at("package") {
        Some(s) => Some(s.clone()),
        None => None,
    }
}

/// A store path, and the files of it that are kept.
pub struct PartialCopy {
    pub store_path: String,
    pub keep_files: Vec<String>,
}

pub open spec fn copy_views(list: Seq<PartialCopy>) -> Seq<(Seq<char>, Seq<Seq<char>>)> {
    list.map_values(|c: PartialCopy| (c.store_path@, views(c.keep_files@)))
}

/// The texts in a list. What is no text is left out.
pub open spec fn texts_in(list: Seq<JsonView>) -> Seq<Seq<char>>
    decreases list.len(),
{
    if list.len() == 0 {
        seq![]
    } else {
        match list.last().text() {
            Some(s) => texts_in(list.drop_last()).push(s),
            None => texts_in(list.drop_last()),
        }
    }
}

/// The store paths of entries, and the files of them that are kept.
pub open spec fn copies_in(list: Seq<JsonView>) -> Seq<(Seq<char>, Seq<Seq<char>>)>
    decreases list.len(),
{
    if list.len() == 0 {
        seq![]
    } else {
        match list.last().text_at("storePath"@) {
            Some(path) => copies_in(list.drop_last()).push(
                (path, texts_in(listed(list.last(), "keepFiles"@))),
            ),
            None => copies_in(list.drop_last()),
        }
    }
}

fn read_texts(value: &Json, key: &str) -> (r: Vec<String>)
    ensures
        views(r@) == texts_in(listed(value@, key@)),
{
    let ghost all = listed(value@, key@);
    let mut r: Vec<String> = Vec::new();
    proof {
        assert(views(r@) =~= texts_in(all.take(0)));
    }
    match value.list_at(key) {
        Some(list) => {
            let mut i: usize = 0;
            while i < list.len()
                invariant
                    i <= list@.len(),
                    all == json_views(list@),
                    views(r@) == texts_in(all.take(i as int)),
                decreases list@.len() - i,
            {
                proof {
                    let t = all.take(i as int + 1);
                    assert(t.drop_last() =~= all.take(i as int));
                    assert(t.last() == list@[i as int]@);
                }
                match list[i].text() {
                    Some(s) => {
                        let s: String = s.clone();
                        proof {
                            lemma_views_push(r@, s);
                        }
                        r.push(s);
                    },
                    None => {},
                }
                i += 1;
            }
            proof {
                assert(all.take(i as int) =~= all);
            }
        },
        None => {
            proof {
                assert(all.take(0) =~= all);
            }
        },
    }
    r
}

/// The store paths that a plan keeps in part, and which of their files.
pub fn partial_store_paths(plan: &Json) -> (r: Vec<PartialCopy>)
    ensures
        copy_views(r@) == copies_in(listed(plan@, "partial"@)),
{
    let ghost all = listed(plan@, "partial"@);
    let mut r: Vec<PartialCopy> = Vec::new();
    proof {
        assert(copy_views(r@) =~= copies_in(all.take(0)));
    }
    match plan.list_at("partial") {
        Some(list) => {
            let mut i: usize = 0;
            while i < list.len()
                invariant
                    i <= list@.len(),
                    all == json_views(list@),
                    copy_views(r@) == copies_in(all.take(i as int)),
                decreases list@.len() - i,
            {
                proof {
                    let t = all.take(i as int + 1);
                    assert(t.drop_last() =~= all.take(i as int));
                    assert(t.last() == list@[i as int]@);
                }
                match list[i].text_at("storePath") {
                    Some(path) => {
                        let c: PartialCopy = PartialCopy {
                            store_path: path.clone(),
                            keep_files: read_texts(&list[i], "keepFiles"),
                        };
                        proof {
                            assert(copy_views(r@.push(c)) =~= copy_views(r@).push(
                                (c.store_path@, views(c.keep_files@)),
                            ));
                        }
                        r.push(c);
                    },
                    None => {},
                }
                i += 1;
            }
            proof {
                assert(all.take(i as int) =~= all);
            }
        },
        None => {
            proof {
                assert(all.take(0) =~= all);
            }
        },
    }
    r
}

// ---------------------------------------------------------------------------
// Laws
// ---------------------------------------------------------------------------

/// The members of a plan.
proof fn lemma_plan_members(p: PlanView)
    ensures
        listed(plan_json(p), "drop"@) == p.lists.drop.map_values(|e: DropView| drop_json(e)),
        listed(plan_json(p), "keep"@) == p.lists.keep.map_values(|e: KeepView| keep_json(e)),
        listed(plan_json(p), "partial"@) == p.lists.partial.map_values(
            |e: PartialView| partial_json(e),
        ),
        listed(plan_json(p), "rewrites"@) == p.lists.rewrites.map_values(
            |r: RewriteView| rewrite_json(r),
        ),
        plan_json(p).text_at("package"@) == Some(p.package),
{
    let m = plan_json(p)->Record_0;
    reveal_strlit("drop");
    reveal_strlit("keep");
    reveal_strlit("package");
    reveal_strlit("partial");
    reveal_strlit("rewrites");
    assert("drop"@[0] != "keep"@[0]);
    assert("package"@[2] != "partial"@[2]);
    lemma_lookup(m, "drop"@, 0);
    lemma_lookup(m, "keep"@, 1);
    lemma_lookup(m, "package"@, 2);
    lemma_lookup(m, "partial"@, 3);
    lemma_lookup(m, "rewrites"@, 4);
}

/// The members of the entries of a plan.
proof fn lemma_entry_members(k: KeepView, d: DropView, p: PartialView, r: RewriteView)
    ensures
        keep_json(k).text_at("storePath"@) == Some(k.store_path),
        drop_json(d).text_at("storePath"@) == Some(d.store_path),
        partial_json(p).text_at("storePath"@) == Some(p.store_path),
        listed(partial_json(p), "keepFiles"@) == p.keep_files.map_values(
            |t: Seq<char>| JsonView::Text(t),
        ),
        rewrite_json(r).text_at("from"@) == Some(r.from),
        rewrite_json(r).text_at("to"@) == Some(r.to),
{
    reveal_strlit("storePath");
    reveal_strlit("reason");
    reveal_strlit("matchedSonames");
    reveal_strlit("dropFiles");
    reveal_strlit("keepFiles");
    reveal_strlit("from");
    reveal_strlit("to");
    reveal_strlit("referencedBy");
    assert("from"@.len() != "to"@.len());
    assert("referencedBy"@.len() != "to"@.len());
    assert("dropFiles"@[0] != "keepFiles"@[0]);
    assert("dropFiles"@[0] != "storePath"@[0]);
    assert("keepFiles"@[0] != "storePath"@[0]);
    lemma_lookup(keep_json(k)->Record_0, "storePath"@, 1);
    if d.matched_sonames.len() > 0 {
        lemma_lookup(drop_json(d)->Record_0, "storePath"@, 2);
    } else {
        lemma_lookup(drop_json(d)->Record_0, "storePath"@, 1);
    }
    lemma_lookup(partial_json(p)->Record_0, "storePath"@, 2);
    lemma_lookup(partial_json(p)->Record_0, "keepFiles"@, 1);
    lemma_lookup(rewrite_json(r)->Record_0, "from"@, 0);
    match r.referenced_by {
        Some(_) => lemma_lookup(rewrite_json(r)->Record_0, "to"@, 2),
        None => lemma_lookup(rewrite_json(r)->Record_0, "to"@, 1),
    }
}

proof fn lemma_keep_round_trip(list: Seq<KeepView>)
    ensures
        store_paths_in(list.map_values(|e: KeepView| keep_json(e))) == keep_paths(list),
    decreases list.len(),
{
    let json = list.map_values(|e: KeepView| keep_json(e));
    if list.len() > 0 {
        let rest = list.drop_last();
        lemma_keep_round_trip(rest);
        lemma_entry_members(list.last(), arbitrary(), arbitrary(), arbitrary());
        assert(json.drop_last() =~= rest.map_values(|e: KeepView| keep_json(e)));
        assert(keep_paths(list) =~= keep_paths(rest).push(list.last().store_path));
    } else {
        assert(store_paths_in(json) =~= keep_paths(list));
    }
}

proof fn lemma_drop_round_trip(list: Seq<DropView>)
    ensures
        store_paths_in(list.map_values(|e: DropView| drop_json(e))) == drop_paths(list),
    decreases list.len(),
{
    let json = list.map_values(|e: DropView| drop_json(e));
    if list.len() > 0 {
        let rest = list.drop_last();
        lemma_drop_round_trip(rest);
        lemma_entry_members(arbitrary(), list.last(), arbitrary(), arbitrary());
        assert(json.drop_last() =~= rest.map_values(|e: DropView| drop_json(e)));
        assert(drop_paths(list) =~= drop_paths(rest).push(list.last().store_path));
    } else {
        assert(store_paths_in(json) =~= drop_paths(list));
    }
}

proof fn lemma_texts_round_trip(list: Seq<Seq<char>>)
    ensures
        texts_in(list.map_values(|t: Seq<char>| JsonView::Text(t))) == list,
    decreases list.len(),
{
    let json = list.map_values(|t: Seq<char>| JsonView::Text(t));
    if list.len() > 0 {
        let rest = list.drop_last();
        lemma_texts_round_trip(rest);
        assert(json.drop_last() =~= rest.map_values(|t: Seq<char>| JsonView::Text(t)));
        assert(list =~= rest.push(list.last()));
    } else {
        assert(texts_in(json) =~= list);
    }
}

/// The store paths that are kept in part, with the files that are kept.
pub open spec fn partial_copies(list: Seq<PartialView>) -> Seq<(Seq<char>, Seq<Seq<char>>)> {
    list.map_values(|e: PartialView| (e.store_path, e.keep_files))
}

proof fn lemma_partial_round_trip(list: Seq<PartialView>)
    ensures
        store_paths_in(list.map_values(|e: PartialView| partial_json(e))) == partial_paths(list),
        copies_in(list.map_values(|e: PartialView| partial_json(e))) == partial_copies(list),
    decreases list.len(),
{
    let json = list.map_values(|e: PartialView| partial_json(e));
    if list.len() > 0 {
        let rest = list.drop_last();
        lemma_partial_round_trip(rest);
        lemma_entry_members(arbitrary(), arbitrary(), list.last(), arbitrary());
        lemma_texts_round_trip(list.last().keep_files);
        assert(json.drop_last() =~= rest.map_values(|e: PartialView| partial_json(e)));
        assert(partial_paths(list) =~= partial_paths(rest).push(list.last().store_path));
        assert(partial_copies(list) =~= partial_copies(rest).push(
            (list.last().store_path, list.last().keep_files),
        ));
    } else {
        assert(store_paths_in(json) =~= partial_paths(list));
        assert(copies_in(json) =~= partial_copies(list));
    }
}

/// The pairs of rewrites.
pub open spec fn rewrite_pairs(list: Seq<RewriteView>) -> Seq<(Seq<char>, Seq<char>)> {
    list.map_values(|r: RewriteView| (r.from, r.to))
}

proof fn lemma_rewrite_round_trip(list: Seq<RewriteView>)
    ensures
        pairs_in(list.map_values(|r: RewriteView| rewrite_json(r))) == rewrite_pairs(list),
    decreases list.len(),
{
    let json = list.map_values(|r: RewriteView| rewrite_json(r));
    if list.len() > 0 {
        let rest = list.drop_last();
        lemma_rewrite_round_trip(rest);
        lemma_entry_members(arbitrary(), arbitrary(), arbitrary(), list.last());
        assert(json.drop_last() =~= rest.map_values(|r: RewriteView| rewrite_json(r)));
        assert(rewrite_pairs(list) =~= rewrite_pairs(rest).push(
            (list.last().from, list.last().to),
        ));
    } else {
        assert(pairs_in(json) =~= rewrite_pairs(list));
    }
}

/// What is read from a written plan is what the plan says: what it rewrites to
/// what, which store paths it keeps whole, which in part and with which files,
/// which it drops, and for which package it is.
pub proof fn law_plan_round_trip(p: PlanView)
    ensures
        plan_pairs(plan_json(p)) == rewrite_pairs(p.lists.rewrites) + app_pairs(
            keep_paths(p.lists.keep),
        ) + app_pairs(partial_paths(p.lists.partial)),
        store_paths_in(listed(plan_json(p), "keep"@)) == keep_paths(p.lists.keep),
        copies_in(listed(plan_json(p), "partial"@)) == partial_copies(p.lists.partial),
        store_paths_in(listed(plan_json(p), "drop"@)) == drop_paths(p.lists.drop),
        plan_json(p).text_at("package"@) == Some(p.package),
{
    lemma_plan_members(p);
    lemma_keep_round_trip(p.lists.keep);
    lemma_drop_round_trip(p.lists.drop);
    lemma_partial_round_trip(p.lists.partial);
    lemma_rewrite_round_trip(p.lists.rewrites);
}

/// Each store path that a written plan keeps, whole or in part, is rewritten to
/// itself below `/app`, also where the plan has another rewrite for it.
pub proof fn law_kept_paths_go_below_app(p: PlanView, path: Seq<char>)
    requires
        keep_paths(p.lists.keep).contains(path) || partial_paths(p.lists.partial).contains(path),
    ensures
        pair_map(plan_pairs(plan_json(p))).contains_key(path),
        pair_map(plan_pairs(plan_json(p)))[path] == "/app"@ + path,
{
    law_plan_round_trip(p);
    let first = rewrite_pairs(p.lists.rewrites);
    let keep = keep_paths(p.lists.keep);
    let partial = partial_paths(p.lists.partial);
    let pairs = plan_pairs(plan_json(p));
    let at = if partial.contains(path) {
        first.len() + keep.len() + partial.index_of(path)
    } else {
        first.len() + keep.index_of(path)
    };
    assert(pairs[at].0 == path);
    let k = lemma_last_with_key(pairs, path, at);
    assert(k >= first.len());
    if k < first.len() + keep.len() {
        assert(pairs[k] == app_pairs(keep)[k - first.len()]);
    } else {
        assert(pairs[k] == app_pairs(partial)[k - first.len() - keep.len()]);
    }
    law_last_pair_counts(pairs, k);
}

} // verus!
