//! The closure of a package: its store paths, and which of them refer to which.
use vstd::prelude::*;

use crate::order::{distinct, lemma_sorted_distinct, sort_texts, sorted, text_le, unique};
use crate::table::{NameSet, Table};
use crate::text::{
    lemma_views_push, line_list, lines, list_has, number_of, opt_view, opt_views, parse_number,
    same_text, starts_with, trim, trimmed, views,
};

verus! {

// ---------------------------------------------------------------------------
// Model
// ---------------------------------------------------------------------------

/// What each store path refers to.
pub open spec fn refs_map(refs: &Table<Vec<String>>) -> Map<Seq<char>, Seq<Seq<char>>> {
    refs.map().map_values(|list: Vec<String>| views(list@))
}

/// A line of a closure file that names a store path.
pub open spec fn names_store_path(line: Seq<char>) -> bool {
    "/nix/store/"@.is_prefix_of(trimmed(line))
}

/// A store path in a closure file. Its references are there where their number
/// is.
pub struct Record {
    pub path: Seq<char>,
    pub refs: Option<Seq<Seq<char>>>,
}

/// The store paths that some lines name.
pub open spec fn named_paths(lines: Seq<Seq<char>>) -> Seq<Seq<char>>
    decreases lines.len(),
{
    if lines.len() == 0 {
        seq![]
    } else if names_store_path(lines.last()) {
        named_paths(lines.drop_last()).push(trimmed(lines.last()))
    } else {
        named_paths(lines.drop_last())
    }
}

/// Where `count` lines from line `i` on end.
pub open spec fn end_of(total: nat, i: int, count: nat) -> int {
    if i + count <= total {
        i + count
    } else {
        total as int
    }
}

/// The records of a closure file from line `i` on. A record has a line with a
/// store path, a line with its deriver, a line with the number of its
/// references, and as many lines with one reference each.
pub open spec fn records(lines: Seq<Seq<char>>, i: int) -> Seq<Record>
    decreases lines.len() - i,
{
    if i < 0 || i >= lines.len() {
        seq![]
    } else if !names_store_path(lines[i]) {
        records(lines, i + 1)
    } else {
        let path = trimmed(lines[i]);
        if i + 2 < lines.len() {
            match number_of(trimmed(lines[i + 2]), usize::MAX as nat) {
                Some(count) => {
                    let end = end_of(lines.len(), i + 3, count);
                    seq![Record { path, refs: Some(named_paths(lines.subrange(i + 3, end))) }]
                        + records(lines, end)
                },
                None => seq![Record { path, refs: None }] + records(lines, i + 3),
            }
        } else {
            seq![Record { path, refs: None }]
        }
    }
}

/// The records of a closure file. A file whose first line is no store path has
/// none.
pub open spec fn closure_records(content: Seq<char>) -> Seq<Record> {
    let lines = line_list(content);
    if lines.len() > 0 && "/nix/store/"@.is_prefix_of(lines[0]) {
        records(lines, 0)
    } else {
        seq![]
    }
}

/// The store paths of records.
pub open spec fn record_paths(list: Seq<Record>) -> Seq<Seq<char>> {
    list.map_values(|r: Record| r.path)
}

/// The references of records. The last record of a store path counts.
pub open spec fn record_refs(list: Seq<Record>) -> Map<Seq<char>, Seq<Seq<char>>>
    decreases list.len(),
{
    if list.len() == 0 {
        Map::empty()
    } else {
        match list.last().refs {
            Some(refs) => record_refs(list.drop_last()).insert(list.last().path, refs),
            None => record_refs(list.drop_last()),
        }
    }
}

/// `from` refers to `to`, and they are different.
pub open spec fn refers(
    refs: Map<Seq<char>, Seq<Seq<char>>>,
    from: Seq<char>,
    to: Seq<char>,
) -> bool {
    refs.contains_key(from) && from != to && refs[from].contains(to)
}

/// Who refers to a store path, other than itself.
pub open spec fn referrers(refs: Map<Seq<char>, Seq<Seq<char>>>, path: Seq<char>) -> Set<
    Seq<char>,
> {
    Set::new(|from: Seq<char>| refers(refs, from, path))
}

/// A store path that a package refers to, directly or through one other.
pub open spec fn within_two(
    refs: Map<Seq<char>, Seq<Seq<char>>>,
    package: Seq<char>,
    path: Seq<char>,
) -> bool {
    &&& refs.contains_key(package)
    &&& refs[package].contains(path) || exists|mid: Seq<char>| #[trigger]
        refs[package].contains(mid) && refs.contains_key(mid) && refs[mid].contains(path)
}

// ---------------------------------------------------------------------------
// Laws
// ---------------------------------------------------------------------------

proof fn lemma_named_paths(lines: Seq<Seq<char>>)
    ensures
        forall|k: int|
            0 <= k < named_paths(lines).len() ==> "/nix/store/"@.is_prefix_of(
                #[trigger] named_paths(lines)[k],
            ),
    decreases lines.len(),
{
    if lines.len() > 0 {
        lemma_named_paths(lines.drop_last());
        let before = named_paths(lines.drop_last());
        let all = named_paths(lines);
        assert forall|k: int| 0 <= k < all.len() implies "/nix/store/"@.is_prefix_of(
            #[trigger] all[k],
        ) by {
            if k < before.len() {
                assert(all[k] == before[k]);
            }
        }
    }
}

proof fn lemma_records_in_store(lines: Seq<Seq<char>>, i: int)
    ensures
        forall|k: int|
            #![trigger records(lines, i)[k]]
            0 <= k < records(lines, i).len() ==> {
                let r = records(lines, i)[k];
                &&& "/nix/store/"@.is_prefix_of(r.path)
                &&& r.refs matches Some(refs) ==> forall|j: int|
                    0 <= j < refs.len() ==> "/nix/store/"@.is_prefix_of(#[trigger] refs[j])
            },
    decreases lines.len() - i,
{
    if i < 0 || i >= lines.len() {
    } else if !names_store_path(lines[i]) {
        lemma_records_in_store(lines, i + 1);
    } else if i + 2 < lines.len() {
        match number_of(trimmed(lines[i + 2]), usize::MAX as nat) {
            Some(count) => {
                let end = end_of(lines.len(), i + 3, count);
                lemma_named_paths(lines.subrange(i + 3, end));
                lemma_records_in_store(lines, end);
            },
            None => {
                lemma_records_in_store(lines, i + 3);
            },
        }
    }
}

/// All that is read from a closure file lies in the Nix store: its store paths,
/// and what they refer to.
pub proof fn law_closure_lies_in_store(content: Seq<char>, k: int)
    requires
        0 <= k < closure_records(content).len(),
    ensures
        "/nix/store/"@.is_prefix_of(closure_records(content)[k].path),
        closure_records(content)[k].refs matches Some(refs) ==> forall|j: int|
            0 <= j < refs.len() ==> "/nix/store/"@.is_prefix_of(#[trigger] refs[j]),
{
    lemma_records_in_store(line_list(content), 0);
}

/// The store paths of a closure are in order, and each stands there once: the
/// paths of the records and no others.
pub proof fn law_closure_paths(paths: Seq<Seq<char>>)
    ensures
        forall|x: Seq<char>| #[trigger] sorted(distinct(paths)).contains(x) <==> paths.contains(x),
        forall|i: int, j: int|
            0 <= i < j < sorted(distinct(paths)).len() ==> text_le(
                #[trigger] sorted(distinct(paths))[i],
                #[trigger] sorted(distinct(paths))[j],
            ) && sorted(distinct(paths))[i] != sorted(distinct(paths))[j],
{
    lemma_sorted_distinct(paths);
}

// ---------------------------------------------------------------------------
// Reading
// ---------------------------------------------------------------------------

/// The store paths that some lines name.
fn read_references(all: &Vec<String>, start: usize, end: usize) -> (r: Vec<String>)
    requires
        start <= end <= all@.len(),
    ensures
        views(r@) == named_paths(views(all@).subrange(start as int, end as int)),
{
    let ghost v = views(all@);
    let mut r: Vec<String> = Vec::new();
    let mut i: usize = start;
    proof {
        assert(views(r@) =~= named_paths(v.subrange(start as int, start as int)));
    }
    while i < end
        invariant
            start <= i <= end <= all@.len(),
            v == views(all@),
            views(r@) == named_paths(v.subrange(start as int, i as int)),
        decreases end - i,
    {
        let line: String = trim(&all[i]);
        proof {
            let t = v.subrange(start as int, i as int + 1);
            assert(t.drop_last() =~= v.subrange(start as int, i as int));
            assert(t.last() == all@[i as int]@);
            lemma_views_push(r@, line);
        }
        if starts_with(&line, "/nix/store/") {
            r.push(line);
        }
        i += 1;
    }
    r
}

/// Parse the exportReferencesGraph format: the store paths in order, and what
/// each refers to.
pub fn parse_closure(content: &str) -> (r: (Vec<String>, Table<Vec<String>>))
    ensures
        views(r.0@) == sorted(distinct(record_paths(closure_records(content@)))),
        r.1.wf(),
        refs_map(&r.1) == record_refs(closure_records(content@)),
{
    let all: Vec<String> = lines(content);
    let n: usize = all.len();
    let ghost v = views(all@);
    let ghost goal = closure_records(content@);
    let mut paths: Vec<String> = Vec::new();
    let mut refs: Table<Vec<String>> = Table::new();
    let mut i: usize = 0;
    let ghost mut done = Seq::<Record>::empty();
    if n == 0 || !starts_with(&all[0], "/nix/store/") {
        i = n;
    }
    proof {
        assert(n > 0 ==> v[0] == all@[0]@);
        assert(views(paths@) =~= record_paths(done));
        assert(refs_map(&refs) =~= record_refs(done));
        assert(done + records(v, i as int) =~= goal);
    }
    while i < n
        invariant
            i <= n,
            n == all@.len(),
            v == views(all@),
            refs.wf(),
            views(paths@) == record_paths(done),
            refs_map(&refs) == record_refs(done),
            done + records(v, i as int) == goal,
        decreases n - i,
    {
        let line: String = trim(&all[i]);
        proof {
            assert(v[i as int] == all@[i as int]@);
        }
        if starts_with(&line, "/nix/store/") {
            let ghost done0 = done;
            let ghost mut rec = Record { path: line@, refs: None };
            let ghost i0 = i as int;
            proof {
                lemma_views_push(paths@, line);
            }
            paths.push(line.clone());
            if n - i > 2 {
                proof {
                    assert(v[i as int + 2] == all@[i as int + 2]@);
                }
                let count_text: String = trim(&all[i + 2]);
                match parse_number(&count_text, usize::MAX as u64) {
                    Some(count) => {
                        let start: usize = i + 3;
                        let left: usize = n - start;
                        let end: usize = if count as usize <= left {
                            start + count as usize
                        } else {
                            n
                        };
                        let list: Vec<String> = read_references(&all, start, end);
                        let ghost refs0 = refs;
                        let ghost list_v = views(list@);
                        refs.insert(line, list);
                        proof {
                            rec = Record { path: line@, refs: Some(list_v) };
                            assert(refs_map(&refs) =~= refs_map(&refs0).insert(line@, list_v));
                        }
                        i = end;
                    },
                    None => {
                        i = i + 3;
                    },
                }
            } else {
                i = n;
            }
            proof {
                done = done0.push(rec);
                assert(done.drop_last() =~= done0);
                assert(record_paths(done) =~= record_paths(done0).push(rec.path));
                assert(records(v, i0) =~= seq![rec] + records(v, i as int));
                assert(done + records(v, i as int) =~= done0 + (seq![rec] + records(v, i as int)));
            }
        } else {
            i += 1;
        }
    }
    proof {
        assert(done + records(v, i as int) =~= done);
    }
    (sort_texts(&unique(&paths)), refs)
}

/// The lines of the output of `nix-store -qR`, in order.
pub fn parse_requisites(output: &str) -> (r: Vec<String>)
    ensures
        views(r@) == sorted(line_list(output@)),
{
    sort_texts(&lines(output))
}

/// The references in the output of a query for a store path, without those to
/// itself.
pub open spec fn references_in(lines: Seq<Seq<char>>, path: Seq<char>) -> Seq<Seq<char>> {
    lines.filter(|l: Seq<char>| l.len() > 0 && l != path)
}

/// The references of each store path, from the outputs of the queries for them.
/// A query that failed gives none.
pub open spec fn queried_refs(
    paths: Seq<Seq<char>>,
    outputs: Seq<Option<Seq<char>>>,
) -> Map<Seq<char>, Seq<Seq<char>>>
    decreases paths.len(),
{
    if paths.len() == 0 {
        Map::empty()
    } else {
        let at = paths.len() - 1;
        queried_refs(paths.drop_last(), outputs).insert(
            paths.last(),
            match outputs[at] {
                Some(output) => references_in(line_list(output), paths.last()),
                None => seq![],
            },
        )
    }
}

/// The references in the output of `nix-store -q --references`.
pub fn parse_references(output: &str, store_path: &str) -> (r: Vec<String>)
    ensures
        views(r@) == references_in(line_list(output@), store_path@),
{
    let all: Vec<String> = lines(output);
    let ghost v = views(all@);
    let ghost f = |l: Seq<char>| l.len() > 0 && l != store_path@;
    let mut r: Vec<String> = Vec::new();
    let mut i: usize = 0;
    proof {
        reveal(Seq::filter);
        assert(views(r@) =~= v.take(0).filter(f));
    }
    while i < all.len()
        invariant
            i <= all@.len(),
            v == views(all@),
            f == (|l: Seq<char>| l.len() > 0 && l != store_path@),
            views(r@) == v.take(i as int).filter(f),
        decreases all@.len() - i,
    {
        let line: String = all[i].clone();
        proof {
            reveal(Seq::filter);
            let t = v.take(i as int + 1);
            assert(t.drop_last() =~= v.take(i as int));
            assert(t.last() == line@);
            lemma_views_push(r@, line);
        }
        if !line.as_str().is_empty() && !same_text(&line, store_path) {
            r.push(line);
        }
        i += 1;
    }
    proof {
        assert(v.take(i as int) =~= v);
    }
    r
}

/// What each store path refers to, from the outputs of the queries for them.
pub fn collect_references(paths: &Vec<String>, outputs: &Vec<Option<String>>) -> (r: Table<
    Vec<String>,
>)
    requires
        paths@.len() == outputs@.len(),
    ensures
        r.wf(),
        refs_map(&r) == queried_refs(views(paths@), opt_views(outputs@)),
{
    let ghost pv = views(paths@);
    let ghost ov = opt_views(outputs@);
    let mut r: Table<Vec<String>> = Table::new();
    let mut i: usize = 0;
    proof {
        assert(refs_map(&r) =~= queried_refs(pv.take(0), ov));
    }
    while i < paths.len()
        invariant
            i <= paths@.len(),
            paths@.len() == outputs@.len(),
            pv == views(paths@),
            ov == opt_views(outputs@),
            r.wf(),
            refs_map(&r) == queried_refs(pv.take(i as int), ov),
        decreases paths@.len() - i,
    {
        let list: Vec<String> = match &outputs[i] {
            Some(output) => parse_references(output, &paths[i]),
            None => Vec::new(),
        };
        let ghost r0 = r;
        let ghost list_v = views(list@);
        proof {
            let t = pv.take(i as int + 1);
            assert(t.drop_last() =~= pv.take(i as int));
            assert(t.last() == paths@[i as int]@);
            assert(ov[i as int] == opt_view(outputs@[i as int]));
            assert(outputs@[i as int] is None ==> list_v =~= seq![]);
        }
        r.insert(paths[i].clone(), list);
        proof {
            assert(refs_map(&r) =~= refs_map(&r0).insert(paths@[i as int]@, list_v));
        }
        i += 1;
    }
    proof {
        assert(pv.take(i as int) =~= pv);
    }
    r
}

// ---------------------------------------------------------------------------
// Walking the references
// ---------------------------------------------------------------------------

/// What holds of the reverse references while the first `i` store paths, and
/// the first `j` references of the next, have been walked.
pub open spec fn walked(
    refs: &Table<Vec<String>>,
    i: int,
    j: int,
    from: Seq<char>,
    to: Seq<char>,
) -> bool {
    exists|a: int, b: int|
        #![trigger refs.value_list()[a]@[b]]
        0 <= a < refs.key_list().len() && 0 <= b < refs.value_list()[a]@.len() && (a < i || (a == i
            && b < j)) && refs.key_list()[a] == from && refs.value_list()[a]@[b]@ == to && from
            != to
}

/// Build reverse reference map (who depends on each path), excluding self-refs.
pub fn compute_reverse_refs(refs: &Table<Vec<String>>) -> (r: Table<
    Vec<String>,
>)
    requires
        refs.wf(),
    ensures
        r.wf(),
        forall|to: Seq<char>| #[trigger]
            r.has(to) <==> exists|from: Seq<char>| refers(refs_map(refs), from, to),
        forall|to: Seq<char>| #[trigger]
            r.has(to) ==> views(r.at(to)@).no_duplicates() && views(r.at(to)@).to_set()
                == referrers(refs_map(refs), to),
{
    let mut r: Table<Vec<String>> = Table::new();
    let n: usize = refs.len();
    let mut i: usize = 0;
    proof {
        refs.lemma_wf();
    }
    while i < n
        invariant
            refs.wf(),
            n == refs.key_list().len(),
            n == refs.value_list().len(),
            i <= n,
            r.wf(),
            forall|to: Seq<char>| #[trigger]
                r.has(to) <==> exists|from: Seq<char>| walked(refs, i as int, 0, from, to),
            forall|to: Seq<char>| #[trigger] r.has(to) ==> views(r.at(to)@).no_duplicates(),
            forall|from: Seq<char>, to: Seq<char>|
                r.has(to) ==> (#[trigger] views(r.at(to)@).contains(from) <==> walked(
                    refs,
                    i as int,
                    0,
                    from,
                    to,
                )),
        decreases n - i,
    {
        let sp: &String = refs.key(i);
        let deps: &Vec<String> = refs.value(i);
        let mut j: usize = 0;
        while j < deps.len()
            invariant
                refs.wf(),
                n == refs.key_list().len(),
                n == refs.value_list().len(),
                i < n,
                sp@ == refs.key_list()[i as int],
                *deps == refs.value_list()[i as int],
                j <= deps@.len(),
                r.wf(),
                forall|to: Seq<char>| #[trigger]
                    r.has(to) <==> exists|from: Seq<char>| walked(refs, i as int, j as int, from, to),
                forall|to: Seq<char>| #[trigger] r.has(to) ==> views(r.at(to)@).no_duplicates(),
                forall|from: Seq<char>, to: Seq<char>|
                    r.has(to) ==> (#[trigger] views(r.at(to)@).contains(from) <==> walked(
                        refs,
                        i as int,
                        j as int,
                        from,
                        to,
                    )),
            decreases deps@.len() - j,
        {
            let dep: &String = &deps[j];
            let ghost r0 = r;
            proof {
                assert(refs.value_list()[i as int]@[j as int]@ == dep@);
            }
            if !same_text(dep, sp) {
                match r.place(dep) {
                    Some(at) => {
                        if !list_has(r.value(at), sp) {
                            r.value_mut(at).push(sp.clone());
                        }
                        proof {
                            r0.lemma_wf();
                            Table::lemma_update(&r0, &r, at as int);
                            lemma_added(r0.at(dep@)@, r.at(dep@)@, *sp);
                        }
                    },
                    None => {
                        let mut list: Vec<String> = Vec::new();
                        list.push(sp.clone());
                        proof {
                            lemma_added(Seq::empty(), list@, *sp);
                            assert(views(Seq::<String>::empty()) =~= Seq::empty());
                        }
                        r.insert(dep.clone(), list);
                    },
                }
                proof {
                    let next = j as int + 1;
                    assert forall|from: Seq<char>, to: Seq<char>|
                        walked(refs, i as int, next, from, to) <==> walked(
                            refs,
                            i as int,
                            j as int,
                            from,
                            to,
                        ) || (from == sp@ && to == dep@) by {
                        lemma_walked_step(refs, i as int, j as int, from, to);
                    }
                    assert forall|to: Seq<char>| #[trigger] r.has(to) <==> exists|from: Seq<char>|
                        walked(refs, i as int, next, from, to) by {
                        assert(r.has(to) <==> r0.has(to) || to == dep@);
                        if to == dep@ {
                            assert(walked(refs, i as int, next, sp@, to));
                        }
                        if r0.has(to) {
                            let from = choose|from: Seq<char>|
                                walked(refs, i as int, j as int, from, to);
                            assert(walked(refs, i as int, next, from, to));
                        }
                        if exists|from: Seq<char>|
                            walked(refs, i as int, next, from, to) {
                            let from = choose|from: Seq<char>|
                                walked(refs, i as int, next, from, to);
                            if to != dep@ {
                                assert(walked(refs, i as int, j as int, from, to));
                            }
                        }
                    }
                    assert forall|from: Seq<char>, to: Seq<char>| r.has(to) implies (
                    #[trigger] views(r.at(to)@).contains(from) <==> walked(
                        refs,
                        i as int,
                        next,
                        from,
                        to,
                    )) by {
                        if to != dep@ {
                            assert(r.at(to) == r0.at(to));
                            assert(r0.has(to));
                            assert(views(r0.at(to)@).contains(from) <==> walked(
                                refs,
                                i as int,
                                j as int,
                                from,
                                to,
                            ));
                        } else if r0.has(to) {
                            assert(views(r0.at(to)@).contains(from) <==> walked(
                                refs,
                                i as int,
                                j as int,
                                from,
                                to,
                            ));
                        } else if from != sp@ {
                            assert(!walked(refs, i as int, j as int, from, to));
                        }
                    }
                }
            } else {
                proof {
                    let next = j as int + 1;
                    assert forall|from: Seq<char>, to: Seq<char>|
                        walked(refs, i as int, next, from, to) <==> walked(
                            refs,
                            i as int,
                            j as int,
                            from,
                            to,
                        ) by {
                        lemma_walked_step(refs, i as int, j as int, from, to);
                    }
                    assert forall|to: Seq<char>| #[trigger] r.has(to) <==> exists|from: Seq<char>|
                        walked(refs, i as int, next, from, to) by {
                        if r.has(to) {
                            let from = choose|from: Seq<char>|
                                walked(refs, i as int, j as int, from, to);
                            assert(walked(refs, i as int, next, from, to));
                        }
                        if exists|from: Seq<char>| walked(refs, i as int, next, from, to) {
                            let from = choose|from: Seq<char>|
                                walked(refs, i as int, next, from, to);
                            assert(walked(refs, i as int, j as int, from, to));
                        }
                    }
                }
            }
            j += 1;
        }
        proof {
            assert forall|from: Seq<char>, to: Seq<char>|
                walked(refs, i as int, j as int, from, to) <==> walked(
                    refs,
                    i as int + 1,
                    0,
                    from,
                    to,
                ) by {
                lemma_walked_row(refs, i as int, j as int, from, to);
            }
            let next = i as int + 1;
            assert forall|to: Seq<char>| #[trigger] r.has(to) <==> exists|from: Seq<char>|
                walked(refs, next, 0, from, to) by {
                if r.has(to) {
                    let from = choose|from: Seq<char>| walked(refs, i as int, j as int, from, to);
                    assert(walked(refs, next, 0, from, to));
                }
                if exists|from: Seq<char>| walked(refs, next, 0, from, to) {
                    let from = choose|from: Seq<char>| walked(refs, next, 0, from, to);
                    assert(walked(refs, i as int, j as int, from, to));
                }
            }
        }
        i += 1;
    }
    proof {
        assert forall|from: Seq<char>, to: Seq<char>|
            walked(refs, n as int, 0, from, to) <==> refers(refs_map(refs), from, to) by {
            lemma_walked_all(refs, from, to);
        }
        assert forall|to: Seq<char>| #[trigger] r.has(to) implies views(r.at(to)@).to_set()
            == referrers(refs_map(refs), to) by {
            assert forall|from: Seq<char>|
                views(r.at(to)@).to_set().contains(from) <==> referrers(
                    refs_map(refs),
                    to,
                ).contains(from) by {
                assert(views(r.at(to)@).contains(from) <==> walked(refs, n as int, 0, from, to));
            }
            assert(views(r.at(to)@).to_set() =~= referrers(refs_map(refs), to));
        }
        assert forall|to: Seq<char>| #[trigger] r.has(to) <==> exists|from: Seq<char>|
            refers(refs_map(refs), from, to) by {
            if r.has(to) {
                let from = choose|from: Seq<char>| walked(refs, n as int, 0, from, to);
                assert(refers(refs_map(refs), from, to));
            }
            if exists|from: Seq<char>| refers(refs_map(refs), from, to) {
                let from = choose|from: Seq<char>| refers(refs_map(refs), from, to);
                assert(walked(refs, n as int, 0, from, to));
            }
        }
    }
    r
}

/// A list with one string more, where that was not in it.
proof fn lemma_added(before: Seq<String>, after: Seq<String>, s: String)
    requires
        views(before).no_duplicates(),
        after == before || after == before.push(s) && !views(before).contains(s@),
        after == before ==> views(before).contains(s@),
    ensures
        views(after).no_duplicates(),
        forall|x: Seq<char>| #[trigger]
            views(after).contains(x) <==> views(before).contains(x) || x == s@,
{
    if after != before {
        let v = views(before);
        let w = views(after);
        lemma_views_push(before, s);
        assert forall|i: int, j: int| 0 <= i < w.len() && 0 <= j < w.len() && i != j implies w[i]
            != w[j] by {
            if i == v.len() {
                assert(v.contains(v[j]));
            } else if j == v.len() {
                assert(v.contains(v[i]));
            }
        }
        assert forall|x: Seq<char>| #[trigger] w.contains(x) <==> v.contains(x) || x == s@ by {
            if v.contains(x) {
                assert(w[v.index_of(x)] == x);
            }
            assert(w[v.len() as int] == s@);
            if w.contains(x) {
                let k = w.index_of(x);
                if k < v.len() {
                    assert(v[k] == x);
                }
            }
        }
    }
}

proof fn lemma_walked_step(
    refs: &Table<Vec<String>>,
    i: int,
    j: int,
    from: Seq<char>,
    to: Seq<char>,
)
    requires
        0 <= i < refs.key_list().len(),
        0 <= j < refs.value_list()[i]@.len(),
    ensures
        walked(refs, i, j + 1, from, to) <==> walked(refs, i, j, from, to) || (from
            == refs.key_list()[i] && to == refs.value_list()[i]@[j]@ && from != to),
{
    if walked(refs, i, j + 1, from, to) {
        let (a, b) = choose|a: int, b: int|
            #![trigger refs.value_list()[a]@[b]]
            0 <= a < refs.key_list().len() && 0 <= b < refs.value_list()[a]@.len() && (a < i || (a
                == i && b < j + 1)) && refs.key_list()[a] == from && refs.value_list()[a]@[b]@ == to
                && from != to;
        let _ = refs.value_list()[a]@[b];
    }
    if walked(refs, i, j, from, to) {
        let (a, b) = choose|a: int, b: int|
            #![trigger refs.value_list()[a]@[b]]
            0 <= a < refs.key_list().len() && 0 <= b < refs.value_list()[a]@.len() && (a < i || (a
                == i && b < j)) && refs.key_list()[a] == from && refs.value_list()[a]@[b]@ == to
                && from != to;
        let _ = refs.value_list()[a]@[b];
    }
    let _ = refs.value_list()[i]@[j];
}

proof fn lemma_walked_row(
    refs: &Table<Vec<String>>,
    i: int,
    j: int,
    from: Seq<char>,
    to: Seq<char>,
)
    requires
        0 <= i < refs.key_list().len(),
        j == refs.value_list()[i]@.len(),
    ensures
        walked(refs, i, j, from, to) <==> walked(refs, i + 1, 0, from, to),
{
}

proof fn lemma_walked_all(refs: &Table<Vec<String>>, from: Seq<char>, to: Seq<char>)
    requires
        refs.wf(),
    ensures
        walked(refs, refs.key_list().len() as int, 0, from, to) <==> refers(
            refs_map(refs),
            from,
            to,
        ),
{
    let keys = refs.key_list();
    refs.lemma_wf();
    if walked(refs, keys.len() as int, 0, from, to) {
        let (a, b) = choose|a: int, b: int|
            #![trigger refs.value_list()[a]@[b]]
            0 <= a < keys.len() && 0 <= b < refs.value_list()[a]@.len() && (a < keys.len() || (a
                == keys.len() && b < 0)) && keys[a] == from && refs.value_list()[a]@[b]@ == to
                && from != to;
        assert(keys.contains(from));
        assert(keys.index_of(from) == a);
        assert(views(refs.value_list()[a]@)[b] == to);
    }
    if refers(refs_map(refs), from, to) {
        let a = keys.index_of(from);
        let list = refs.value_list()[a]@;
        let b = views(list).index_of(to);
        assert(views(list)[b] == to);
        assert(list[b]@ == to);
        let _ = refs.value_list()[a]@[b];
    }
}

/// The essential dependencies of a package: two levels of direct dependencies.
pub fn essential_deps(refs: &Table<Vec<String>>, package: &str) -> (r: NameSet)
    requires
        refs.wf(),
    ensures
        forall|x: Seq<char>| #[trigger]
            r@.contains(x) <==> within_two(refs_map(refs), package@, x),
{
    let ghost m = refs_map(refs);
    let mut r: NameSet = NameSet::new();
    match refs.get(package) {
        Some(direct) => {
            let ghost first = views(direct@);
            let mut i: usize = 0;
            proof {
                assert(m.contains_key(package@) && m[package@] == first);
            }
            while i < direct.len()
                invariant
                    refs.wf(),
                    m == refs_map(refs),
                    first == views(direct@),
                    i <= direct@.len(),
                    forall|x: Seq<char>| #[trigger]
                        r@.contains(x) <==> exists|k: int|
                            0 <= k < i && (#[trigger] first[k] == x || (m.contains_key(first[k])
                                && m[first[k]].contains(x))),
                decreases direct@.len() - i,
            {
                let dep: &String = &direct[i];
                let ghost r0 = r@;
                r.insert(dep.clone());
                proof {
                    assert(first[i as int] == dep@);
                }
                match refs.get(dep) {
                    Some(second) => {
                        let ghost sv = views(second@);
                        let ghost r1 = r@;
                        let mut j: usize = 0;
                        proof {
                            assert(m.contains_key(dep@) && m[dep@] == sv);
                        }
                        while j < second.len()
                            invariant
                                sv == views(second@),
                                j <= second@.len(),
                                forall|x: Seq<char>| #[trigger]
                                    r@.contains(x) <==> r1.contains(x) || exists|k: int|
                                        0 <= k < j && #[trigger] sv[k] == x,
                            decreases second@.len() - j,
                        {
                            let ghost r2 = r@;
                            r.insert(second[j].clone());
                            proof {
                                assert(sv[j as int] == second@[j as int]@);
                                assert forall|x: Seq<char>| #[trigger]
                                    r@.contains(x) <==> r1.contains(x) || exists|k: int|
                                        0 <= k < j + 1 && #[trigger] sv[k] == x by {
                                    assert(r@.contains(x) <==> r2.contains(x) || x
                                        == sv[j as int]);
                                }
                            }
                            j += 1;
                        }
                        proof {
                            assert forall|x: Seq<char>| #[trigger]
                                r@.contains(x) <==> r0.contains(x) || x == dep@ || m[dep@].contains(
                                    x,
                                ) by {
                                if sv.contains(x) {
                                    assert(sv[sv.index_of(x)] == x);
                                }
                            }
                        }
                    },
                    None => {
                        proof {
                            assert(!m.contains_key(dep@));
                        }
                    },
                }
                proof {
                    assert forall|x: Seq<char>| #[trigger]
                        r@.contains(x) <==> exists|k: int|
                            0 <= k < i + 1 && (#[trigger] first[k] == x || (m.contains_key(first[k])
                                && m[first[k]].contains(x))) by {
                        assert(r@.contains(x) <==> r0.contains(x) || x == dep@ || (m.contains_key(
                            dep@,
                        ) && m[dep@].contains(x)));
                        assert(first[i as int] == dep@);
                    }
                }
                i += 1;
            }
            proof {
                assert forall|x: Seq<char>| #[trigger]
                    r@.contains(x) <==> within_two(m, package@, x) by {
                    if r@.contains(x) {
                        let k = choose|k: int|
                            0 <= k < i && (#[trigger] first[k] == x || (m.contains_key(first[k])
                                && m[first[k]].contains(x)));
                        assert(m[package@].contains(first[k]));
                    }
                    if within_two(m, package@, x) {
                        if first.contains(x) {
                            assert(first[first.index_of(x)] == x);
                        } else {
                            let mid = choose|mid: Seq<char>| #[trigger]
                                m[package@].contains(mid) && m.contains_key(mid)
                                    && m[mid].contains(x);
                            assert(first[first.index_of(mid)] == mid);
                        }
                    }
                }
            }
        },
        None => {
            proof {
                assert(!m.contains_key(package@));
            }
        },
    }
    r
}

} // verus!
