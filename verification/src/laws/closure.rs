//! Closure files, and what store paths refer to.
use vstd::prelude::*;

use crate::closure::{
    closure_records, end_of, named_paths, queried_refs, record_paths, record_refs, records, Record,
};
use crate::text::{line_list, number_of, trimmed};

verus! {

/// A record of a closure file is a line with a store path, a line with its deriver, a line
/// with the number of its references, and as many lines with references, or the rest of
/// the file where that is less.
pub proof fn law_record(
    path: Seq<char>,
    deriver: Seq<char>,
    count: Seq<char>,
    refs: Seq<Seq<char>>,
    rest: Seq<Seq<char>>,
    n: nat,
)
    requires
        "/nix/store/"@.is_prefix_of(trimmed(path)),
        number_of(trimmed(count), usize::MAX as nat) == Some(n),
        n == refs.len() || (n > refs.len() && rest.len() == 0),
    ensures
        records(seq![path, deriver, count] + refs + rest, 0) == seq![
            Record { path: trimmed(path), refs: Some(named_paths(refs)) },
        ] + records(rest, 0),
{
    let front = seq![path, deriver, count] + refs;
    let lines = front + rest;
    let end = 3 + refs.len() as int;
    assert(lines[0] == path && lines[2] == count);
    assert(end_of(lines.len(), 3, n) == end);
    assert(lines.subrange(3, end) =~= refs);
    lemma_records_behind(front, rest, 0);
}

/// A store path whose number of references cannot be read has a record without references,
/// and so has one in the last two lines.
pub proof fn law_record_without_references(
    path: Seq<char>,
    deriver: Seq<char>,
    count: Seq<char>,
    rest: Seq<Seq<char>>,
)
    requires
        "/nix/store/"@.is_prefix_of(trimmed(path)),
    ensures
        number_of(trimmed(count), usize::MAX as nat) is None ==> records(
            seq![path, deriver, count] + rest,
            0,
        ) == seq![Record { path: trimmed(path), refs: None }] + records(rest, 0),
        records(seq![path, deriver], 0) == seq![Record { path: trimmed(path), refs: None }],
        records(seq![path], 0) == seq![Record { path: trimmed(path), refs: None }],
{
    let front = seq![path, deriver, count];
    let lines = front + rest;
    assert(lines[0] == path && lines[2] == count);
    lemma_records_behind(front, rest, 0);
}

/// Other lines are passed over.
pub proof fn law_other_lines_are_passed_over(line: Seq<char>, rest: Seq<Seq<char>>)
    requires
        !"/nix/store/"@.is_prefix_of(trimmed(line)),
    ensures
        records(seq![line] + rest, 0) == records(rest, 0),
        records(Seq::empty(), 0).len() == 0,
{
    lemma_records_behind(seq![line], rest, 0);
    assert((seq![line] + rest)[0] == line);
}

/// A closure file is one whose first line begins a store path. Others hold nothing.
pub proof fn law_closure_file(content: Seq<char>)
    ensures
        ({
            let lines = line_list(content);
            if lines.len() > 0 && "/nix/store/"@.is_prefix_of(lines[0]) {
                closure_records(content) == records(lines, 0)
            } else {
                closure_records(content).len() == 0
            }
        }),
{
}

proof fn lemma_records_behind(front: Seq<Seq<char>>, rest: Seq<Seq<char>>, i: int)
    requires
        0 <= i,
    ensures
        records(front + rest, front.len() + i) == records(rest, i),
    decreases rest.len() - i,
{
    let all = front + rest;
    let m = front.len() as int;
    if i < rest.len() {
        assert(all[m + i] == rest[i]);
        if !crate::closure::names_store_path(rest[i]) {
            lemma_records_behind(front, rest, i + 1);
        } else if i + 2 < rest.len() {
            assert(all[m + i + 2] == rest[i + 2]);
            match number_of(trimmed(rest[i + 2]), usize::MAX as nat) {
                Some(count) => {
                    let end = end_of(rest.len(), i + 3, count);
                    assert(end_of(all.len(), m + i + 3, count) == m + end);
                    assert(all.subrange(m + i + 3, m + end) =~= rest.subrange(i + 3, end));
                    lemma_records_behind(front, rest, end);
                },
                None => {
                    lemma_records_behind(front, rest, i + 3);
                },
            }
        }
    }
}

/// The references are those lines that name store paths, without white space around them,
/// in order.
pub proof fn law_named_paths(lines: Seq<Seq<char>>)
    ensures
        named_paths(lines) == lines.map_values(|l: Seq<char>| trimmed(l)).filter(
            |p: Seq<char>| "/nix/store/"@.is_prefix_of(p),
        ),
    decreases lines.len(),
{
    reveal(Seq::filter);
    let trim = |l: Seq<char>| trimmed(l);
    let named = |p: Seq<char>| "/nix/store/"@.is_prefix_of(p);
    let all = lines.map_values(trim);
    if lines.len() > 0 {
        law_named_paths(lines.drop_last());
        assert(all.drop_last() =~= lines.drop_last().map_values(trim));
        assert(all.last() == trimmed(lines.last()));
    }
    assert(named_paths(lines) =~= all.filter(named));
}

/// The store paths of records are those of each of them, in order.
pub proof fn law_record_paths(list: Seq<Record>)
    ensures
        record_paths(list).len() == list.len(),
        forall|i: int|
            0 <= i < list.len() ==> #[trigger] record_paths(list)[i] == list[i].path,
{
}

/// What a store path refers to is in its last record with references.
pub proof fn law_last_record_counts(list: Seq<Record>, i: int)
    requires
        0 <= i < list.len(),
        list[i].refs is Some,
        forall|j: int|
            i < j < list.len() && (#[trigger] list[j]).path == list[i].path
                ==> list[j].refs is None,
    ensures
        record_refs(list).contains_key(list[i].path),
        record_refs(list)[list[i].path] == list[i].refs->Some_0,
    decreases list.len(),
{
    let rest = list.drop_last();
    let n = list.len() - 1;
    assert(list[n] == list.last());
    if i < n {
        assert(rest[i] == list[i]);
        assert forall|j: int|
            i < j < rest.len() && (#[trigger] rest[j]).path
                == rest[i].path implies rest[j].refs is None by {
            assert(list[j] == rest[j]);
        }
        law_last_record_counts(rest, i);
    }
}

/// It is known what a store path refers to only where it has a record with references.
pub proof fn law_references_are_from_records(list: Seq<Record>, path: Seq<char>)
    requires
        record_refs(list).contains_key(path),
    ensures
        exists|i: int|
            0 <= i < list.len() && (#[trigger] list[i]).path == path && list[i].refs is Some,
    decreases list.len(),
{
    if list.len() > 0 {
        let rest = list.drop_last();
        if record_refs(rest).contains_key(path) {
            law_references_are_from_records(rest, path);
            let i = choose|i: int|
                0 <= i < rest.len() && (#[trigger] rest[i]).path == path && rest[i].refs is Some;
            assert(list[i] == rest[i]);
        } else {
            assert(list[list.len() - 1] == list.last());
        }
    }
}

/// What a store path refers to is what the query for it printed: its lines, without empty
/// ones and without the store path itself. Where the query failed, it refers to nothing.
pub proof fn law_queried_references(
    paths: Seq<Seq<char>>,
    outputs: Seq<Option<Seq<char>>>,
    i: int,
)
    requires
        0 <= i < paths.len(),
        forall|j: int| i < j < paths.len() ==> paths[j] != paths[i],
    ensures
        queried_refs(paths, outputs).contains_key(paths[i]),
        outputs[i] is None ==> queried_refs(paths, outputs)[paths[i]].len() == 0,
        outputs[i] matches Some(output) ==> queried_refs(paths, outputs)[paths[i]] == line_list(
            output,
        ).filter(|l: Seq<char>| l.len() > 0 && l != paths[i]),
    decreases paths.len(),
{
    let rest = paths.drop_last();
    if i < rest.len() {
        assert(paths[paths.len() - 1] != paths[i]);
        assert forall|j: int| i < j < rest.len() implies rest[j] != rest[i] by {
            assert(rest[j] == paths[j]);
        }
        assert(rest[i] == paths[i]);
        law_queried_references(rest, outputs, i);
    }
}

/// Nothing is known of store paths that were not queried.
pub proof fn law_only_queried_paths(
    paths: Seq<Seq<char>>,
    outputs: Seq<Option<Seq<char>>>,
    path: Seq<char>,
)
    requires
        queried_refs(paths, outputs).contains_key(path),
    ensures
        paths.contains(path),
    decreases paths.len(),
{
    if paths.len() > 0 {
        if path == paths.last() {
            assert(paths[paths.len() - 1] == path);
        } else {
            law_only_queried_paths(paths.drop_last(), outputs, path);
            let rest = paths.drop_last();
            assert(paths[rest.index_of(path)] == path);
        }
    }
}

} // verus!
