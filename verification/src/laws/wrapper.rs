//! The scripts that take the place of compiled wrappers.
use vstd::prelude::*;

use crate::laws::text::{comes_first, law_join, law_split};
use crate::order::{distinct, lemma_distinct};
use crate::pattern::{group_text, regex_captures, regex_captures_iter, regex_replace};
use crate::text::{has_infix, join, lemma_find_from, split};
use crate::text_files::longest_first;
use crate::wrapper::{
    assigned, bundle_entries, changes_of, entry_vars, export_lines, first_applied, has_value,
    parts_of, printable_text, relocated_part, relocated_value, runtime_var, script_for,
    script_lines, values_of, wrapped_entries, wrapped_target, EntryView,
};

verus! {

// ---------------------------------------------------------------------------
// What a script sets variables to
// ---------------------------------------------------------------------------

/// The change at `i` is the first of a variable to its value.
pub open spec fn first_change(entries: Seq<EntryView>, var: Seq<char>, i: int) -> bool {
    &&& 0 <= i < entries.len()
    &&& entries[i].var == var
    &&& forall|j: int|
        0 <= j < i && (#[trigger] entries[j]).var == var ==> entries[j].value != entries[i].value
}

/// `at` holds the places of the first changes of a variable to a value with an action, in
/// order.
pub open spec fn first_changes(
    at: Seq<int>,
    entries: Seq<EntryView>,
    var: Seq<char>,
    action: Seq<char>,
) -> bool {
    &&& forall|a: int, b: int| 0 <= a < b < at.len() ==> #[trigger] at[a] < #[trigger] at[b]
    &&& forall|i: int| #[trigger]
        at.contains(i) <==> first_change(entries, var, i) && entries[i].action == action
}

/// The values of the changes at the given places.
pub open spec fn values_at(entries: Seq<EntryView>, at: Seq<int>) -> Seq<Seq<char>> {
    at.map_values(|i: int| entries[i].value)
}

proof fn lemma_has_value(entries: Seq<EntryView>, var: Seq<char>, value: Seq<char>)
    ensures
        has_value(changes_of(entries, var), value) <==> exists|j: int|
            0 <= j < entries.len() && (#[trigger] entries[j]).var == var && entries[j].value
                == value,
    decreases entries.len(),
{
    if entries.len() > 0 {
        let rest = entries.drop_last();
        let before = changes_of(rest, var);
        let all = changes_of(entries, var);
        let last = entries.last();
        lemma_has_value(rest, var, value);
        lemma_has_value(rest, var, last.value);
        if has_value(all, value) {
            let k = choose|k: int| 0 <= k < all.len() && (#[trigger] all[k]).value == value;
            if k < before.len() {
                assert(before[k].value == value);
                let j = choose|j: int|
                    0 <= j < rest.len() && (#[trigger] rest[j]).var == var && rest[j].value == value;
                assert(entries[j] == rest[j]);
            } else {
                assert(entries[entries.len() - 1] == last);
            }
        }
        if exists|j: int|
            0 <= j < entries.len() && (#[trigger] entries[j]).var == var && entries[j].value
                == value {
            let j = choose|j: int|
                0 <= j < entries.len() && (#[trigger] entries[j]).var == var && entries[j].value
                    == value;
            if j < rest.len() {
                assert(rest[j] == entries[j]);
            }
            if has_value(before, value) {
                let k = choose|k: int| 0 <= k < before.len() && (#[trigger] before[k]).value
                    == value;
                assert(all[k].value == value);
            } else {
                assert(j == entries.len() - 1);
                assert(all[before.len() as int].value == value);
            }
        }
    }
}

proof fn lemma_values(entries: Seq<EntryView>, var: Seq<char>, action: Seq<char>) -> (at: Seq<int>)
    ensures
        first_changes(at, entries, var, action),
        values_of(changes_of(entries, var), action) == values_at(entries, at),
    decreases entries.len(),
{
    if entries.len() == 0 {
        let at = Seq::<int>::empty();
        assert(values_of(changes_of(entries, var), action) =~= values_at(entries, at));
        at
    } else {
        let rest = entries.drop_last();
        let last = entries.last();
        let n = entries.len() - 1;
        let before = changes_of(rest, var);
        let at0 = lemma_values(rest, var, action);
        lemma_has_value(rest, var, last.value);
        assert forall|i: int| 0 <= i < n implies first_change(entries, var, i) == first_change(
            rest,
            var,
            i,
        ) by {
            assert(entries[i] == rest[i]);
            if first_change(entries, var, i) {
                assert forall|j: int| 0 <= j < i && (#[trigger] rest[j]).var == var implies
                    rest[j].value != rest[i].value by {
                    assert(entries[j] == rest[j]);
                }
            }
            if first_change(rest, var, i) {
                assert forall|j: int| 0 <= j < i && (#[trigger] entries[j]).var == var implies
                    entries[j].value != entries[i].value by {
                    assert(entries[j] == rest[j]);
                }
            }
        }
        assert(first_change(entries, var, n) <==> last.var == var && !has_value(
            before,
            last.value,
        )) by {
            if first_change(entries, var, n) && has_value(before, last.value) {
                let j = choose|j: int|
                    0 <= j < rest.len() && (#[trigger] rest[j]).var == var && rest[j].value
                        == last.value;
                assert(entries[j] == rest[j]);
            }
            if last.var == var && !has_value(before, last.value) {
                assert forall|j: int| 0 <= j < n && (#[trigger] entries[j]).var == var implies
                    entries[j].value != entries[n].value by {
                    assert(rest[j] == entries[j]);
                }
            }
        }
        assert forall|k: int| 0 <= k < at0.len() implies 0 <= #[trigger] at0[k] < n by {
            assert(at0.contains(at0[k]));
        }
        let added = first_change(entries, var, n) && last.action == action;
        let at = if added {
            at0.push(n)
        } else {
            at0
        };
        assert forall|i: int| #[trigger]
            at.contains(i) <==> first_change(entries, var, i) && entries[i].action == action by {
            if at.contains(i) {
                let k = at.index_of(i);
                if k < at0.len() {
                    assert(at0[k] == i);
                    assert(at0.contains(i));
                    assert(rest[i] == entries[i]);
                }
            }
            if first_change(entries, var, i) && entries[i].action == action {
                if i < n {
                    assert(rest[i] == entries[i]);
                    assert(first_change(rest, var, i));
                    assert(at0.contains(i));
                    assert(at[at0.index_of(i)] == i);
                } else {
                    assert(at[at0.len() as int] == i);
                }
            }
        }
        assert forall|a: int, b: int| 0 <= a < b < at.len() implies #[trigger] at[a]
            < #[trigger] at[b] by {
            if b < at0.len() {
                assert(at0[a] < at0[b]);
            } else {
                assert(at0[a] < n);
            }
        }
        if first_change(entries, var, n) {
            assert(changes_of(entries, var).drop_last() =~= before);
        }
        assert(values_at(entries, at0) =~= values_at(rest, at0));
        assert(values_of(changes_of(entries, var), action) =~= values_at(entries, at));
        at
    }
}

proof fn lemma_first_entry(entries: Seq<EntryView>, var: Seq<char>, i: int)
    requires
        0 <= i < entries.len(),
        entries[i].var == var,
        forall|j: int| 0 <= j < i ==> (#[trigger] entries[j]).var != var,
    ensures
        changes_of(entries, var).len() > 0,
        changes_of(entries, var)[0] == entries[i],
    decreases entries.len(),
{
    let rest = entries.drop_last();
    if i < rest.len() {
        assert forall|j: int| 0 <= j < i implies (#[trigger] rest[j]).var != var by {
            assert(entries[j].var != var);
        }
        lemma_first_entry(rest, var, i);
    } else {
        lemma_none(rest, var);
    }
}

proof fn lemma_none(entries: Seq<EntryView>, var: Seq<char>)
    requires
        forall|j: int| 0 <= j < entries.len() ==> (#[trigger] entries[j]).var != var,
    ensures
        changes_of(entries, var).len() == 0,
    decreases entries.len(),
{
    if entries.len() > 0 {
        let rest = entries.drop_last();
        assert forall|j: int| 0 <= j < rest.len() implies (#[trigger] rest[j]).var != var by {
            assert(entries[j].var != var);
        }
        lemma_none(rest, var);
        assert(entries[entries.len() - 1].var != var);
    }
}

/// The value that a variable gets where its changes are prefixes and suffixes: all values
/// of prefixes in order, the value that it had, and all values of suffixes in order, with
/// the separator of the first change between neighbours. Of changes to one value the first
/// counts.
pub proof fn law_prefixes_and_suffixes(entries: Seq<EntryView>, i: int)
    requires
        0 <= i < entries.len(),
        forall|j: int| 0 <= j < i ==> (#[trigger] entries[j]).var != entries[i].var,
        forall|j: int| #[trigger]
            first_change(entries, entries[i].var, j) ==> entries[j].action == "prefix"@
                || entries[j].action == "suffix"@,
    ensures
        exists|p: Seq<int>, s: Seq<int>|
            #![trigger values_at(entries, p), values_at(entries, s)]
            first_changes(p, entries, entries[i].var, "prefix"@) && first_changes(
                s,
                entries,
                entries[i].var,
                "suffix"@,
            ) && assigned(entries[i].var, changes_of(entries, entries[i].var)) == Some(
                join(
                    values_at(entries, p) + seq!["${"@ + entries[i].var + ":-}"@] + values_at(
                        entries,
                        s,
                    ),
                    entries[i].sep,
                ),
            ),
{
    reveal_strlit("prefix");
    reveal_strlit("suffix");
    reveal_strlit("set");
    assert("prefix"@.len() != "set"@.len());
    assert("suffix"@.len() != "set"@.len());
    let var = entries[i].var;
    let sep = entries[i].sep;
    let changes = changes_of(entries, var);
    let p = lemma_values(entries, var, "prefix"@);
    let s = lemma_values(entries, var, "suffix"@);
    let none = lemma_values(entries, var, "set"@);
    lemma_first_entry(entries, var, i);
    assert(none.len() == 0) by {
        if none.len() > 0 {
            assert(none.contains(none[0]));
            assert(first_change(entries, var, none[0]));
        }
    }
    let pv = values_at(entries, p);
    let sv = values_at(entries, s);
    let cur = "${"@ + var + ":-}"@;
    let one = seq![cur];
    assert(first_change(entries, var, i));
    assert(p.len() > 0 || s.len() > 0) by {
        if entries[i].action == "prefix"@ {
            assert(p.contains(i));
        } else {
            assert(s.contains(i));
        }
    }
    law_join(one, Seq::empty(), sep);
    law_join(one, sv, sep);
    law_join(pv, one + sv, sep);
    if sv.len() == 0 {
        assert(one + sv =~= one);
    }
    if pv.len() == 0 {
        assert(pv + one + sv =~= one + sv);
    } else {
        assert(pv + one + sv =~= pv + (one + sv));
    }
    let all = join(pv + one + sv, sep);
    if pv.len() > 0 && sv.len() > 0 {
        assert(all =~= join(pv, sep) + sep + cur + sep + join(sv, sep));
    } else if pv.len() > 0 {
        assert(all =~= join(pv, sep) + sep + cur);
    } else {
        assert(all =~= cur + sep + join(sv, sep));
    }
    assert(assigned(var, changes) == Some(all));
}

/// The value that a variable gets where it is set: that of the last change that sets it. Of
/// changes to one value the first counts.
pub proof fn law_set_counts(entries: Seq<EntryView>, var: Seq<char>, i: int)
    requires
        first_change(entries, var, i),
        entries[i].action == "set"@,
        forall|j: int|
            i < j && #[trigger] first_change(entries, var, j) ==> entries[j].action != "set"@,
    ensures
        assigned(var, changes_of(entries, var)) == Some(entries[i].value),
{
    let at = lemma_values(entries, var, "set"@);
    assert(at.contains(i));
    let k = at.index_of(i);
    if k < at.len() - 1 {
        assert(at[k] < at[at.len() - 1]);
        assert(at.contains(at[at.len() - 1]));
        assert(first_change(entries, var, at[at.len() - 1]));
    }
}

// ---------------------------------------------------------------------------
// The lines of a script
// ---------------------------------------------------------------------------

/// A variable whose changes are none of prefixes, suffixes and settings gets no value.
pub proof fn law_other_changes_set_nothing(entries: Seq<EntryView>, var: Seq<char>)
    requires
        forall|j: int| #[trigger]
            first_change(entries, var, j) ==> entries[j].action != "prefix"@ && entries[j].action
                != "suffix"@ && entries[j].action != "set"@,
    ensures
        assigned(var, changes_of(entries, var)) is None,
{
    let p = lemma_values(entries, var, "prefix"@);
    let s = lemma_values(entries, var, "suffix"@);
    let t = lemma_values(entries, var, "set"@);
    if p.len() > 0 {
        assert(p.contains(p[0]));
        assert(first_change(entries, var, p[0]));
    }
    if s.len() > 0 {
        assert(s.contains(s[0]));
        assert(first_change(entries, var, s[0]));
    }
    if t.len() > 0 {
        assert(t.contains(t[0]));
        assert(first_change(entries, var, t[0]));
    }
}

proof fn lemma_exported(vars: Seq<Seq<char>>, entries: Seq<EntryView>)
    ensures
        export_lines(vars, entries) == vars.filter(
            |var: Seq<char>| assigned(var, changes_of(entries, var)) is Some,
        ).map_values(
            |var: Seq<char>|
                "export "@ + var + "=\""@ + assigned(var, changes_of(entries, var))->Some_0 + "\""@,
        ),
    decreases vars.len(),
{
    reveal(Seq::filter);
    let has = |var: Seq<char>| assigned(var, changes_of(entries, var)) is Some;
    let line = |var: Seq<char>|
        "export "@ + var + "=\""@ + assigned(var, changes_of(entries, var))->Some_0 + "\""@;
    if vars.len() > 0 {
        lemma_exported(vars.drop_last(), entries);
    }
    assert(export_lines(vars, entries) =~= vars.filter(has).map_values(line));
}

/// A script is its interpreter, a line for each variable that gets a value in the order in
/// which they come first, and the line that runs the program with the arguments of the
/// script. It ends in a line feed.
pub proof fn law_script_lines(target: Seq<char>, entries: Seq<EntryView>)
    ensures
        script_lines(target, entries) == seq!["#!/bin/sh"@] + distinct(
            entries.map_values(|e: EntryView| e.var),
        ).filter(
            |var: Seq<char>| assigned(var, changes_of(entries, var)) is Some,
        ).map_values(
            |var: Seq<char>|
                "export "@ + var + "=\""@ + assigned(var, changes_of(entries, var))->Some_0 + "\""@,
        ) + seq!["exec \""@ + target + "\" \"$@\""@, ""@],
{
    let all = entries.map_values(|e: EntryView| e.var);
    assert(all =~= entry_vars(entries));
    let vars = distinct(all);
    let lines = script_lines(target, entries);
    lemma_exported(vars, entries);
    assert(lines =~= seq!["#!/bin/sh"@] + export_lines(vars, entries) + seq![
        "exec \""@ + target + "\" \"$@\""@,
        ""@,
    ]);
}

/// The value of a variable whose changes are prefixes and suffixes stands in its line of
/// the script: prefixes before the value that it had, suffixes behind it.
pub proof fn law_line_of_prefixes_and_suffixes(target: Seq<char>, entries: Seq<EntryView>, i: int)
    requires
        0 <= i < entries.len(),
        forall|j: int| 0 <= j < i ==> (#[trigger] entries[j]).var != entries[i].var,
        forall|j: int| #[trigger]
            first_change(entries, entries[i].var, j) ==> entries[j].action == "prefix"@
                || entries[j].action == "suffix"@,
    ensures
        exists|p: Seq<int>, s: Seq<int>|
            #![trigger values_at(entries, p), values_at(entries, s)]
            first_changes(p, entries, entries[i].var, "prefix"@) && first_changes(
                s,
                entries,
                entries[i].var,
                "suffix"@,
            ) && script_lines(target, entries).contains(
                "export "@ + entries[i].var + "=\""@ + join(
                    values_at(entries, p) + seq!["${"@ + entries[i].var + ":-}"@] + values_at(
                        entries,
                        s,
                    ),
                    entries[i].sep,
                ) + "\""@,
            ),
{
    let var = entries[i].var;
    law_prefixes_and_suffixes(entries, i);
    let (p, s) = choose|p: Seq<int>, s: Seq<int>|
        #![trigger values_at(entries, p), values_at(entries, s)]
        first_changes(p, entries, var, "prefix"@) && first_changes(s, entries, var, "suffix"@)
            && assigned(var, changes_of(entries, var)) == Some(
            join(
                values_at(entries, p) + seq!["${"@ + var + ":-}"@] + values_at(entries, s),
                entries[i].sep,
            ),
        );
    let line = "export "@ + var + "=\""@ + assigned(var, changes_of(entries, var))->Some_0 + "\""@;
    lemma_has_line(target, entries, i);
    assert(script_lines(target, entries).contains(line));
}

/// The line of a variable that is set has the value of the last change that sets it.
pub proof fn law_line_of_set(target: Seq<char>, entries: Seq<EntryView>, var: Seq<char>, i: int)
    requires
        first_change(entries, var, i),
        entries[i].action == "set"@,
        forall|j: int|
            i < j && #[trigger] first_change(entries, var, j) ==> entries[j].action != "set"@,
    ensures
        script_lines(target, entries).contains(
            "export "@ + var + "=\""@ + entries[i].value + "\""@,
        ),
{
    law_set_counts(entries, var, i);
    lemma_has_line(target, entries, i);
}

proof fn lemma_has_line(target: Seq<char>, entries: Seq<EntryView>, i: int)
    requires
        0 <= i < entries.len(),
        assigned(entries[i].var, changes_of(entries, entries[i].var)) is Some,
    ensures
        script_lines(target, entries).contains(
            "export "@ + entries[i].var + "=\""@ + assigned(
                entries[i].var,
                changes_of(entries, entries[i].var),
            )->Some_0 + "\""@,
        ),
{
    let all = entries.map_values(|e: EntryView| e.var);
    let vars = distinct(all);
    let var = entries[i].var;
    let has = |v: Seq<char>| assigned(v, changes_of(entries, v)) is Some;
    let line = |v: Seq<char>|
        "export "@ + v + "=\""@ + assigned(v, changes_of(entries, v))->Some_0 + "\""@;
    lemma_distinct(all);
    law_script_lines(target, entries);
    assert(all[i] == var);
    assert(vars.contains(var));
    vars.lemma_filter_contains(has, vars.index_of(var));
    let set = vars.filter(has);
    let k = set.index_of(var);
    assert(set.map_values(line)[k] == line(var));
    assert(script_lines(target, entries)[k + 1] == line(var));
}

/// The script for a wrapper is its lines with line feeds between them, for the program and
/// the changes as they are in the bundle. A wrapper that names no program has none.
pub proof fn law_script(
    target: Seq<char>,
    entries: Seq<EntryView>,
    pairs: Seq<(Seq<char>, Seq<char>)>,
    drop_hashes: Set<Seq<char>>,
)
    ensures
        script_for(target, entries, pairs, drop_hashes) is Some <==> target.len() > 0,
        script_for(target, entries, pairs, drop_hashes) matches Some(text) ==> exists|
            program: Seq<char>,
            changes: Seq<EntryView>,
        |
            text == #[trigger] join(script_lines(program, changes), "\n"@) && program
                == first_applied(target, longest_first(pairs)) && changes.len() == entries.len() && (
            forall|k: int|
                0 <= k < changes.len() ==> (#[trigger] changes[k]).action == entries[k].action
                    && changes[k].sep == entries[k].sep && changes[k].var == runtime_var(
                    entries[k].var,
                ) && changes[k].value == relocated_value(
                    entries[k].value,
                    entries[k].sep,
                    drop_hashes,
                )),
{
    let program = first_applied(target, longest_first(pairs));
    let changes = bundle_entries(entries, drop_hashes);
    if target.len() > 0 {
        assert(script_for(target, entries, pairs, drop_hashes)->Some_0 == join(
            script_lines(program, changes),
            "\n"@,
        ));
    }
}

// ---------------------------------------------------------------------------
// The program and the values
// ---------------------------------------------------------------------------

/// A program in none of the rewritten paths stays where it is.
pub proof fn law_other_programs_stay(path: Seq<char>, pairs: Seq<(Seq<char>, Seq<char>)>)
    requires
        forall|i: int| 0 <= i < pairs.len() ==> !(#[trigger] pairs[i]).0.is_prefix_of(path),
    ensures
        first_applied(path, longest_first(pairs)) == path,
{
    crate::text_files::law_longest_first(pairs);
    let all = longest_first(pairs);
    assert forall|i: int| 0 <= i < all.len() implies !(#[trigger] all[i]).0.is_prefix_of(path) by {
        assert(all.contains(all[i]));
        assert(pairs.contains(all[i]));
        let k = pairs.index_of(all[i]);
        assert(pairs[k] == all[i]);
    }
    lemma_none_applied(path, all);
}

proof fn lemma_none_applied(path: Seq<char>, pairs: Seq<(Seq<char>, Seq<char>)>)
    requires
        forall|i: int| 0 <= i < pairs.len() ==> !(#[trigger] pairs[i]).0.is_prefix_of(path),
    ensures
        first_applied(path, pairs) == path,
    decreases pairs.len(),
{
    if pairs.len() > 0 {
        assert(!pairs[0].0.is_prefix_of(path));
        let rest = pairs.drop_first();
        assert forall|i: int| 0 <= i < rest.len() implies !(#[trigger] rest[i]).0.is_prefix_of(
            path,
        ) by {
            assert(pairs[i + 1] == rest[i]);
        }
        lemma_none_applied(path, rest);
    }
}

/// A path of the environment goes below `/usr` where its store path is dropped, below `/app`
/// where it is another store path, and stays otherwise.
pub proof fn law_relocated_path(part: Seq<char>, drop_hashes: Set<Seq<char>>)
    ensures
        ({
            let store = regex_captures(r"^/nix/store/([a-z0-9]{32})-"@, part);
            &&& store is None ==> relocated_part(part, drop_hashes) == part
            &&& (store matches Some(groups) && !drop_hashes.contains(group_text(groups, 1)))
                ==> relocated_part(part, drop_hashes) == "/app"@ + part
            &&& (store matches Some(groups) && drop_hashes.contains(group_text(groups, 1)))
                ==> relocated_part(part, drop_hashes) == regex_replace(
                r"/usr/lib/qt-6/(plugins|qml)"@,
                "/usr/"@ + regex_replace(r"^/nix/store/[^/]+/"@, part, ""@),
                "/usr/lib/$1"@,
            )
        }),
{
}

/// A value is relocated part by part: the part before the first separator, and then what
/// stands behind that separator. A value with no separator is one part.
pub proof fn law_relocated_value(
    part: Seq<char>,
    sep: Seq<char>,
    rest: Seq<char>,
    drop_hashes: Set<Seq<char>>,
)
    ensures
        sep.len() == 0 || !has_infix(part, sep) ==> relocated_value(part, sep, drop_hashes)
            == relocated_part(part, drop_hashes),
        sep.len() > 0 && comes_first(part, sep) ==> relocated_value(
            part + sep + rest,
            sep,
            drop_hashes,
        ) == relocated_part(part, drop_hashes) + sep + relocated_value(rest, sep, drop_hashes),
{
    let f = |p: Seq<char>| relocated_part(p, drop_hashes);
    if sep.len() == 0 || !has_infix(part, sep) {
        if sep.len() > 0 {
            law_split(part, sep, rest);
        }
        assert(parts_of(part, sep) == seq![part]);
        assert(parts_of(part, sep).map_values(f) =~= seq![f(part)]);
        law_join(seq![f(part)], Seq::empty(), sep);
    }
    if sep.len() > 0 && comes_first(part, sep) {
        law_split(part, sep, rest);
        let tail = split(rest, sep);
        lemma_find_from(rest, sep, 0);
        assert(tail.len() > 0);
        assert((seq![part] + tail).map_values(f) =~= seq![f(part)] + tail.map_values(f));
        law_join(seq![f(part)], tail.map_values(f), sep);
    }
}

/// Three variables of nixpkgs are known to programs of the runtime under other names.
/// Others keep their names.
pub proof fn law_variable_names(var: Seq<char>)
    ensures
        var == "NIXPKGS_QT6_QML_IMPORT_PATH"@ ==> runtime_var(var) == "QML_IMPORT_PATH"@,
        var == "NIXPKGS_QT5_QML_IMPORT_PATH"@ ==> runtime_var(var) == "QML2_IMPORT_PATH"@,
        var == "NIXPKGS_GST_PLUGIN_SYSTEM_PATH_1_0"@ ==> runtime_var(var)
            == "GST_PLUGIN_SYSTEM_PATH_1_0"@,
        var != "NIXPKGS_QT6_QML_IMPORT_PATH"@ && var != "NIXPKGS_QT5_QML_IMPORT_PATH"@ && var
            != "NIXPKGS_GST_PLUGIN_SYSTEM_PATH_1_0"@ ==> runtime_var(var) == var,
{
    reveal_strlit("NIXPKGS_QT6_QML_IMPORT_PATH");
    reveal_strlit("NIXPKGS_QT5_QML_IMPORT_PATH");
    reveal_strlit("NIXPKGS_GST_PLUGIN_SYSTEM_PATH_1_0");
    assert("NIXPKGS_QT6_QML_IMPORT_PATH"@[10] != "NIXPKGS_QT5_QML_IMPORT_PATH"@[10]);
    assert("NIXPKGS_QT6_QML_IMPORT_PATH"@.len() != "NIXPKGS_GST_PLUGIN_SYSTEM_PATH_1_0"@.len());
    assert("NIXPKGS_QT5_QML_IMPORT_PATH"@.len() != "NIXPKGS_GST_PLUGIN_SYSTEM_PATH_1_0"@.len());
}

// ---------------------------------------------------------------------------
// Reading wrappers
// ---------------------------------------------------------------------------

/// The bytes of a wrapper are read as ASCII, byte by byte, with a blank for what cannot be
/// printed.
pub proof fn law_wrapper_text(data: Seq<u8>, k: int)
    requires
        0 <= k < data.len(),
    ensures
        printable_text(data).len() == data.len(),
        data[k] == 10 || 32 <= data[k] < 127 ==> printable_text(data)[k] as int == data[k],
        !(data[k] == 10 || 32 <= data[k] < 127) ==> printable_text(data)[k] == ' ',
{
}

/// A wrapper runs the program that stands behind the name of its generator in its
/// description, and changes the environment as the entries behind that say, one after the
/// other: with a separator where they are prefixes and suffixes, and without one where they
/// set a variable.
pub proof fn law_wrapper_description(data: Seq<u8>)
    ensures
        ({
            let found = regex_captures(
                r"(?s)makeCWrapper\s+'([^']+)'(.*?)#\s*\(Use"@,
                printable_text(data),
            );
            &&& found is None ==> wrapped_target(data).len() == 0 && wrapped_entries(data).len()
                == 0
            &&& found matches Some(groups) ==> {
                let entries = regex_captures_iter(
                    r"--(?:(prefix|suffix)\s+'([^']+)'\s+'([^']+)'\s+'([^']+)'|(set)\s+'([^']+)'\s+'([^']*)')"@,
                    group_text(groups, 2),
                );
                &&& wrapped_target(data) == group_text(groups, 1)
                &&& wrapped_entries(data).len() == entries.len()
                &&& forall|k: int|
                    #![trigger entries[k]]
                    0 <= k < entries.len() ==> {
                        let e = wrapped_entries(data)[k];
                        let m = entries[k];
                        if group_text(m, 1).len() > 0 {
                            e.action == group_text(m, 1) && e.var == group_text(m, 2) && e.sep
                                == group_text(m, 3) && e.value == group_text(m, 4)
                        } else {
                            e.action == group_text(m, 5) && e.var == group_text(m, 6) && e.sep.len()
                                == 0 && e.value == group_text(m, 7)
                        }
                    }
            }
        }),
{
}

} // verus!
