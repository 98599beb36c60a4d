//! Compiled wrappers of Nix, and the shell scripts that take their place.
use vstd::prelude::*;
use vstd::utf8::encode_utf8;

use crate::order::{distinct, lemma_distinct, unique};
use crate::pattern::{
    captures, captures_iter, group, group_text, group_views, match_views, regex_captures,
    regex_captures_iter, regex_is_match, regex_replace, replace,
};
use crate::table::{NameSet, Table};
use crate::text::{
    from_range, glue, glue3, join, join_text, lemma_join_of_split, lemma_views_push, opt_view,
    same_text, split, split_text, starts_with, to_chars, views,
};
use crate::text_files::{
    law_longest_first, longest_first, pair_views, sorted_rewrites, table_pairs, Pair,
};

verus! {

/// The description that a compiled wrapper holds of itself. In it `.` matches
/// line feeds too.
pub const DOCSTRING_PATTERN: &'static str = r"(?s)makeCWrapper\s+'([^']+)'(.*?)#\s*\(Use";

/// A change to the environment in the description of a wrapper: `prefix` or `suffix`
/// with a variable, a separator and a value, or `set` with a variable and a value.
pub const ENTRY_PATTERN: &'static str =
    r"--(?:(prefix|suffix)\s+'([^']+)'\s+'([^']+)'\s+'([^']+)'|(set)\s+'([^']+)'\s+'([^']*)')";

/// A store path with a hash at the start of a text.
pub const LEADING_HASH_PATTERN: &'static str = r"^/nix/store/([a-z0-9]{32})-";

/// A store path at the start of a text.
pub const LEADING_PATH_PATTERN: &'static str = r"^/nix/store/[^/]+/";

/// A directory of Qt where Nix has it, below `/usr`.
pub const QT_PATH_PATTERN: &'static str = r"/usr/lib/qt-6/(plugins|qml)";

/// The same directory where the runtime has it.
pub const QT_PATH_REPLACEMENT: &'static str = "/usr/lib/$1";

// ---------------------------------------------------------------------------
// Model
// ---------------------------------------------------------------------------

/// A change to the environment.
pub struct WrapperEntry {
    /// `prefix`, `suffix` or `set`.
    pub action: String,
    pub var: String,
    /// What separates the parts of the value. `set` has none.
    pub sep: String,
    pub value: String,
}

/// The model of a change to the environment.
pub struct EntryView {
    pub action: Seq<char>,
    pub var: Seq<char>,
    pub sep: Seq<char>,
    pub value: Seq<char>,
}

impl WrapperEntry {
    pub open spec fn view(self) -> EntryView {
        EntryView {
            action: self.action@,
            var: self.var@,
            sep: self.sep@,
            value: self.value@,
        }
    }
}

pub open spec fn entry_views(list: Seq<WrapperEntry>) -> Seq<EntryView> {
    list.map_values(|e: WrapperEntry| e.view())
}

/// A byte as a character. What is not printable, and no line feed, is a space.
pub open spec fn printable(b: u8) -> char {
    if b == 0x0a || 0x20 <= b <= 0x7e {
        b as char
    } else {
        ' '
    }
}

/// Bytes as text.
pub open spec fn printable_text(data: Seq<u8>) -> Seq<char> {
    data.map_values(|b: u8| printable(b))
}

/// A change to the environment from the groups of a match: the first four where it
/// has a separator, and the last three where it has none.
pub open spec fn entry_of(groups: Seq<Option<Seq<char>>>) -> EntryView {
    if group_text(groups, 1).len() > 0 {
        EntryView {
            action: group_text(groups, 1),
            var: group_text(groups, 2),
            sep: group_text(groups, 3),
            value: group_text(groups, 4),
        }
    } else {
        EntryView {
            action: group_text(groups, 5),
            var: group_text(groups, 6),
            sep: seq![],
            value: group_text(groups, 7),
        }
    }
}

/// Changes to the environment from the groups of matches.
pub open spec fn entries_of(matches: Seq<Seq<Option<Seq<char>>>>) -> Seq<EntryView> {
    matches.map_values(|groups: Seq<Option<Seq<char>>>| entry_of(groups))
}

/// The program that a wrapper runs. There is none where the wrapper does not
/// describe itself.
pub open spec fn wrapped_target(data: Seq<u8>) -> Seq<char> {
    match regex_captures(DOCSTRING_PATTERN@, printable_text(data)) {
        Some(groups) => group_text(groups, 1),
        None => seq![],
    }
}

/// The changes that a wrapper makes to the environment.
pub open spec fn wrapped_entries(data: Seq<u8>) -> Seq<EntryView> {
    match regex_captures(DOCSTRING_PATTERN@, printable_text(data)) {
        Some(groups) => entries_of(regex_captures_iter(ENTRY_PATTERN@, group_text(groups, 2))),
        None => seq![],
    }
}

/// A path with the first of the pairs applied whose path it begins with.
pub open spec fn first_applied(path: Seq<char>, pairs: Seq<(Seq<char>, Seq<char>)>) -> Seq<char>
    decreases pairs.len(),
{
    if pairs.len() == 0 {
        path
    } else if pairs[0].0.is_prefix_of(path) {
        pairs[0].1 + path.skip(pairs[0].0.len() as int)
    } else {
        first_applied(path, pairs.drop_first())
    }
}

/// Where a path of the environment is in a bundle.
#[derive(Clone, Copy, PartialEq, Eq, Structural, Debug)]
pub enum Place {
    /// In the runtime: its store path is dropped.
    Runtime,
    /// Below `/app`: its store path is kept.
    App,
    /// Where it was: it is not in the Nix store.
    Same,
}

/// Where a path is in a bundle, from the groups of a match for its store path.
pub open spec fn place_of(
    groups: Option<Seq<Option<Seq<char>>>>,
    drop_hashes: Set<Seq<char>>,
) -> Place {
    match groups {
        Some(groups) => if drop_hashes.contains(group_text(groups, 1)) {
            Place::Runtime
        } else {
            Place::App
        },
        None => Place::Same,
    }
}

/// A path of the environment as it is in a bundle.
pub open spec fn relocated_part(part: Seq<char>, drop_hashes: Set<Seq<char>>) -> Seq<char> {
    match place_of(regex_captures(LEADING_HASH_PATTERN@, part), drop_hashes) {
        Place::Runtime => regex_replace(
            QT_PATH_PATTERN@,
            "/usr/"@ + regex_replace(LEADING_PATH_PATTERN@, part, ""@),
            QT_PATH_REPLACEMENT@,
        ),
        Place::App => "/app"@ + part,
        Place::Same => part,
    }
}

/// The parts of a value.
pub open spec fn parts_of(value: Seq<char>, sep: Seq<char>) -> Seq<Seq<char>> {
    if sep.len() > 0 {
        split(value, sep)
    } else {
        seq![value]
    }
}

/// A value as it is in a bundle: each of its parts is relocated.
pub open spec fn relocated_value(
    value: Seq<char>,
    sep: Seq<char>,
    drop_hashes: Set<Seq<char>>,
) -> Seq<char> {
    join(
        parts_of(value, sep).map_values(|part: Seq<char>| relocated_part(part, drop_hashes)),
        sep,
    )
}

/// The name of a variable for programs of the runtime. Nix has programs that read
/// variables of their own.
pub open spec fn runtime_var(var: Seq<char>) -> Seq<char> {
    if var == "NIXPKGS_QT6_QML_IMPORT_PATH"@ {
        "QML_IMPORT_PATH"@
    } else if var == "NIXPKGS_QT5_QML_IMPORT_PATH"@ {
        "QML2_IMPORT_PATH"@
    } else if var == "NIXPKGS_GST_PLUGIN_SYSTEM_PATH_1_0"@ {
        "GST_PLUGIN_SYSTEM_PATH_1_0"@
    } else {
        var
    }
}

/// A change to the environment as it is in a bundle.
pub open spec fn relocated(e: EntryView, drop_hashes: Set<Seq<char>>) -> EntryView {
    EntryView {
        action: e.action,
        var: runtime_var(e.var),
        sep: e.sep,
        value: relocated_value(e.value, e.sep, drop_hashes),
    }
}

/// The variables of changes.
pub open spec fn entry_vars(entries: Seq<EntryView>) -> Seq<Seq<char>> {
    entries.map_values(|e: EntryView| e.var)
}

/// Some change is of that value.
pub open spec fn has_value(entries: Seq<EntryView>, value: Seq<char>) -> bool {
    exists|i: int| 0 <= i < entries.len() && (#[trigger] entries[i]).value == value
}

/// The changes to a variable, the first for each value.
pub open spec fn changes_of(entries: Seq<EntryView>, var: Seq<char>) -> Seq<EntryView>
    decreases entries.len(),
{
    if entries.len() == 0 {
        seq![]
    } else {
        let before = changes_of(entries.drop_last(), var);
        let last = entries.last();
        if last.var == var && !has_value(before, last.value) {
            before.push(last)
        } else {
            before
        }
    }
}

/// The values of the changes with an action.
pub open spec fn values_of(changes: Seq<EntryView>, action: Seq<char>) -> Seq<Seq<char>>
    decreases changes.len(),
{
    if changes.len() == 0 {
        seq![]
    } else {
        let before = values_of(changes.drop_last(), action);
        if changes.last().action == action {
            before.push(changes.last().value)
        } else {
            before
        }
    }
}

/// The value that a variable has when the script starts, as the shell has it.
pub open spec fn current_value(var: Seq<char>) -> Seq<char> {
    "${"@ + var + ":-}"@
}

/// What a variable is set to.
pub open spec fn assigned(var: Seq<char>, changes: Seq<EntryView>) -> Option<Seq<char>> {
    let sep = if changes.len() > 0 {
        changes[0].sep
    } else {
        ":"@
    };
    let prefix = values_of(changes, "prefix"@);
    let suffix = values_of(changes, "suffix"@);
    let set = values_of(changes, "set"@);
    if set.len() > 0 {
        Some(set.last())
    } else if prefix.len() > 0 && suffix.len() > 0 {
        Some(join(prefix, sep) + sep + current_value(var) + sep + join(suffix, sep))
    } else if prefix.len() > 0 {
        Some(join(prefix, sep) + sep + current_value(var))
    } else if suffix.len() > 0 {
        Some(current_value(var) + sep + join(suffix, sep))
    } else {
        None
    }
}

/// The line that sets a variable.
pub open spec fn export_line(var: Seq<char>, value: Seq<char>) -> Seq<char> {
    "export "@ + var + "=\""@ + value + "\""@
}

/// The lines that set variables.
pub open spec fn export_lines(vars: Seq<Seq<char>>, entries: Seq<EntryView>) -> Seq<Seq<char>>
    decreases vars.len(),
{
    if vars.len() == 0 {
        seq![]
    } else {
        let before = export_lines(vars.drop_last(), entries);
        match assigned(vars.last(), changes_of(entries, vars.last())) {
            Some(value) => before.push(export_line(vars.last(), value)),
            None => before,
        }
    }
}

/// The line that runs the program.
pub open spec fn exec_line(target: Seq<char>) -> Seq<char> {
    "exec \""@ + target + "\" \"$@\""@
}

/// The lines of the script that makes changes to the environment and runs a
/// program.
pub open spec fn script_lines(target: Seq<char>, entries: Seq<EntryView>) -> Seq<Seq<char>> {
    seq!["#!/bin/sh"@] + export_lines(distinct(entry_vars(entries)), entries) + seq![
        exec_line(target),
        ""@,
    ]
}

/// The changes that a wrapper makes to the environment, as they are in a bundle.
pub open spec fn bundle_entries(entries: Seq<EntryView>, drop_hashes: Set<Seq<char>>) -> Seq<
    EntryView,
> {
    entries.map_values(|e: EntryView| relocated(e, drop_hashes))
}

/// The script that takes the place of a wrapper. There is none where the wrapper
/// does not describe itself.
pub open spec fn script_for(
    target: Seq<char>,
    entries: Seq<EntryView>,
    pairs: Seq<(Seq<char>, Seq<char>)>,
    drop_hashes: Set<Seq<char>>,
) -> Option<Seq<char>> {
    if target.len() == 0 {
        None
    } else {
        Some(
            join(
                script_lines(
                    first_applied(target, longest_first(pairs)),
                    bundle_entries(entries, drop_hashes),
                ),
                "\n"@,
            ),
        )
    }
}

// ---------------------------------------------------------------------------
// Laws
// ---------------------------------------------------------------------------

/// A script names its interpreter first, runs the program last, and sets each
/// variable at most once in between.
pub proof fn law_script_shape(target: Seq<char>, entries: Seq<EntryView>)
    ensures
        script_lines(target, entries).first() == "#!/bin/sh"@,
        script_lines(target, entries)[script_lines(target, entries).len() - 2] == exec_line(target),
        script_lines(target, entries).last() == ""@,
        script_lines(target, entries).len() <= distinct(entry_vars(entries)).len() + 3,
        distinct(entry_vars(entries)).no_duplicates(),
{
    lemma_distinct(entry_vars(entries));
    lemma_export_lines(distinct(entry_vars(entries)), entries);
    let head = seq!["#!/bin/sh"@];
    let body = export_lines(distinct(entry_vars(entries)), entries);
    let all = script_lines(target, entries);
    assert(all[0] == head[0]);
    assert(all[all.len() - 2] == exec_line(target));
    assert(all[all.len() - 1] == ""@);
}

proof fn lemma_export_lines(vars: Seq<Seq<char>>, entries: Seq<EntryView>)
    ensures
        export_lines(vars, entries).len() <= vars.len(),
    decreases vars.len(),
{
    if vars.len() > 0 {
        lemma_export_lines(vars.drop_last(), entries);
    }
}

/// Among the changes to a variable no value stands twice, and all are to that
/// variable.
pub proof fn law_changes_of(entries: Seq<EntryView>, var: Seq<char>)
    ensures
        forall|i: int|
            0 <= i < changes_of(entries, var).len() ==> (#[trigger] changes_of(entries, var)[i]).var
                == var,
        forall|i: int, j: int|
            0 <= i < j < changes_of(entries, var).len() ==> (#[trigger] changes_of(
                entries,
                var,
            )[i]).value != (#[trigger] changes_of(entries, var)[j]).value,
    decreases entries.len(),
{
    if entries.len() > 0 {
        law_changes_of(entries.drop_last(), var);
        let before = changes_of(entries.drop_last(), var);
        let all = changes_of(entries, var);
        assert forall|i: int| 0 <= i < all.len() implies (#[trigger] all[i]).var == var by {
            if i < before.len() {
                assert(all[i] == before[i]);
            }
        }
        assert forall|i: int, j: int| 0 <= i < j < all.len() implies (#[trigger] all[i]).value != (
        #[trigger] all[j]).value by {
            assert(all[i] == before[i]);
            if j < before.len() {
                assert(all[j] == before[j]);
            }
        }
    }
}

/// A change that a script can make: `prefix`, `suffix` or `set`.
pub open spec fn known_action(e: EntryView) -> bool {
    e.action == "prefix"@ || e.action == "suffix"@ || e.action == "set"@
}

proof fn lemma_has_changes(entries: Seq<EntryView>, var: Seq<char>, i: int)
    requires
        0 <= i < entries.len(),
        entries[i].var == var,
    ensures
        changes_of(entries, var).len() > 0,
    decreases entries.len(),
{
    if i < entries.len() - 1 {
        lemma_has_changes(entries.drop_last(), var, i);
    }
}

proof fn lemma_changes_are_entries(entries: Seq<EntryView>, var: Seq<char>)
    ensures
        forall|k: int|
            0 <= k < changes_of(entries, var).len() ==> entries.contains(
                #[trigger] changes_of(entries, var)[k],
            ),
    decreases entries.len(),
{
    if entries.len() > 0 {
        let rest = entries.drop_last();
        let before = changes_of(rest, var);
        let all = changes_of(entries, var);
        lemma_changes_are_entries(rest, var);
        assert forall|k: int| 0 <= k < all.len() implies entries.contains(#[trigger] all[k]) by {
            if k < before.len() {
                assert(all[k] == before[k]);
                assert(entries[rest.index_of(before[k])] == all[k]);
            } else {
                assert(entries[entries.len() - 1] == all[k]);
            }
        }
    }
}

proof fn lemma_has_values(changes: Seq<EntryView>, action: Seq<char>, k: int)
    requires
        0 <= k < changes.len(),
        changes[k].action == action,
    ensures
        values_of(changes, action).len() > 0,
    decreases changes.len(),
{
    if k < changes.len() - 1 {
        lemma_has_values(changes.drop_last(), action, k);
    }
}

proof fn lemma_is_exported(vars: Seq<Seq<char>>, entries: Seq<EntryView>, k: int)
    requires
        0 <= k < vars.len(),
        assigned(vars[k], changes_of(entries, vars[k])) is Some,
    ensures
        export_lines(vars, entries).contains(
            export_line(vars[k], assigned(vars[k], changes_of(entries, vars[k]))->Some_0),
        ),
    decreases vars.len(),
{
    let rest = vars.drop_last();
    let before = export_lines(rest, entries);
    let all = export_lines(vars, entries);
    let line = export_line(vars[k], assigned(vars[k], changes_of(entries, vars[k]))->Some_0);
    if k < vars.len() - 1 {
        lemma_is_exported(rest, entries, k);
        assert(all[before.index_of(line)] == line);
    } else {
        assert(all[before.len() as int] == line);
    }
}

/// A script sets each variable that is changed.
pub proof fn law_changed_variables_are_set(
    target: Seq<char>,
    entries: Seq<EntryView>,
    i: int,
)
    requires
        0 <= i < entries.len(),
        forall|k: int| 0 <= k < entries.len() ==> known_action(#[trigger] entries[k]),
    ensures
        ({
            let var = entries[i].var;
            let value = assigned(var, changes_of(entries, var));
            value is Some && script_lines(target, entries).contains(
                export_line(var, value->Some_0),
            )
        }),
{
    let var = entries[i].var;
    let changes = changes_of(entries, var);
    let vars = entry_vars(entries);
    lemma_has_changes(entries, var, i);
    lemma_changes_are_entries(entries, var);
    assert(entries.contains(changes[0]));
    assert(known_action(entries[entries.index_of(changes[0])]));
    lemma_has_values(changes, changes[0].action, 0);
    lemma_distinct(vars);
    assert(vars[i] == var);
    assert(distinct(vars).contains(var));
    let k = distinct(vars).index_of(var);
    lemma_is_exported(distinct(vars), entries, k);
    let lines = export_lines(distinct(vars), entries);
    let line = export_line(var, assigned(var, changes)->Some_0);
    assert(script_lines(target, entries)[lines.index_of(line) + 1] == line);
}

proof fn lemma_only_change(entries: Seq<EntryView>, i: int)
    requires
        0 <= i < entries.len(),
        forall|k: int|
            0 <= k < entries.len() && k != i ==> (#[trigger] entries[k]).var != entries[i].var,
    ensures
        changes_of(entries, entries[i].var) == seq![entries[i]],
    decreases entries.len(),
{
    let rest = entries.drop_last();
    let var = entries[i].var;
    if i < entries.len() - 1 {
        assert forall|k: int| 0 <= k < rest.len() && k != i implies (#[trigger] rest[k]).var
            != rest[i].var by {
            assert(entries[k].var != var);
        }
        lemma_only_change(rest, i);
        assert(entries[entries.len() - 1].var != var);
    } else {
        lemma_no_change(rest, var);
        assert(changes_of(entries, var) =~= seq![entries[i]]);
    }
}

proof fn lemma_no_change(entries: Seq<EntryView>, var: Seq<char>)
    requires
        forall|k: int| 0 <= k < entries.len() ==> (#[trigger] entries[k]).var != var,
    ensures
        changes_of(entries, var).len() == 0,
    decreases entries.len(),
{
    if entries.len() > 0 {
        let rest = entries.drop_last();
        assert forall|k: int| 0 <= k < rest.len() implies (#[trigger] rest[k]).var != var by {
            assert(entries[k].var != var);
        }
        lemma_no_change(rest, var);
        assert(entries[entries.len() - 1].var != var);
    }
}

/// A variable that is set, and not changed otherwise, has that value in the script.
pub proof fn law_set_variables_have_their_value(
    target: Seq<char>,
    entries: Seq<EntryView>,
    i: int,
)
    requires
        0 <= i < entries.len(),
        entries[i].action == "set"@,
        forall|k: int|
            0 <= k < entries.len() && k != i ==> (#[trigger] entries[k]).var != entries[i].var,
    ensures
        script_lines(target, entries).contains(export_line(entries[i].var, entries[i].value)),
{
    let var = entries[i].var;
    let vars = entry_vars(entries);
    let changes = changes_of(entries, var);
    lemma_only_change(entries, i);
    reveal_with_fuel(values_of, 2);
    assert(changes.drop_last() =~= seq![]);
    assert(values_of(changes, "set"@) =~= seq![entries[i].value]);
    lemma_distinct(vars);
    assert(vars[i] == var);
    assert(distinct(vars).contains(var));
    let k = distinct(vars).index_of(var);
    lemma_is_exported(distinct(vars), entries, k);
    let lines = export_lines(distinct(vars), entries);
    let line = export_line(var, entries[i].value);
    assert(script_lines(target, entries)[lines.index_of(line) + 1] == line);
}

proof fn lemma_first_applied(path: Seq<char>, pairs: Seq<(Seq<char>, Seq<char>)>, i: int)
    requires
        0 <= i < pairs.len(),
        pairs[i].0.is_prefix_of(path),
    ensures
        exists|k: int|
            #![trigger pairs[k]]
            0 <= k <= i && pairs[k].0.is_prefix_of(path) && first_applied(path, pairs)
                == pairs[k].1 + path.skip(pairs[k].0.len() as int) && (forall|j: int|
                0 <= j < k ==> !(#[trigger] pairs[j]).0.is_prefix_of(path)),
    decreases pairs.len(),
{
    if pairs[0].0.is_prefix_of(path) {
        assert(pairs[0].0.is_prefix_of(path));
    } else {
        let rest = pairs.drop_first();
        assert(rest[i - 1] == pairs[i]);
        lemma_first_applied(path, rest, i - 1);
        let k = choose|k: int|
            #![trigger rest[k]]
            0 <= k <= i - 1 && rest[k].0.is_prefix_of(path) && first_applied(path, rest)
                == rest[k].1 + path.skip(rest[k].0.len() as int) && (forall|j: int|
                0 <= j < k ==> !(#[trigger] rest[j]).0.is_prefix_of(path));
        assert(pairs[k + 1] == rest[k]);
        assert forall|j: int| 0 <= j < k + 1 implies !(#[trigger] pairs[j]).0.is_prefix_of(
            path,
        ) by {
            if j > 0 {
                assert(rest[j - 1] == pairs[j]);
            }
        }
    }
}

/// The program of a wrapper is rewritten by the longest of the paths that it
/// begins with.
pub proof fn law_longest_path_is_applied(
    path: Seq<char>,
    pairs: Seq<(Seq<char>, Seq<char>)>,
    i: int,
)
    requires
        0 <= i < pairs.len(),
        pairs[i].0.is_prefix_of(path),
    ensures
        exists|k: int|
            #![trigger pairs[k]]
            0 <= k < pairs.len() && pairs[k].0.is_prefix_of(path) && first_applied(
                path,
                longest_first(pairs),
            ) == pairs[k].1 + path.skip(pairs[k].0.len() as int) && (forall|j: int|
                0 <= j < pairs.len() && (#[trigger] pairs[j]).0.is_prefix_of(path) ==> encode_utf8(
                    pairs[j].0,
                ).len() <= encode_utf8(pairs[k].0).len()),
{
    let all = longest_first(pairs);
    law_longest_first(pairs);
    assert(pairs.contains(pairs[i]));
    assert(all.contains(pairs[i]));
    let at = all.index_of(pairs[i]);
    assert(all[at] == pairs[i]);
    lemma_first_applied(path, all, at);
    let m = choose|m: int|
        #![trigger all[m]]
        0 <= m <= at && all[m].0.is_prefix_of(path) && first_applied(path, all) == all[m].1
            + path.skip(all[m].0.len() as int) && (forall|j: int|
            0 <= j < m ==> !(#[trigger] all[j]).0.is_prefix_of(path));
    assert(all.contains(all[m]));
    let k = pairs.index_of(all[m]);
    assert(pairs[k] == all[m]);
    assert forall|j: int|
        0 <= j < pairs.len() && (#[trigger] pairs[j]).0.is_prefix_of(path) implies encode_utf8(
        pairs[j].0,
    ).len() <= encode_utf8(pairs[k].0).len() by {
        assert(pairs.contains(pairs[j]));
        assert(all.contains(pairs[j]));
        let n = all.index_of(pairs[j]);
        assert(all[n] == pairs[j]);
        if n < m {
            assert(!all[n].0.is_prefix_of(path));
        } else if n > m {
            assert(encode_utf8(all[m].0).len() >= encode_utf8(all[n].0).len());
        }
    }
}

/// A value of which no part is in the Nix store stays as it is.
pub proof fn law_other_values_stay(value: Seq<char>, sep: Seq<char>, drop_hashes: Set<Seq<char>>)
    requires
        forall|i: int|
            0 <= i < parts_of(value, sep).len() ==> regex_captures(
                LEADING_HASH_PATTERN@,
                #[trigger] parts_of(value, sep)[i],
            ) is None,
    ensures
        relocated_value(value, sep, drop_hashes) == value,
{
    let parts = parts_of(value, sep);
    let f = |part: Seq<char>| relocated_part(part, drop_hashes);
    assert(parts.map_values(f) =~= parts) by {
        assert forall|i: int| 0 <= i < parts.len() implies f(parts[i]) == parts[i] by {}
    }
    if sep.len() > 0 {
        lemma_join_of_split(value, sep);
    }
}

// ---------------------------------------------------------------------------
// Reading wrappers
// ---------------------------------------------------------------------------

/// Bytes as text.
fn clean_text(data: &[u8]) -> (r: String)
    ensures
        r@ == printable_text(data@),
{
    let mut r: String = String::new();
    let mut i: usize = 0;
    proof {
        assert(r@ =~= printable_text(data@.take(0)));
    }
    while i < data.len()
        invariant
            i <= data@.len(),
            r@ == printable_text(data@.take(i as int)),
        decreases data@.len() - i,
    {
        let b: u8 = data[i];
        let c: char = if b == 0x0a || (0x20 <= b && b <= 0x7e) {
            b as char
        } else {
            ' '
        };
        r.push(c);
        proof {
            assert(r@ =~= printable_text(data@.take(i as int + 1)));
        }
        i += 1;
    }
    proof {
        assert(data@.take(i as int) =~= data@);
    }
    r
}

/// A change to the environment from the groups of a match.
fn read_entry(groups: &Vec<Option<String>>) -> (r: WrapperEntry)
    ensures
        r@ == entry_of(group_views(groups@)),
{
    let action: String = group(groups, 1);
    if !action.as_str().is_empty() {
        WrapperEntry {
            action,
            var: group(groups, 2),
            sep: group(groups, 3),
            value: group(groups, 4),
        }
    } else {
        let r: WrapperEntry = WrapperEntry {
            action: group(groups, 5),
            var: group(groups, 6),
            sep: String::new(),
            value: group(groups, 7),
        };
        proof {
            assert(r@.sep =~= seq![]);
        }
        r
    }
}

/// Changes to the environment from the groups of matches.
pub fn read_entries(matches: &Vec<Vec<Option<String>>>) -> (r: Vec<WrapperEntry>)
    ensures
        entry_views(r@) == entries_of(match_views(matches@)),
{
    let mut r: Vec<WrapperEntry> = Vec::new();
    let mut i: usize = 0;
    while i < matches.len()
        invariant
            i <= matches@.len(),
            r@.len() == i,
            forall|k: int|
                0 <= k < i ==> (#[trigger] r@[k])@ == entry_of(group_views(matches@[k]@)),
        decreases matches@.len() - i,
    {
        let groups: &Vec<Option<String>> = &matches[i];
        r.push(read_entry(groups));
        i += 1;
    }
    proof {
        assert(entry_views(r@) =~= entries_of(match_views(matches@)));
    }
    r
}

/// Parse the DOCSTRING embedded in a Nix compiled wrapper: the program that it
/// runs, and the changes that it makes to the environment.
pub fn parse_wrapper_docstring(data: &[u8]) -> (r: (String, Vec<WrapperEntry>))
    ensures
        r.0@ == wrapped_target(data@),
        entry_views(r.1@) == wrapped_entries(data@),
{
    let text: String = clean_text(data);
    match captures(DOCSTRING_PATTERN, &text) {
        Some(groups) => {
            let args: String = group(&groups, 2);
            let entries: Vec<WrapperEntry> = read_entries(&captures_iter(ENTRY_PATTERN, &args));
            (group(&groups, 1), entries)
        },
        None => {
            let entries: Vec<WrapperEntry> = Vec::new();
            proof {
                assert(entry_views(entries@) =~= seq![]);
            }
            (String::new(), entries)
        },
    }
}

// ---------------------------------------------------------------------------
// Relocating
// ---------------------------------------------------------------------------

/// A path with the first of the pairs applied whose path it begins with.
pub fn apply_first(path: &str, pairs: &Vec<Pair>) -> (r: String)
    ensures
        r@ == first_applied(path@, pair_views(pairs@)),
{
    let ghost v = pair_views(pairs@);
    let mut i: usize = 0;
    proof {
        assert(v.skip(0) =~= v);
    }
    while i < pairs.len()
        invariant
            i <= pairs@.len(),
            v == pair_views(pairs@),
            first_applied(path@, v) == first_applied(path@, v.skip(i as int)),
        decreases pairs@.len() - i,
    {
        proof {
            assert(v.skip(i as int)[0] == (pairs@[i as int].from@, pairs@[i as int].to@));
            assert(v.skip(i as int).drop_first() =~= v.skip(i as int + 1));
        }
        if starts_with(path, &pairs[i].from) {
            let chars: Vec<char> = to_chars(path);
            let skip: usize = to_chars(&pairs[i].from).len();
            let rest: String = from_range(&chars, skip, chars.len());
            proof {
                assert(rest@ =~= path@.skip(skip as int));
            }
            return glue(&pairs[i].to, &rest);
        }
        i += 1;
    }
    path.to_owned()
}

/// The groups of a match, where there is one.
pub open spec fn optional_groups(groups: Option<Vec<Option<String>>>) -> Option<
    Seq<Option<Seq<char>>>,
> {
    match groups {
        Some(g) => Some(group_views(g@)),
        None => None,
    }
}

/// Where a path is in a bundle, from the groups of a match for its store path.
pub fn find_place(groups: &Option<Vec<Option<String>>>, drop_hashes: &NameSet) -> (r: Place)
    ensures
        r == place_of(optional_groups(*groups), drop_hashes@),
{
    match groups {
        Some(g) => if drop_hashes.contains(&group(g, 1)) {
            Place::Runtime
        } else {
            Place::App
        },
        None => Place::Same,
    }
}

/// A path of the environment as it is in a bundle. One in the runtime that is not
/// a directory of Qt keeps its place below `/usr`.
pub fn relocate_part(part: &str, drop_hashes: &NameSet) -> (r: String)
    ensures
        r@ == relocated_part(part@, drop_hashes@),
        place_of(regex_captures(LEADING_HASH_PATTERN@, part@), drop_hashes@) == Place::Runtime
            && !regex_is_match(
            QT_PATH_PATTERN@,
            "/usr/"@ + regex_replace(LEADING_PATH_PATTERN@, part@, ""@),
        ) ==> r@ == "/usr/"@ + regex_replace(LEADING_PATH_PATTERN@, part@, ""@),
{
    match find_place(&captures(LEADING_HASH_PATTERN, part), drop_hashes) {
        Place::Runtime => {
            // Dropped: map to /usr equivalent
            let rel: String = replace(LEADING_PATH_PATTERN, part, "");
            // Fix Nix vs Flatpak layout: lib/qt-6/plugins → lib/plugins
            replace(QT_PATH_PATTERN, &glue("/usr/", &rel), QT_PATH_REPLACEMENT)
        },
        Place::App => glue("/app", part),
        Place::Same => part.to_owned(),
    }
}

/// The name of a variable for programs of the runtime.
pub fn rename_var(var: &str) -> (r: String)
    ensures
        r@ == runtime_var(var@),
{
    if same_text(var, "NIXPKGS_QT6_QML_IMPORT_PATH") {
        "QML_IMPORT_PATH".to_owned()
    } else if same_text(var, "NIXPKGS_QT5_QML_IMPORT_PATH") {
        "QML2_IMPORT_PATH".to_owned()
    } else if same_text(var, "NIXPKGS_GST_PLUGIN_SYSTEM_PATH_1_0") {
        "GST_PLUGIN_SYSTEM_PATH_1_0".to_owned()
    } else {
        var.to_owned()
    }
}

/// A change to the environment as it is in a bundle.
pub fn relocate_entry(entry: &WrapperEntry, drop_hashes: &NameSet) -> (r: WrapperEntry)
    ensures
        r@ == relocated(entry@, drop_hashes@),
{
    // Values may be compound (multiple paths joined by separator).
    // Split, rewrite each part individually, rejoin.
    let parts: Vec<String> = if !entry.sep.as_str().is_empty() {
        split_text(&entry.value, &entry.sep)
    } else {
        vec![entry.value.clone()]
    };
    let ghost v = parts_of(entry@.value, entry@.sep);
    let ghost f = |part: Seq<char>| relocated_part(part, drop_hashes@);
    let mut new_parts: Vec<String> = Vec::new();
    let mut i: usize = 0;
    proof {
        assert(views(parts@) =~= v);
    }
    while i < parts.len()
        invariant
            i <= parts@.len(),
            v == views(parts@),
            f == (|part: Seq<char>| relocated_part(part, drop_hashes@)),
            views(new_parts@) == v.take(i as int).map_values(f),
        decreases parts@.len() - i,
    {
        let part: String = relocate_part(&parts[i], drop_hashes);
        proof {
            lemma_views_push(new_parts@, part);
            assert(v[i as int] == parts@[i as int]@);
            assert(v.take(i as int + 1).map_values(f) =~= v.take(i as int).map_values(f).push(
                f(v[i as int]),
            ));
        }
        new_parts.push(part);
        i += 1;
    }
    proof {
        assert(v.take(i as int) =~= v);
    }
    WrapperEntry {
        action: entry.action.clone(),
        var: rename_var(&entry.var),
        sep: entry.sep.clone(),
        value: join_text(&new_parts, &entry.sep),
    }
}

// ---------------------------------------------------------------------------
// Writing scripts
// ---------------------------------------------------------------------------

/// The changes to a variable, the first for each value.
fn select_changes<'a>(entries: &'a Vec<WrapperEntry>, var: &str) -> (r: Vec<&'a WrapperEntry>)
    ensures
        r@.map_values(|e: &WrapperEntry| e@) == changes_of(entry_views(entries@), var@),
{
    let ghost v = entry_views(entries@);
    let mut seen: NameSet = NameSet::new();
    let mut r: Vec<&'a WrapperEntry> = Vec::new();
    let mut i: usize = 0;
    proof {
        assert(r@.map_values(|e: &WrapperEntry| e@) =~= changes_of(v.take(0), var@));
    }
    while i < entries.len()
        invariant
            i <= entries@.len(),
            v == entry_views(entries@),
            r@.map_values(|e: &WrapperEntry| e@) == changes_of(v.take(i as int), var@),
            forall|value: Seq<char>| #[trigger]
                seen@.contains(value) <==> has_value(changes_of(v.take(i as int), var@), value),
        decreases entries@.len() - i,
    {
        let e: &WrapperEntry = &entries[i];
        let ghost before = changes_of(v.take(i as int), var@);
        let ghost seen0 = seen@;
        proof {
            let t = v.take(i as int + 1);
            assert(t.drop_last() =~= v.take(i as int));
            assert(t.last() == e@);
            assert(r@.push(e).map_values(|e: &WrapperEntry| e@) =~= r@.map_values(
                |e: &WrapperEntry| e@,
            ).push(e@));
        }
        if same_text(&e.var, var) {
            if seen.insert(e.value.clone()) {
                r.push(e);
                proof {
                    let all = before.push(e@);
                    assert forall|value: Seq<char>| #[trigger]
                        seen@.contains(value) <==> has_value(all, value) by {
                        assert(seen0.contains(value) <==> has_value(before, value));
                        if has_value(before, value) {
                            let k = choose|k: int|
                                0 <= k < before.len() && (#[trigger] before[k]).value == value;
                            assert(all[k].value == value);
                        }
                        assert(all[before.len() as int] == e@);
                        if has_value(all, value) {
                            let k = choose|k: int|
                                0 <= k < all.len() && (#[trigger] all[k]).value == value;
                            if k < before.len() {
                                assert(before[k].value == value);
                            }
                        }
                    }
                }
            } else {
                proof {
                    assert(seen@ =~= seen0);
                }
            }
        }
        i += 1;
    }
    proof {
        assert(v.take(i as int) =~= v);
    }
    r
}

/// The values of the changes with an action.
fn select_values(changes: &Vec<&WrapperEntry>, action: &str) -> (r: Vec<String>)
    ensures
        views(r@) == values_of(changes@.map_values(|e: &WrapperEntry| e@), action@),
{
    let ghost v = changes@.map_values(|e: &WrapperEntry| e@);
    let mut r: Vec<String> = Vec::new();
    let mut i: usize = 0;
    proof {
        assert(views(r@) =~= values_of(v.take(0), action@));
    }
    while i < changes.len()
        invariant
            i <= changes@.len(),
            v == changes@.map_values(|e: &WrapperEntry| e@),
            views(r@) == values_of(v.take(i as int), action@),
        decreases changes@.len() - i,
    {
        let value: String = changes[i].value.clone();
        proof {
            let t = v.take(i as int + 1);
            assert(t.drop_last() =~= v.take(i as int));
            assert(t.last() == changes@[i as int]@);
            lemma_views_push(r@, value);
        }
        if same_text(&changes[i].action, action) {
            r.push(value);
        }
        i += 1;
    }
    proof {
        assert(v.take(i as int) =~= v);
    }
    r
}

/// What a variable is set to.
fn assign(var: &str, changes: &Vec<&WrapperEntry>) -> (r: Option<String>)
    ensures
        opt_view(r) == assigned(var@, changes@.map_values(|e: &WrapperEntry| e@)),
{
    let ghost v = changes@.map_values(|e: &WrapperEntry| e@);
    let sep: String = if changes.len() > 0 {
        proof {
            assert(v[0] == changes@[0]@);
        }
        changes[0].sep.clone()
    } else {
        ":".to_owned()
    };
    let prefix: Vec<String> = select_values(changes, "prefix");
    let suffix: Vec<String> = select_values(changes, "suffix");
    let set: Vec<String> = select_values(changes, "set");
    let current: String = glue3("${", var, ":-}");
    proof {
        assert(views(prefix@).len() == prefix@.len());
        assert(views(suffix@).len() == suffix@.len());
        assert(views(set@).len() == set@.len());
    }
    if set.len() > 0 {
        let last: &String = &set[set.len() - 1];
        proof {
            assert(views(set@).last() == last@);
        }
        Some(last.clone())
    } else if prefix.len() > 0 && suffix.len() > 0 {
        let head: String = glue3(&join_text(&prefix, &sep), &sep, &current);
        Some(glue3(&head, &sep, &join_text(&suffix, &sep)))
    } else if prefix.len() > 0 {
        Some(glue3(&join_text(&prefix, &sep), &sep, &current))
    } else if suffix.len() > 0 {
        Some(glue3(&current, &sep, &join_text(&suffix, &sep)))
    } else {
        None
    }
}

/// The lines that set variables.
fn write_exports(vars: &Vec<String>, entries: &Vec<WrapperEntry>) -> (r: Vec<String>)
    ensures
        views(r@) == export_lines(views(vars@), entry_views(entries@)),
{
    let ghost v = views(vars@);
    let ghost all = entry_views(entries@);
    let mut r: Vec<String> = Vec::new();
    let mut i: usize = 0;
    proof {
        assert(views(r@) =~= export_lines(v.take(0), all));
    }
    while i < vars.len()
        invariant
            i <= vars@.len(),
            v == views(vars@),
            all == entry_views(entries@),
            views(r@) == export_lines(v.take(i as int), all),
        decreases vars@.len() - i,
    {
        let var: &String = &vars[i];
        proof {
            let t = v.take(i as int + 1);
            assert(t.drop_last() =~= v.take(i as int));
            assert(t.last() == var@);
        }
        match assign(var, &select_changes(entries, var)) {
            Some(value) => {
                let line: String = glue3(&glue3("export ", var, "=\""), &value, "\"");
                proof {
                    lemma_views_push(r@, line);
                }
                r.push(line);
            },
            None => {},
        }
        i += 1;
    }
    proof {
        assert(v.take(i as int) =~= v);
    }
    r
}

/// The script that makes changes to the environment and runs a program.
pub fn write_script(target: &str, entries: &Vec<WrapperEntry>) -> (r: String)
    ensures
        r@ == join(script_lines(target@, entry_views(entries@)), "\n"@),
{
    let ghost all = entry_views(entries@);
    let mut vars: Vec<String> = Vec::new();
    let mut i: usize = 0;
    while i < entries.len()
        invariant
            i <= entries@.len(),
            all == entry_views(entries@),
            views(vars@) == entry_vars(all).take(i as int),
        decreases entries@.len() - i,
    {
        let var: String = entries[i].var.clone();
        proof {
            lemma_views_push(vars@, var);
            assert(entry_vars(all)[i as int] == var@);
            assert(entry_vars(all).take(i as int + 1) =~= entry_vars(all).take(i as int).push(
                var@,
            ));
        }
        vars.push(var);
        i += 1;
    }
    proof {
        assert(entry_vars(all).take(i as int) =~= entry_vars(all));
    }
    let mut exports: Vec<String> = write_exports(&unique(&vars), entries);
    let ghost middle = views(exports@);
    let mut lines: Vec<String> = vec!["#!/bin/sh".to_owned()];
    lines.append(&mut exports);
    lines.push(glue3("exec \"", target, "\" \"$@\""));
    lines.push(String::new());
    proof {
        reveal_strlit("");
        assert(""@ =~= seq![]);
        assert(views(lines@) =~= script_lines(target@, all));
    }
    join_text(&lines, "\n")
}

/// The script for a program and changes to the environment, as they are in a
/// bundle. There is none where there is no program.
pub fn script_in_bundle(
    target: &str,
    entries: &Vec<WrapperEntry>,
    rewrite_map: &Table<String>,
    drop_hashes: &NameSet,
) -> (r: Option<String>)
    requires
        rewrite_map.wf(),
    ensures
        opt_view(r) == script_for(
            target@,
            entry_views(entries@),
            table_pairs(rewrite_map),
            drop_hashes@,
        ),
{
    if target.is_empty() {
        return None;
    }
    // Rewrite the target binary path
    let new_target: String = apply_first(target, &sorted_rewrites(rewrite_map));
    let ghost v = entry_views(entries@);
    let mut relocated_entries: Vec<WrapperEntry> = Vec::new();
    let mut i: usize = 0;
    while i < entries.len()
        invariant
            i <= entries@.len(),
            relocated_entries@.len() == i,
            forall|k: int|
                0 <= k < i ==> (#[trigger] relocated_entries@[k])@ == relocated(
                    entries@[k]@,
                    drop_hashes@,
                ),
        decreases entries@.len() - i,
    {
        relocated_entries.push(relocate_entry(&entries[i], drop_hashes));
        i += 1;
    }
    proof {
        assert(entry_views(relocated_entries@) =~= bundle_entries(v, drop_hashes@));
    }
    Some(write_script(&new_target, &relocated_entries))
}

/// Replace a compiled wrapper ELF with an equivalent shell script: the text of
/// the script. There is none where the wrapper does not describe itself.
pub fn replace_nix_wrapper(
    data: &[u8],
    rewrite_map: &Table<String>,
    drop_hashes: &NameSet,
) -> (r: Option<String>)
    requires
        rewrite_map.wf(),
    ensures
        opt_view(r) == script_for(
            wrapped_target(data@),
            wrapped_entries(data@),
            table_pairs(rewrite_map),
            drop_hashes@,
        ),
{
    let (target, entries): (String, Vec<WrapperEntry>) = parse_wrapper_docstring(data);
    script_in_bundle(&target, &entries, rewrite_map, drop_hashes)
}

} // verus!
