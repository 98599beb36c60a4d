//! Rewriting the paths in text files, desktop files and D-Bus service files.
use vstd::prelude::*;
use vstd::utf8::encode_utf8;

use crate::order::{
    before, by_key, by_size, ints, lemma_by_key, lemma_ranking, lemma_ranking_agrees, picked,
    ranking, sort_positions, total_preorder, SizeKey,
};
use crate::pattern::{
    captures_iter, group, group_text, group_views, match_views, regex_captures_iter,
    regex_is_match, regex_replace_all, replace_all,
};
use crate::table::{NameSet, Table};
use crate::text::{
    contains, ends_with, find_from, from_range, glue, has_infix, join, join_text,
    lemma_find_from, lemma_join_first, lemma_join_of_split, lemma_views_push, line_list, lines,
    occurs_at, opt_view, replace, replace_from, replace_text, same_text, split, split_from,
    starts_with, to_chars, views,
};

verus! {

/// A store path with a hash.
pub const STORE_HASH_PATTERN: &'static str = r"/nix/store/([a-z0-9]{32})-";

/// A directory of programs in the Nix store.
pub const NIX_BIN_PATTERN: &'static str = r"/nix/store/[^/]+/bin/";

/// A directory of programs in the part of the Nix store that is bundled.
pub const APP_BIN_PATTERN: &'static str = r"/app/nix/store/[^/]+/bin/";

// ---------------------------------------------------------------------------
// Which files
// ---------------------------------------------------------------------------

/// What is special about a text file.
#[derive(Clone, Copy, PartialEq, Eq, Structural, Debug)]
pub enum TextKind {
    Desktop,
    DbusService,
    Plain,
}

/// What is special about a text file, by its name and its path.
pub fn text_kind(name: &str, path: &str) -> (r: TextKind)
    ensures
        r == (if ".desktop"@.is_suffix_of(name@) {
            TextKind::Desktop
        } else if ".service"@.is_suffix_of(name@) && has_infix(path@, "dbus"@) {
            TextKind::DbusService
        } else {
            TextKind::Plain
        }),
{
    if ends_with(name, ".desktop") {
        TextKind::Desktop
    } else if ends_with(name, ".service") && contains(path, "dbus") {
        TextKind::DbusService
    } else {
        TextKind::Plain
    }
}

// ---------------------------------------------------------------------------
// Rewrites, longest first
// ---------------------------------------------------------------------------

/// A path, and what is to stand in its place.
pub struct Pair {
    pub from: String,
    pub to: String,
}

pub open spec fn pair_views(list: Seq<Pair>) -> Seq<(Seq<char>, Seq<char>)> {
    list.map_values(|p: Pair| (p.from@, p.to@))
}

/// What a table rewrites to what, in the order of its keys.
pub open spec fn table_pairs(t: &Table<String>) -> Seq<(Seq<char>, Seq<char>)> {
    Seq::new(t.key_list().len(), |i: int| (t.key_list()[i], t.value_list()[i]@))
}

/// How many bytes the paths of pairs have.
pub open spec fn from_sizes(pairs: Seq<(Seq<char>, Seq<char>)>) -> Seq<nat> {
    pairs.map_values(|p: (Seq<char>, Seq<char>)| encode_utf8(p.0).len())
}

/// Pairs with the longest paths first. Pairs with paths of one length stay in
/// order.
pub open spec fn longest_first(pairs: Seq<(Seq<char>, Seq<char>)>) -> Seq<
    (Seq<char>, Seq<char>),
> {
    picked(pairs, ranking(by_size(from_sizes(pairs)), pairs.len()))
}

pub proof fn lemma_by_size(sizes: Seq<nat>)
    ensures
        total_preorder(by_size(sizes), sizes.len() as int),
{
}

/// Putting the longest paths first keeps each pair, and no pair comes behind one
/// with a shorter path.
pub proof fn law_longest_first(pairs: Seq<(Seq<char>, Seq<char>)>)
    ensures
        longest_first(pairs).len() == pairs.len(),
        forall|p: (Seq<char>, Seq<char>)| #[trigger]
            longest_first(pairs).contains(p) <==> pairs.contains(p),
        forall|i: int, j: int|
            0 <= i < j < longest_first(pairs).len() ==> encode_utf8(
                (#[trigger] longest_first(pairs)[i]).0,
            ).len() >= encode_utf8((#[trigger] longest_first(pairs)[j]).0).len(),
{
    let sizes = from_sizes(pairs);
    let le = by_size(sizes);
    let rank = ranking(le, pairs.len());
    let all = longest_first(pairs);
    lemma_by_size(sizes);
    lemma_ranking(le, pairs.len());
    assert forall|p: (Seq<char>, Seq<char>)| #[trigger] all.contains(p) <==> pairs.contains(p) by {
        if all.contains(p) {
            let k = all.index_of(p);
            assert(rank.contains(rank[k]));
            assert(pairs[rank[k]] == p);
        }
        if pairs.contains(p) {
            let k = pairs.index_of(p);
            assert(rank.contains(k));
            assert(all[rank.index_of(k)] == p);
        }
    }
    assert forall|i: int, j: int| 0 <= i < j < all.len() implies encode_utf8(
        (#[trigger] all[i]).0,
    ).len() >= encode_utf8((#[trigger] all[j]).0).len() by {
        assert(before(le, rank[i], rank[j]));
        assert(rank.contains(rank[i]) && rank.contains(rank[j]));
        assert(sizes[rank[i]] >= sizes[rank[j]]);
    }
}

/// The rewrites of a table with the longest paths first.
pub fn sorted_rewrites(table: &Table<String>) -> (r: Vec<Pair>)
    requires
        table.wf(),
    ensures
        pair_views(r@) == longest_first(table_pairs(table)),
{
    let ghost pairs = table_pairs(table);
    let ghost sizes = from_sizes(pairs);
    let n: usize = table.len();
    let mut keys: Vec<SizeKey> = Vec::new();
    let mut i: usize = 0;
    while i < n
        invariant
            i <= n,
            table.wf(),
            n == table.key_list().len(),
            pairs == table_pairs(table),
            sizes == from_sizes(pairs),
            keys@.len() == i,
            forall|k: int| 0 <= k < i ==> (#[trigger] keys@[k]).size == sizes[k],
        decreases n - i,
    {
        let bytes: &[u8] = table.key(i).as_str().as_bytes();
        keys.push(SizeKey { size: bytes.len() });
        i += 1;
    }
    let at: Vec<usize> = sort_positions(&keys);
    let ghost rank = ranking(by_size(sizes), pairs.len());
    proof {
        lemma_by_key(keys@);
        lemma_ranking_agrees(by_key(keys@), by_size(sizes), pairs.len());
    }
    let mut r: Vec<Pair> = Vec::new();
    i = 0;
    while i < at.len()
        invariant
            i <= at@.len(),
            table.wf(),
            n == table.key_list().len(),
            pairs == table_pairs(table),
            ints(at@) == rank,
            forall|k: int| 0 <= k < at@.len() ==> (#[trigger] at@[k]) < n,
            r@.len() == i,
            forall|k: int|
                0 <= k < i ==> ((#[trigger] r@[k]).from@, r@[k].to@) == pairs[rank[k]],
        decreases at@.len() - i,
    {
        let k: usize = at[i];
        proof {
            assert(ints(at@)[i as int] == k);
            table.lemma_wf();
        }
        r.push(Pair { from: table.key(k).clone(), to: table.value(k).clone() });
        i += 1;
    }
    proof {
        assert(pair_views(r@) =~= longest_first(pairs));
    }
    r
}

// ---------------------------------------------------------------------------
// Text files
// ---------------------------------------------------------------------------

/// A text with rewrites applied, one after the other.
pub open spec fn applied(content: Seq<char>, pairs: Seq<(Seq<char>, Seq<char>)>) -> Seq<char>
    decreases pairs.len(),
{
    if pairs.len() == 0 {
        content
    } else {
        replace(applied(content, pairs.drop_last()), pairs.last().0, pairs.last().1)
    }
}

/// The text of a file with rewrites applied, where it mentions the Nix store. The
/// longest paths are rewritten first.
pub open spec fn text_rewritten(content: Seq<char>, pairs: Seq<(Seq<char>, Seq<char>)>) -> Seq<
    char,
> {
    if has_infix(content, "/nix/store/"@) {
        applied(content, longest_first(pairs))
    } else {
        content
    }
}

/// A text, where it differs from another.
pub open spec fn if_changed(new: Seq<char>, old: Seq<char>) -> Option<Seq<char>> {
    if new == old {
        None
    } else {
        Some(new)
    }
}

proof fn lemma_replace_absent(s: Seq<char>, from: Seq<char>, to: Seq<char>)
    requires
        from.len() > 0,
        !has_infix(s, from),
    ensures
        replace(s, from, to) == s,
{
    lemma_find_from(s, from, 0);
    assert(find_from(s, from, 0) is None) by {
        if find_from(s, from, 0) is Some {
            assert(occurs_at(s, from, find_from(s, from, 0)->Some_0));
        }
    }
    assert(s.subrange(0, s.len() as int) =~= s);
}

proof fn lemma_replace_from_joins(s: Seq<char>, from: Seq<char>, to: Seq<char>, i: int)
    requires
        from.len() > 0,
        0 <= i <= s.len(),
    ensures
        split_from(s, from, i).len() > 0,
        replace_from(s, from, to, i) == join(split_from(s, from, i), to),
    decreases s.len() - i,
{
    lemma_find_from(s, from, i);
    match find_from(s, from, i) {
        Some(j) => {
            let k = j + from.len();
            lemma_replace_from_joins(s, from, to, k);
            lemma_join_first(s.subrange(i, j), split_from(s, from, k), to);
        },
        None => {},
    }
}

/// A rewrite puts the new path in place of each occurrence of the old one, and
/// leaves what stands between them as it is.
pub proof fn law_rewrite_replaces_each(s: Seq<char>, from: Seq<char>, to: Seq<char>)
    requires
        from.len() > 0,
    ensures
        replace(s, from, to) == join(split(s, from), to),
        s == join(split(s, from), from),
{
    lemma_replace_from_joins(s, from, to, 0);
    lemma_join_of_split(s, from);
}

/// Rewrites of paths that do not stand in a text leave it as it is.
pub proof fn law_other_texts_stay(content: Seq<char>, pairs: Seq<(Seq<char>, Seq<char>)>)
    requires
        forall|i: int|
            0 <= i < pairs.len() ==> (#[trigger] pairs[i]).0.len() > 0 && !has_infix(
                content,
                pairs[i].0,
            ),
    ensures
        applied(content, pairs) == content,
    decreases pairs.len(),
{
    if pairs.len() > 0 {
        let rest = pairs.drop_last();
        assert forall|i: int| 0 <= i < rest.len() implies (#[trigger] rest[i]).0.len() > 0
            && !has_infix(content, rest[i].0) by {
            assert(pairs[i] == rest[i]);
        }
        law_other_texts_stay(content, rest);
        assert(pairs[pairs.len() - 1] == pairs.last());
        lemma_replace_absent(content, pairs.last().0, pairs.last().1);
    }
}

proof fn lemma_pair_absent(content: Seq<char>, pairs: Seq<(Seq<char>, Seq<char>)>)
    requires
        forall|i: int|
            0 <= i < pairs.len() ==> (#[trigger] pairs[i]).0.len() > 0 && !has_infix(
                content,
                pairs[i].0,
            ),
    ensures
        applied(content, longest_first(pairs)) == content,
{
    law_longest_first(pairs);
    let all = longest_first(pairs);
    assert forall|i: int| 0 <= i < all.len() implies (#[trigger] all[i]).0.len() > 0 && !has_infix(
        content,
        all[i].0,
    ) by {
        assert(all.contains(all[i]));
        let k = pairs.index_of(all[i]);
        assert(pairs[k] == all[i]);
    }
    law_other_texts_stay(content, all);
}

/// A text file that holds none of the rewritten paths is left as it is.
pub proof fn law_files_without_paths_stay(content: Seq<char>, pairs: Seq<(Seq<char>, Seq<char>)>)
    requires
        forall|i: int|
            0 <= i < pairs.len() ==> (#[trigger] pairs[i]).0.len() > 0 && !has_infix(
                content,
                pairs[i].0,
            ),
    ensures
        if_changed(text_rewritten(content, pairs), content) is None,
{
    lemma_pair_absent(content, pairs);
}

/// The text of a file with the rewrites of a table applied.
pub fn rewrite_text(content: &str, table: &Table<String>) -> (r: String)
    requires
        table.wf(),
    ensures
        r@ == text_rewritten(content@, table_pairs(table)),
{
    if !contains(content, "/nix/store/") {
        return content.to_owned();
    }
    // Longest match first
    let pairs: Vec<Pair> = sorted_rewrites(table);
    let ghost v = pair_views(pairs@);
    let mut r: String = content.to_owned();
    let mut i: usize = 0;
    while i < pairs.len()
        invariant
            i <= pairs@.len(),
            v == pair_views(pairs@),
            r@ == applied(content@, v.take(i as int)),
        decreases pairs@.len() - i,
    {
        proof {
            let t = v.take(i as int + 1);
            assert(t.drop_last() =~= v.take(i as int));
            assert(t.last() == (pairs@[i as int].from@, pairs@[i as int].to@));
        }
        r = replace_text(&r, &pairs[i].from, &pairs[i].to);
        i += 1;
    }
    proof {
        assert(v.take(i as int) =~= v);
    }
    r
}

/// The text to write to a file, where it changes.
pub fn rewrite_text_file(content: &str, table: &Table<String>) -> (r: Option<String>)
    requires
        table.wf(),
    ensures
        opt_view(r) == if_changed(text_rewritten(content@, table_pairs(table)), content@),
{
    let new: String = rewrite_text(content, table);
    if same_text(&new, content) {
        None
    } else {
        Some(new)
    }
}

/// The hashes among matches that are of dropped store paths.
pub open spec fn dropped_among(
    matches: Seq<Seq<Option<Seq<char>>>>,
    drop_hashes: Set<Seq<char>>,
) -> Seq<Seq<char>>
    decreases matches.len(),
{
    if matches.len() == 0 {
        seq![]
    } else {
        let before = dropped_among(matches.drop_last(), drop_hashes);
        let hash = group_text(matches.last(), 1);
        if drop_hashes.contains(hash) {
            before.push(hash)
        } else {
            before
        }
    }
}

/// The hashes among matches that are of dropped store paths.
pub fn select_dropped(matches: &Vec<Vec<Option<String>>>, drop_hashes: &NameSet) -> (r: Vec<String>)
    ensures
        views(r@) == dropped_among(match_views(matches@), drop_hashes@),
{
    let ghost v = match_views(matches@);
    let mut r: Vec<String> = Vec::new();
    let mut i: usize = 0;
    proof {
        assert(views(r@) =~= dropped_among(v.take(0), drop_hashes@));
    }
    while i < matches.len()
        invariant
            i <= matches@.len(),
            v == match_views(matches@),
            views(r@) == dropped_among(v.take(i as int), drop_hashes@),
        decreases matches@.len() - i,
    {
        let hash: String = group(&matches[i], 1);
        proof {
            let t = v.take(i as int + 1);
            assert(t.drop_last() =~= v.take(i as int));
            assert(t.last() == group_views(matches@[i as int]@));
            lemma_views_push(r@, hash);
        }
        if drop_hashes.contains(&hash) {
            r.push(hash);
        }
        i += 1;
    }
    proof {
        assert(v.take(i as int) =~= v);
    }
    r
}

/// The hashes of dropped store paths that a text still mentions.
pub fn remaining_references(content: &str, drop_hashes: &NameSet) -> (r: Vec<String>)
    ensures
        views(r@) == dropped_among(
            regex_captures_iter(STORE_HASH_PATTERN@, content@),
            drop_hashes@,
        ),
{
    select_dropped(&captures_iter(STORE_HASH_PATTERN, content), drop_hashes)
}

// ---------------------------------------------------------------------------
// Desktop / D-Bus files
// ---------------------------------------------------------------------------

/// A command with `to` in place of each directory of programs in the Nix store, and
/// then of each such directory below `/app` that is left.
pub open spec fn clean_command(command: Seq<char>, to: Seq<char>) -> Seq<char> {
    regex_replace_all(
        APP_BIN_PATTERN@,
        regex_replace_all(NIX_BIN_PATTERN@, command, to),
        to,
    )
}

/// The key of a line that has a command: what stands before the command.
pub open spec fn command_key(line: Seq<char>, with_try: bool) -> Option<Seq<char>> {
    if "Exec="@.is_prefix_of(line) {
        Some("Exec="@)
    } else if with_try && "TryExec="@.is_prefix_of(line) {
        Some("TryExec="@)
    } else {
        None
    }
}

/// A line with another command. A line without a command stays.
pub open spec fn with_command(line: Seq<char>, with_try: bool, command: Seq<char>) -> Seq<char> {
    match command_key(line, with_try) {
        Some(key) => key + command,
        None => line,
    }
}

/// The command of a line. A line without one has an empty command.
pub open spec fn command_of(line: Seq<char>, with_try: bool) -> Seq<char> {
    match command_key(line, with_try) {
        Some(key) => line.skip(key.len() as int),
        None => seq![],
    }
}

/// A line with its command cleaned.
pub open spec fn clean_line(line: Seq<char>, with_try: bool, to: Seq<char>) -> Seq<char> {
    with_command(line, with_try, clean_command(command_of(line, with_try), to))
}

/// The lines of a file with their commands cleaned.
pub open spec fn clean_lines(content: Seq<char>, with_try: bool, to: Seq<char>) -> Seq<Seq<char>> {
    line_list(content).map_values(|line: Seq<char>| clean_line(line, with_try, to))
}

/// A line whose command names no directory of programs in the Nix store.
pub open spec fn is_clean(line: Seq<char>, with_try: bool) -> bool {
    let command = command_of(line, with_try);
    !regex_is_match(NIX_BIN_PATTERN@, command) && !regex_is_match(APP_BIN_PATTERN@, command)
}

/// All lines of a file are clean.
pub open spec fn all_clean(content: Seq<char>, with_try: bool) -> bool {
    forall|i: int|
        0 <= i < line_list(content).len() ==> is_clean(#[trigger] line_list(content)[i], with_try)
}

/// Lines without a command stay as they are.
pub proof fn law_other_lines_stay(line: Seq<char>, with_try: bool, to: Seq<char>)
    requires
        !"Exec="@.is_prefix_of(line),
        !"TryExec="@.is_prefix_of(line),
    ensures
        clean_line(line, with_try, to) == line,
{
}

/// The command of a line.
pub fn line_command(line: &str, with_try: bool) -> (r: String)
    ensures
        r@ == command_of(line@, with_try),
{
    let key: &str = if starts_with(line, "Exec=") {
        "Exec="
    } else if with_try && starts_with(line, "TryExec=") {
        "TryExec="
    } else {
        return String::new();
    };
    let chars: Vec<char> = to_chars(line);
    let skip: usize = to_chars(key).len();
    proof {
        assert(chars@.subrange(skip as int, chars@.len() as int) =~= line@.skip(skip as int));
    }
    from_range(&chars, skip, chars.len())
}

/// A line with another command.
pub fn replace_command(line: &str, with_try: bool, command: &str) -> (r: String)
    ensures
        r@ == with_command(line@, with_try, command@),
{
    if starts_with(line, "Exec=") {
        glue("Exec=", command)
    } else if with_try && starts_with(line, "TryExec=") {
        glue("TryExec=", command)
    } else {
        line.to_owned()
    }
}

/// The lines as the text to write to a file, where it changes.
pub fn rejoin_lines(original: &str, lines: &Vec<String>) -> (r: Option<String>)
    ensures
        opt_view(r) == if_changed(join(views(lines@), "\n"@), original@),
{
    let new: String = join_text(lines, "\n");
    if same_text(&new, original) {
        None
    } else {
        Some(new)
    }
}

proof fn lemma_same_command(line: Seq<char>, with_try: bool)
    ensures
        with_command(line, with_try, command_of(line, with_try)) == line,
{
    match command_key(line, with_try) {
        Some(key) => {
            assert(key + line.skip(key.len() as int) =~= line);
        },
        None => {},
    }
}

/// The lines of a file with their commands cleaned. Clean lines stay.
fn rewrite_commands(content: &str, with_try: bool, to: &str) -> (r: Vec<String>)
    ensures
        views(r@) == clean_lines(content@, with_try, to@),
        all_clean(content@, with_try) ==> views(r@) == line_list(content@),
{
    let all: Vec<String> = lines(content);
    let ghost v = line_list(content@);
    let ghost f = |line: Seq<char>| clean_line(line, with_try, to@);
    let mut r: Vec<String> = Vec::new();
    let mut i: usize = 0;
    while i < all.len()
        invariant
            i <= all@.len(),
            v == views(all@),
            f == (|line: Seq<char>| clean_line(line, with_try, to@)),
            v == line_list(content@),
            views(r@) == v.take(i as int).map_values(f),
            all_clean(content@, with_try) ==> views(r@) == v.take(i as int),
        decreases all@.len() - i,
    {
        let line: &String = &all[i];
        let command: String = line_command(line, with_try);
        let cleaned: String = replace_all(NIX_BIN_PATTERN, &command, to);
        let cleaned: String = replace_all(APP_BIN_PATTERN, &cleaned, to);
        let new: String = replace_command(line, with_try, &cleaned);
        proof {
            if all_clean(content@, with_try) {
                assert(is_clean(v[i as int], with_try));
                assert(cleaned@ == command@);
                lemma_same_command(line@, with_try);
                assert(v.take(i as int + 1) =~= v.take(i as int).push(v[i as int]));
            }
            lemma_views_push(r@, new);
            assert(v[i as int] == line@);
            assert(v.take(i as int + 1).map_values(f) =~= v.take(i as int).map_values(f).push(
                f(v[i as int]),
            ));
        }
        r.push(new);
        i += 1;
    }
    proof {
        assert(v.take(i as int) =~= v);
    }
    r
}

/// The text to write to a desktop file, where it changes. From commands each
/// directory of programs in the Nix store is taken out first, and then each such
/// directory below `/app` that is left. The first step finds the directory in
/// `/app/nix/store/x/bin/foo` too, and leaves `/appfoo`.
pub fn rewrite_desktop_file(content: &str) -> (r: Option<String>)
    ensures
        opt_view(r) == if_changed(join(clean_lines(content@, true, ""@), "\n"@), content@),
        all_clean(content@, true) ==> opt_view(r) == if_changed(
            join(line_list(content@), "\n"@),
            content@,
        ),
{
    rejoin_lines(content, &rewrite_commands(content, true, ""))
}

/// The text to write to a D-Bus service file, where it changes. In commands
/// `/app/bin/` takes the place of each directory of programs in the Nix store first,
/// and then of each such directory below `/app` that is left. The first step finds
/// the directory in `/app/nix/store/x/bin/foo` too, and leaves `/app/app/bin/foo`.
pub fn rewrite_dbus_service(content: &str) -> (r: Option<String>)
    ensures
        opt_view(r) == if_changed(
            join(clean_lines(content@, false, "/app/bin/"@), "\n"@),
            content@,
        ),
        all_clean(content@, false) ==> opt_view(r) == if_changed(
            join(line_list(content@), "\n"@),
            content@,
        ),
{
    rejoin_lines(content, &rewrite_commands(content, false, "/app/bin/"))
}

} // verus!
