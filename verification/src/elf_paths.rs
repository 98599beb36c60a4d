//! The paths that an ELF file carries: its interpreter, and where it looks for
//! libraries.
use vstd::prelude::*;

use crate::order::{distinct, lemma_distinct, lemma_distinct_more, lemma_distinct_same, unique};
use crate::orphans::drop_paths;
use crate::plan::PlanView;
use crate::plan_json::{hashes_of, law_plan_round_trip, listed, plan_json, store_paths_in};
use crate::store::{before_first, hash_of, law_hash_of_store_path, lemma_before_first};
use crate::table::NameSet;
use crate::text::{
    contains, from_range, glue, glue3, has_infix, join, join_text, lemma_join_of_split,
    lemma_split_of_join, lemma_split_pieces, lemma_views_push, opt_view, same_text, split,
    split_text, starts_with, to_chars, trim, trimmed, views,
};

verus! {

// ---------------------------------------------------------------------------
// Interpreter
// ---------------------------------------------------------------------------

/// The directory of the libraries of a runtime.
pub open spec fn runtime_lib(arch_triplet: Seq<char>) -> Seq<char> {
    "/usr/lib/"@ + arch_triplet
}

/// The interpreter to set, where the one that was printed is in the Nix store.
pub open spec fn interpreter_for(printed: Seq<char>, arch_triplet: Seq<char>) -> Option<Seq<char>> {
    if has_infix(trimmed(printed), "/nix/store/"@) {
        let name = if has_infix(arch_triplet, "aarch64"@) {
            "ld-linux-aarch64.so.1"@
        } else {
            "ld-linux-x86-64.so.2"@
        };
        Some(runtime_lib(arch_triplet) + "/"@ + name)
    } else {
        None
    }
}

/// The interpreter to set in place of the one that was printed.
pub fn new_interpreter(printed: &str, arch_triplet: &str) -> (r: Option<String>)
    ensures
        opt_view(r) == interpreter_for(printed@, arch_triplet@),
{
    let interp: String = trim(printed);
    if !contains(&interp, "/nix/store/") {
        return None;
    }
    let ld_name: &str = if contains(arch_triplet, "aarch64") {
        "ld-linux-aarch64.so.1"
    } else {
        "ld-linux-x86-64.so.2"
    };
    Some(glue3(&glue("/usr/lib/", arch_triplet), "/", ld_name))
}

// ---------------------------------------------------------------------------
// RPATH
// ---------------------------------------------------------------------------

/// The hash in a path below `/nix/store/`.
pub open spec fn entry_hash(entry: Seq<char>) -> Seq<char> {
    before_first(before_first(entry.skip("/nix/store/"@.len() as int), '/'), '-')
}

/// Where a library directory is in a bundle: those in dropped store paths are in
/// the runtime, those in other store paths below `/app`.
pub open spec fn rpath_entry(
    entry: Seq<char>,
    drop_hashes: Set<Seq<char>>,
    arch_triplet: Seq<char>,
) -> Seq<char> {
    if "/nix/store/"@.is_prefix_of(entry) {
        if drop_hashes.contains(entry_hash(entry)) {
            runtime_lib(arch_triplet)
        } else {
            "/app"@ + entry
        }
    } else {
        entry
    }
}

/// The entries for the pieces of an RPATH. Empty pieces are left out.
pub open spec fn mapped_entries(
    pieces: Seq<Seq<char>>,
    drop_hashes: Set<Seq<char>>,
    arch_triplet: Seq<char>,
) -> Seq<Seq<char>>
    decreases pieces.len(),
{
    if pieces.len() == 0 {
        seq![]
    } else {
        let before = mapped_entries(pieces.drop_last(), drop_hashes, arch_triplet);
        if pieces.last().len() == 0 {
            before
        } else {
            before.push(rpath_entry(pieces.last(), drop_hashes, arch_triplet))
        }
    }
}

/// The entries of the RPATH in a bundle: those for the old ones, then the library
/// directories of the runtime and of the application, each once.
pub open spec fn rpath_entries(
    old: Seq<char>,
    drop_hashes: Set<Seq<char>>,
    arch_triplet: Seq<char>,
) -> Seq<Seq<char>> {
    distinct(
        mapped_entries(split(old, ":"@), drop_hashes, arch_triplet).push(
            runtime_lib(arch_triplet),
        ).push("/app/lib"@),
    )
}

/// The RPATH to set, where the one that was printed is not empty and differs.
pub open spec fn rpath_for(
    printed: Seq<char>,
    drop_hashes: Set<Seq<char>>,
    arch_triplet: Seq<char>,
) -> Option<Seq<char>> {
    let old = trimmed(printed);
    let new = join(rpath_entries(old, drop_hashes, arch_triplet), ":"@);
    if old.len() == 0 || new == old {
        None
    } else {
        Some(new)
    }
}

proof fn lemma_outside_store(s: Seq<char>)
    ensures
        !"/nix/store/"@.is_prefix_of("/app"@ + s),
        !"/nix/store/"@.is_prefix_of("/usr/lib/"@ + s),
        !"/nix/store/"@.is_prefix_of("/app/lib"@),
{
    reveal_strlit("/nix/store/");
    reveal_strlit("/app");
    reveal_strlit("/usr/lib/");
    reveal_strlit("/app/lib");
    assert(("/app"@ + s)[1] == 'a');
    assert(("/usr/lib/"@ + s)[1] == 'u');
    assert("/app/lib"@[1] == 'a');
    assert("/nix/store/"@[1] == 'n');
}

proof fn lemma_mapped_outside_store(
    pieces: Seq<Seq<char>>,
    drop_hashes: Set<Seq<char>>,
    arch_triplet: Seq<char>,
)
    ensures
        forall|i: int|
            0 <= i < mapped_entries(pieces, drop_hashes, arch_triplet).len()
                ==> !"/nix/store/"@.is_prefix_of(
                #[trigger] mapped_entries(pieces, drop_hashes, arch_triplet)[i],
            ),
    decreases pieces.len(),
{
    if pieces.len() > 0 {
        lemma_mapped_outside_store(pieces.drop_last(), drop_hashes, arch_triplet);
        lemma_outside_store(arch_triplet);
        lemma_outside_store(pieces.last());
        let before = mapped_entries(pieces.drop_last(), drop_hashes, arch_triplet);
        let all = mapped_entries(pieces, drop_hashes, arch_triplet);
        assert forall|i: int| 0 <= i < all.len() implies !"/nix/store/"@.is_prefix_of(
            #[trigger] all[i],
        ) by {
            if i < before.len() {
                assert(all[i] == before[i]);
            }
        }
    }
}

/// The entries of an RPATH in a bundle are distinct, none is in the Nix store, and
/// the library directories of the runtime and of the application are among them.
pub proof fn law_rpath_entries(
    old: Seq<char>,
    drop_hashes: Set<Seq<char>>,
    arch_triplet: Seq<char>,
)
    ensures
        rpath_entries(old, drop_hashes, arch_triplet).no_duplicates(),
        rpath_entries(old, drop_hashes, arch_triplet).contains(runtime_lib(arch_triplet)),
        rpath_entries(old, drop_hashes, arch_triplet).contains("/app/lib"@),
        forall|i: int|
            0 <= i < rpath_entries(old, drop_hashes, arch_triplet).len()
                ==> !"/nix/store/"@.is_prefix_of(
                #[trigger] rpath_entries(old, drop_hashes, arch_triplet)[i],
            ),
{
    let mapped = mapped_entries(split(old, ":"@), drop_hashes, arch_triplet);
    let all = mapped.push(runtime_lib(arch_triplet)).push("/app/lib"@);
    let d = distinct(all);
    lemma_distinct(all);
    lemma_mapped_outside_store(split(old, ":"@), drop_hashes, arch_triplet);
    lemma_outside_store(arch_triplet);
    assert(all[mapped.len() as int] == runtime_lib(arch_triplet));
    assert(all[mapped.len() as int + 1] == "/app/lib"@);
    assert(all.contains(runtime_lib(arch_triplet)));
    assert(all.contains("/app/lib"@));
    assert forall|i: int| 0 <= i < d.len() implies !"/nix/store/"@.is_prefix_of(
        #[trigger] d[i],
    ) by {
        assert(d.contains(d[i]));
        let k = all.index_of(d[i]);
        assert(all[k] == d[i]);
        if k < mapped.len() {
            assert(mapped[k] == d[i]);
        }
    }
}

/// A library directory in a store path carries the hash of that store path.
pub proof fn law_library_dir_hash(hash: Seq<char>, name: Seq<char>, dir: Seq<char>)
    requires
        !hash.contains('-'),
        !hash.contains('/'),
        !name.contains('/'),
    ensures
        entry_hash("/nix/store/"@ + hash + seq!['-'] + name + seq!['/'] + dir) == hash_of(
            "/nix/store/"@ + hash + seq!['-'] + name,
        ),
        entry_hash("/nix/store/"@ + hash + seq!['-'] + name + seq!['/'] + dir) == hash,
{
    let store = "/nix/store/"@;
    let base = hash + seq!['-'] + name;
    let rest = base + seq!['/'] + dir;
    let entry = store + hash + seq!['-'] + name + seq!['/'] + dir;
    law_hash_of_store_path(hash, name);
    assert(entry.skip(store.len() as int) =~= rest);
    assert forall|i: int| 0 <= i < base.len() implies rest[i] != '/' by {
        assert(rest[i] == base[i]);
        if i < hash.len() {
            assert(hash.contains(hash[i]));
        } else if i > hash.len() {
            assert(name.contains(name[i - hash.len() - 1]));
        }
    }
    lemma_before_first(rest, '/', base.len() as int);
    assert(rest.take(base.len() as int) =~= base);
    assert forall|i: int| 0 <= i < hash.len() implies base[i] != '-' by {
        assert(hash.contains(hash[i]));
    }
    lemma_before_first(base, '-', hash.len() as int);
    assert(base.take(hash.len() as int) =~= hash);
}

/// Library directories follow the plan: those in store paths that it drops are in
/// the runtime, and those in store paths with another hash are below `/app`.
pub proof fn law_library_dirs_follow_the_plan(
    p: PlanView,
    hash: Seq<char>,
    name: Seq<char>,
    dir: Seq<char>,
    arch_triplet: Seq<char>,
)
    requires
        !hash.contains('-'),
        !hash.contains('/'),
        !name.contains('/'),
    ensures
        ({
            let path = "/nix/store/"@ + hash + seq!['-'] + name;
            let entry = path + seq!['/'] + dir;
            let dropped = drop_paths(p.lists.drop);
            let drop_hashes = hashes_of(store_paths_in(listed(plan_json(p), "drop"@)));
            &&& dropped.contains(path) ==> rpath_entry(entry, drop_hashes, arch_triplet)
                == runtime_lib(arch_triplet)
            &&& (forall|i: int| 0 <= i < dropped.len() ==> hash_of(#[trigger] dropped[i]) != hash)
                ==> rpath_entry(entry, drop_hashes, arch_triplet) == "/app"@ + entry
        }),
{
    let path = "/nix/store/"@ + hash + seq!['-'] + name;
    let entry = path + seq!['/'] + dir;
    let dropped = drop_paths(p.lists.drop);
    let hashes = dropped.map_values(|path: Seq<char>| hash_of(path));
    law_plan_round_trip(p);
    law_library_dir_hash(hash, name, dir);
    assert("/nix/store/"@.is_prefix_of(entry)) by {
        assert(entry.subrange(0, "/nix/store/"@.len() as int) =~= "/nix/store/"@);
    }
    if dropped.contains(path) {
        let k = dropped.index_of(path);
        assert(hashes[k] == hash);
    }
    if forall|i: int| 0 <= i < dropped.len() ==> hash_of(#[trigger] dropped[i]) != hash {
        if hashes.contains(hash) {
            let k = hashes.index_of(hash);
            assert(hash_of(dropped[k]) == hash);
        }
    }
}

/// Entries that are not empty and outside the Nix store stay.
proof fn lemma_mapped_same(
    pieces: Seq<Seq<char>>,
    drop_hashes: Set<Seq<char>>,
    arch_triplet: Seq<char>,
)
    requires
        forall|i: int|
            0 <= i < pieces.len() ==> (#[trigger] pieces[i]).len() > 0
                && !"/nix/store/"@.is_prefix_of(pieces[i]),
    ensures
        mapped_entries(pieces, drop_hashes, arch_triplet) == pieces,
    decreases pieces.len(),
{
    if pieces.len() > 0 {
        let rest = pieces.drop_last();
        assert forall|i: int| 0 <= i < rest.len() implies (#[trigger] rest[i]).len() > 0
            && !"/nix/store/"@.is_prefix_of(rest[i]) by {
            assert(pieces[i] == rest[i]);
        }
        lemma_mapped_same(rest, drop_hashes, arch_triplet);
        assert(pieces[pieces.len() - 1] == pieces.last());
        assert(rest.push(pieces.last()) =~= pieces);
    } else {
        assert(mapped_entries(pieces, drop_hashes, arch_triplet) =~= pieces);
    }
}

proof fn lemma_mapped_pieces(
    pieces: Seq<Seq<char>>,
    drop_hashes: Set<Seq<char>>,
    arch_triplet: Seq<char>,
)
    requires
        !arch_triplet.contains(':'),
        forall|i: int| 0 <= i < pieces.len() ==> !(#[trigger] pieces[i]).contains(':'),
    ensures
        forall|i: int|
            0 <= i < mapped_entries(pieces, drop_hashes, arch_triplet).len() ==> (
            #[trigger] mapped_entries(pieces, drop_hashes, arch_triplet)[i]).len() > 0
                && !mapped_entries(pieces, drop_hashes, arch_triplet)[i].contains(':'),
    decreases pieces.len(),
{
    if pieces.len() > 0 {
        let rest = pieces.drop_last();
        assert forall|i: int| 0 <= i < rest.len() implies !(#[trigger] rest[i]).contains(':') by {
            assert(pieces[i] == rest[i]);
        }
        lemma_mapped_pieces(rest, drop_hashes, arch_triplet);
        let before = mapped_entries(rest, drop_hashes, arch_triplet);
        let all = mapped_entries(pieces, drop_hashes, arch_triplet);
        let piece = pieces[pieces.len() - 1];
        assert(!piece.contains(':'));
        lemma_no_colon(piece, arch_triplet);
        assert forall|i: int| 0 <= i < all.len() implies (#[trigger] all[i]).len() > 0
            && !all[i].contains(':') by {
            if i < before.len() {
                assert(all[i] == before[i]);
            }
        }
    }
}

proof fn lemma_no_colon(piece: Seq<char>, arch_triplet: Seq<char>)
    requires
        !arch_triplet.contains(':'),
        !piece.contains(':'),
    ensures
        ("/app"@ + piece).len() > 0,
        !("/app"@ + piece).contains(':'),
        runtime_lib(arch_triplet).len() > 0,
        !runtime_lib(arch_triplet).contains(':'),
        "/app/lib"@.len() > 0,
        !"/app/lib"@.contains(':'),
{
    reveal_strlit("/app");
    reveal_strlit("/usr/lib/");
    reveal_strlit("/app/lib");
    let a = "/app"@ + piece;
    let b = runtime_lib(arch_triplet);
    assert(!a.contains(':')) by {
        if a.contains(':') {
            let k = a.index_of(':');
            if k >= 4 {
                assert(piece[k - 4] == ':');
            } else {
                assert("/app"@[k] == ':');
            }
        }
    }
    assert(!b.contains(':')) by {
        if b.contains(':') {
            let k = b.index_of(':');
            if k >= 9 {
                assert(arch_triplet[k - 9] == ':');
            } else {
                assert("/usr/lib/"@[k] == ':');
            }
        }
    }
    assert(!"/app/lib"@.contains(':')) by {
        if "/app/lib"@.contains(':') {
            let k = "/app/lib"@.index_of(':');
            assert("/app/lib"@[k] == ':');
        }
    }
}

/// An RPATH that is as a bundle needs it: its entries are distinct, none is empty or
/// in the Nix store, and the library directories of the runtime and of the
/// application are among them.
pub open spec fn settled(rpath: Seq<char>, arch_triplet: Seq<char>) -> bool {
    let pieces = split(rpath, ":"@);
    &&& pieces.no_duplicates()
    &&& forall|i: int|
        0 <= i < pieces.len() ==> (#[trigger] pieces[i]).len() > 0 && !"/nix/store/"@.is_prefix_of(
            pieces[i],
        )
    &&& pieces.contains(runtime_lib(arch_triplet))
    &&& pieces.contains("/app/lib"@)
}

/// The entries of an RPATH are the pieces of its text.
pub proof fn lemma_entries_are_pieces(
    old: Seq<char>,
    drop_hashes: Set<Seq<char>>,
    arch_triplet: Seq<char>,
)
    requires
        !arch_triplet.contains(':'),
    ensures
        split(join(rpath_entries(old, drop_hashes, arch_triplet), ":"@), ":"@) == rpath_entries(
            old,
            drop_hashes,
            arch_triplet,
        ),
        settled(join(rpath_entries(old, drop_hashes, arch_triplet), ":"@), arch_triplet),
{
    reveal_strlit(":");
    assert(":"@ =~= seq![':']);
    let pieces = split(old, ":"@);
    let runtime = runtime_lib(arch_triplet);
    let mapped = mapped_entries(pieces, drop_hashes, arch_triplet);
    let all = mapped.push(runtime).push("/app/lib"@);
    let e = rpath_entries(old, drop_hashes, arch_triplet);
    lemma_split_pieces(old, ':');
    lemma_mapped_pieces(pieces, drop_hashes, arch_triplet);
    lemma_no_colon(seq![], arch_triplet);
    lemma_distinct(all);
    law_rpath_entries(old, drop_hashes, arch_triplet);
    assert forall|i: int| 0 <= i < e.len() implies (#[trigger] e[i]).len() > 0 && !e[i].contains(
        ':',
    ) by {
        assert(e.contains(e[i]));
        let k = all.index_of(e[i]);
        assert(all[k] == e[i]);
        if k < mapped.len() {
            assert(mapped[k] == e[i]);
        }
    }
    lemma_split_of_join(e, ':');
}

/// An RPATH is left as it is where it is empty or settled, and nowhere else, unless
/// the name of the architecture holds the separator.
pub proof fn law_settled_rpath_stays(
    printed: Seq<char>,
    drop_hashes: Set<Seq<char>>,
    arch_triplet: Seq<char>,
)
    requires
        !arch_triplet.contains(':'),
    ensures
        rpath_for(printed, drop_hashes, arch_triplet) is None <==> trimmed(printed).len() == 0
            || settled(trimmed(printed), arch_triplet),
{
    let old = trimmed(printed);
    let e = split(old, ":"@);
    let runtime = runtime_lib(arch_triplet);
    lemma_entries_are_pieces(old, drop_hashes, arch_triplet);
    if settled(old, arch_triplet) {
        reveal_strlit(":");
        lemma_join_of_split(old, ":"@);
        lemma_mapped_same(e, drop_hashes, arch_triplet);
        lemma_distinct_same(e);
        lemma_distinct_more(e, runtime);
        assert(e.push(runtime)[e.index_of("/app/lib"@)] == "/app/lib"@);
        lemma_distinct_more(e.push(runtime), "/app/lib"@);
    }
}

/// An RPATH that was set is settled. Rewriting it again changes nothing where it
/// neither begins nor ends with white space, which is trimmed off what is printed,
/// and otherwise where it is settled without that white space.
pub proof fn law_rpath_is_stable(
    printed: Seq<char>,
    drop_hashes: Set<Seq<char>>,
    arch_triplet: Seq<char>,
    new: Seq<char>,
)
    requires
        !arch_triplet.contains(':'),
        rpath_for(printed, drop_hashes, arch_triplet) == Some(new),
    ensures
        settled(new, arch_triplet),
        trimmed(new) == new ==> rpath_for(new, drop_hashes, arch_triplet) is None,
        settled(trimmed(new), arch_triplet) ==> rpath_for(new, drop_hashes, arch_triplet) is None,
{
    lemma_entries_are_pieces(trimmed(printed), drop_hashes, arch_triplet);
    law_settled_rpath_stays(new, drop_hashes, arch_triplet);
}

/// The hash in a path below `/nix/store/`.
fn hash_in_entry(entry: &str) -> (r: String)
    requires
        "/nix/store/"@.is_prefix_of(entry@),
    ensures
        r@ == entry_hash(entry@),
{
    proof {
        reveal_strlit("/nix/store/");
    }
    let chars: Vec<char> = to_chars(entry);
    let n: usize = chars.len();
    let start: usize = 11;
    let ghost rest = entry@.skip(11);
    let mut end: usize = start;
    while end < n && chars[end] != '/'
        invariant
            chars@ == entry@,
            start == 11,
            start <= end <= n,
            n == chars@.len(),
            forall|i: int| start <= i < end ==> chars@[i] != '/',
        decreases n - end,
    {
        end += 1;
    }
    let ghost base = rest.take(end - start);
    proof {
        lemma_before_first(rest, '/', end - start);
    }
    let mut stop: usize = start;
    while stop < end && chars[stop] != '-'
        invariant
            chars@ == entry@,
            start == 11,
            start <= stop <= end <= n,
            n == chars@.len(),
            forall|i: int| start <= i < stop ==> chars@[i] != '-',
        decreases end - stop,
    {
        stop += 1;
    }
    proof {
        lemma_before_first(base, '-', stop - start);
        assert(base.take(stop - start) =~= chars@.subrange(start as int, stop as int));
    }
    from_range(&chars, start, stop)
}

/// The RPATH to set in place of the one that was printed.
pub fn new_rpath(printed: &str, drop_hashes: &NameSet, arch_triplet: &str) -> (r: Option<String>)
    ensures
        opt_view(r) == rpath_for(printed@, drop_hashes@, arch_triplet@),
{
    let old: String = trim(printed);
    if old.as_str().is_empty() {
        return None;
    }
    proof {
        reveal_strlit(":");
    }
    let pieces: Vec<String> = split_text(&old, ":");
    let ghost v = views(pieces@);
    let runtime: String = glue("/usr/lib/", arch_triplet);
    let mut entries: Vec<String> = Vec::new();
    let mut i: usize = 0;
    proof {
        assert(views(entries@) =~= mapped_entries(v.take(0), drop_hashes@, arch_triplet@));
    }
    while i < pieces.len()
        invariant
            i <= pieces@.len(),
            v == views(pieces@),
            runtime@ == runtime_lib(arch_triplet@),
            views(entries@) == mapped_entries(v.take(i as int), drop_hashes@, arch_triplet@),
        decreases pieces@.len() - i,
    {
        let piece: &String = &pieces[i];
        proof {
            let t = v.take(i as int + 1);
            assert(t.drop_last() =~= v.take(i as int));
            assert(t.last() == piece@);
        }
        if !piece.as_str().is_empty() {
            let entry: String = if starts_with(piece, "/nix/store/") {
                if drop_hashes.contains(&hash_in_entry(piece)) {
                    runtime.clone()
                } else {
                    glue("/app", piece)
                }
            } else {
                piece.clone()
            };
            proof {
                lemma_views_push(entries@, entry);
            }
            entries.push(entry);
        }
        i += 1;
    }
    proof {
        assert(v.take(i as int) =~= v);
    }
    // Always include runtime and app lib paths
    let app: String = "/app/lib".to_owned();
    proof {
        lemma_views_push(entries@, runtime);
        lemma_views_push(entries@.push(runtime), app);
    }
    entries.push(runtime);
    entries.push(app);
    let new: String = join_text(&unique(&entries), ":");
    if same_text(&new, &old) {
        None
    } else {
        Some(new)
    }
}

} // verus!
