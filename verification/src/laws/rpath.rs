//! Interpreters and RPATHs.
use vstd::prelude::*;

use crate::elf_paths::{entry_hash, interpreter_for, mapped_entries, rpath_entries, rpath_for};
use crate::laws::text::law_distinct_keeps_order;
use crate::order::{distinct, lemma_distinct};
use crate::store::lemma_before_first;
use crate::text::{has_infix, join, split, trimmed};

verus! {

/// Where a piece of an RPATH leads in a bundle: into the runtime for a store path with
/// a dropped hash, below `/app` for another store path, and where it led otherwise.
pub open spec fn leads_to(
    piece: Seq<char>,
    drop_hashes: Set<Seq<char>>,
    arch_triplet: Seq<char>,
    entry: Seq<char>,
) -> bool {
    let in_store = "/nix/store/"@.is_prefix_of(piece);
    let dropped = drop_hashes.contains(entry_hash(piece));
    &&& in_store && dropped ==> entry == "/usr/lib/"@ + arch_triplet
    &&& in_store && !dropped ==> entry == "/app"@ + piece
    &&& !in_store ==> entry == piece
}

/// The hash of a library directory in the Nix store is what stands behind
/// `/nix/store/` up to the first dash or slash.
pub proof fn law_entry_hash(hash: Seq<char>, rest: Seq<char>)
    requires
        !hash.contains('-'),
        !hash.contains('/'),
        rest.len() > 0 ==> rest[0] == '-' || rest[0] == '/',
    ensures
        entry_hash("/nix/store/"@ + hash + rest) == hash,
{
    let store = "/nix/store/"@;
    let entry = store + hash + rest;
    let t = hash + rest;
    assert(entry.skip(store.len() as int) =~= t);
    assert forall|i: int| 0 <= i < hash.len() implies hash[i] != '-' && hash[i] != '/' by {
        assert(hash.contains(hash[i]));
    }
    let k = lemma_first_place(t, '/', hash.len() as int);
    lemma_before_first(t, '/', k);
    let base = t.take(k);
    if k == hash.len() {
        lemma_before_first(base, '-', k);
        assert(base.take(k) =~= hash);
    } else {
        assert(t[hash.len() as int] == rest[0]);
        assert(rest.len() > 0 && rest[0] == '-');
        assert(base[hash.len() as int] == '-');
        lemma_before_first(base, '-', hash.len() as int);
        assert(base.take(hash.len() as int) =~= hash);
    }
}

/// The first place of a character from a position on, before which it does not stand.
proof fn lemma_first_place(s: Seq<char>, c: char, from: int) -> (k: int)
    requires
        0 <= from <= s.len(),
        forall|i: int| 0 <= i < from ==> s[i] != c,
    ensures
        from <= k <= s.len(),
        k == s.len() || s[k] == c,
        forall|i: int| 0 <= i < k ==> s[i] != c,
    decreases s.len() - from,
{
    if from == s.len() || s[from] == c {
        from
    } else {
        lemma_first_place(s, c, from + 1)
    }
}

proof fn lemma_mapped(
    pieces: Seq<Seq<char>>,
    drop_hashes: Set<Seq<char>>,
    arch_triplet: Seq<char>,
    i: int,
) -> (at: int)
    requires
        0 <= i < pieces.len(),
        pieces[i].len() > 0,
    ensures
        at == mapped_entries(pieces.take(i), drop_hashes, arch_triplet).len(),
        0 <= at < mapped_entries(pieces, drop_hashes, arch_triplet).len(),
        leads_to(
            pieces[i],
            drop_hashes,
            arch_triplet,
            mapped_entries(pieces, drop_hashes, arch_triplet)[at],
        ),
    decreases pieces.len(),
{
    let rest = pieces.drop_last();
    if i < rest.len() {
        let at = lemma_mapped(rest, drop_hashes, arch_triplet, i);
        assert(rest.take(i) =~= pieces.take(i));
        at
    } else {
        assert(rest =~= pieces.take(i));
        mapped_entries(rest, drop_hashes, arch_triplet).len() as int
    }
}

proof fn lemma_mapped_from(
    pieces: Seq<Seq<char>>,
    drop_hashes: Set<Seq<char>>,
    arch_triplet: Seq<char>,
    at: int,
) -> (i: int)
    requires
        0 <= at < mapped_entries(pieces, drop_hashes, arch_triplet).len(),
    ensures
        0 <= i < pieces.len(),
        pieces[i].len() > 0,
        at == mapped_entries(pieces.take(i), drop_hashes, arch_triplet).len(),
        leads_to(
            pieces[i],
            drop_hashes,
            arch_triplet,
            mapped_entries(pieces, drop_hashes, arch_triplet)[at],
        ),
    decreases pieces.len(),
{
    let rest = pieces.drop_last();
    let before = mapped_entries(rest, drop_hashes, arch_triplet);
    if at < before.len() {
        let i = lemma_mapped_from(rest, drop_hashes, arch_triplet, at);
        assert(rest.take(i) =~= pieces.take(i));
        i
    } else {
        assert(rest =~= pieces.take(pieces.len() - 1));
        pieces.len() - 1
    }
}

/// Each piece of the old RPATH that is not empty has the place it leads to in the new
/// one. What else is there is the library directory of the runtime or of the
/// application.
pub proof fn law_each_library_dir_is_there(
    old: Seq<char>,
    drop_hashes: Set<Seq<char>>,
    arch_triplet: Seq<char>,
)
    ensures
        forall|i: int|
            0 <= i < split(old, ":"@).len() && (#[trigger] split(old, ":"@)[i]).len() > 0
                ==> exists|k: int|
                0 <= k < rpath_entries(old, drop_hashes, arch_triplet).len() && leads_to(
                    split(old, ":"@)[i],
                    drop_hashes,
                    arch_triplet,
                    #[trigger] rpath_entries(old, drop_hashes, arch_triplet)[k],
                ),
        forall|k: int|
            0 <= k < rpath_entries(old, drop_hashes, arch_triplet).len() ==> {
                let entry = #[trigger] rpath_entries(old, drop_hashes, arch_triplet)[k];
                ||| entry == "/usr/lib/"@ + arch_triplet
                ||| entry == "/app/lib"@
                ||| exists|i: int|
                    0 <= i < split(old, ":"@).len() && (#[trigger] split(old, ":"@)[i]).len() > 0
                        && leads_to(split(old, ":"@)[i], drop_hashes, arch_triplet, entry)
            },
{
    let pieces = split(old, ":"@);
    let mapped = mapped_entries(pieces, drop_hashes, arch_triplet);
    let all = mapped.push("/usr/lib/"@ + arch_triplet).push("/app/lib"@);
    let e = rpath_entries(old, drop_hashes, arch_triplet);
    lemma_distinct(all);
    assert forall|i: int| 0 <= i < pieces.len() && (#[trigger] pieces[i]).len() > 0 implies exists|
        k: int,
    |
        0 <= k < e.len() && leads_to(pieces[i], drop_hashes, arch_triplet, #[trigger] e[k]) by {
        let at = lemma_mapped(pieces, drop_hashes, arch_triplet, i);
        assert(all[at] == mapped[at]);
        assert(all.contains(mapped[at]));
        assert(e.contains(mapped[at]));
        let k = e.index_of(mapped[at]);
        assert(e[k] == mapped[at]);
    }
    assert forall|k: int| 0 <= k < e.len() implies {
        let entry = #[trigger] e[k];
        ||| entry == "/usr/lib/"@ + arch_triplet
        ||| entry == "/app/lib"@
        ||| exists|i: int|
            0 <= i < pieces.len() && (#[trigger] pieces[i]).len() > 0 && leads_to(
                pieces[i],
                drop_hashes,
                arch_triplet,
                entry,
            )
    } by {
        assert(e.contains(e[k]));
        let at = all.index_of(e[k]);
        assert(all[at] == e[k]);
        if at < mapped.len() {
            let i = lemma_mapped_from(pieces, drop_hashes, arch_triplet, at);
            assert(pieces[i].len() > 0);
        }
    }
}

/// The places that pieces lead to stand in the order of the pieces, where the later one
/// was not led to before. The library directories of the runtime and of the application
/// come behind all others, unless a piece leads there.
pub proof fn law_library_dirs_keep_their_order(
    old: Seq<char>,
    drop_hashes: Set<Seq<char>>,
    arch_triplet: Seq<char>,
    i: int,
    x: Seq<char>,
    y: Seq<char>,
)
    requires
        0 <= i < split(old, ":"@).len(),
        split(old, ":"@)[i].len() > 0,
        leads_to(split(old, ":"@)[i], drop_hashes, arch_triplet, x),
        rpath_entries(old, drop_hashes, arch_triplet).contains(y),
        forall|m: int|
            0 <= m <= i && (#[trigger] split(old, ":"@)[m]).len() > 0 ==> !leads_to(
                split(old, ":"@)[m],
                drop_hashes,
                arch_triplet,
                y,
            ),
    ensures
        rpath_entries(old, drop_hashes, arch_triplet).index_of(x) < rpath_entries(
            old,
            drop_hashes,
            arch_triplet,
        ).index_of(y),
{
    let pieces = split(old, ":"@);
    let mapped = mapped_entries(pieces, drop_hashes, arch_triplet);
    let all = mapped.push("/usr/lib/"@ + arch_triplet).push("/app/lib"@);
    lemma_distinct(all);
    let at = lemma_mapped(pieces, drop_hashes, arch_triplet, i);
    assert(all[at] == x);
    assert(x != y);
    assert forall|m: int| 0 <= m < at implies all[m] != y by {
        assert(all[m] == mapped[m]);
        let j = lemma_mapped_from(pieces, drop_hashes, arch_triplet, m);
        if j > i {
            lemma_mapped_grows(pieces, drop_hashes, arch_triplet, i, j);
        }
        assert(pieces[j].len() > 0);
    }
    law_distinct_keeps_order(all, at, y);
}

proof fn lemma_mapped_grows(
    pieces: Seq<Seq<char>>,
    drop_hashes: Set<Seq<char>>,
    arch_triplet: Seq<char>,
    i: int,
    j: int,
)
    requires
        0 <= i <= j <= pieces.len(),
    ensures
        mapped_entries(pieces.take(i), drop_hashes, arch_triplet).len() <= mapped_entries(
            pieces.take(j),
            drop_hashes,
            arch_triplet,
        ).len(),
    decreases j - i,
{
    if i < j {
        lemma_mapped_grows(pieces, drop_hashes, arch_triplet, i, j - 1);
        assert(pieces.take(j).drop_last() =~= pieces.take(j - 1));
    }
}

/// The library directory of the runtime stands before that of the application at the
/// end, where no piece leads to either.
pub proof fn law_runtime_comes_before_application(
    old: Seq<char>,
    drop_hashes: Set<Seq<char>>,
    arch_triplet: Seq<char>,
)
    requires
        forall|i: int|
            0 <= i < split(old, ":"@).len() && (#[trigger] split(old, ":"@)[i]).len() > 0
                ==> !leads_to(
                split(old, ":"@)[i],
                drop_hashes,
                arch_triplet,
                "/usr/lib/"@ + arch_triplet,
            ) && !leads_to(split(old, ":"@)[i], drop_hashes, arch_triplet, "/app/lib"@),
    ensures
        ({
            let e = rpath_entries(old, drop_hashes, arch_triplet);
            e.len() >= 2 && e[e.len() - 2] == "/usr/lib/"@ + arch_triplet && e[e.len() - 1]
                == "/app/lib"@
        }),
{
    reveal_strlit("/usr/lib/");
    reveal_strlit("/app/lib");
    let runtime = "/usr/lib/"@ + arch_triplet;
    let app = "/app/lib"@;
    let pieces = split(old, ":"@);
    let mapped = mapped_entries(pieces, drop_hashes, arch_triplet);
    let one = mapped.push(runtime);
    let all = one.push(app);
    assert(runtime[1] == 'u' && app[1] == 'a');
    assert(!mapped.contains(runtime)) by {
        if mapped.contains(runtime) {
            let k = mapped.index_of(runtime);
            let i = lemma_mapped_from(pieces, drop_hashes, arch_triplet, k);
            assert(pieces[i].len() > 0);
        }
    }
    assert(!one.contains(app)) by {
        if one.contains(app) {
            let k = one.index_of(app);
            if k < mapped.len() {
                assert(mapped[k] == app);
                let i = lemma_mapped_from(pieces, drop_hashes, arch_triplet, k);
                assert(pieces[i].len() > 0);
            }
        }
    }
    assert(all.drop_last() =~= one);
    assert(one.drop_last() =~= mapped);
    assert(distinct(one) == distinct(mapped).push(runtime));
    assert(distinct(all) == distinct(one).push(app));
}

/// An RPATH that is set is the entries of the bundle with colons between them, and is
/// made from what was printed without the white space around it.
pub proof fn law_rpath_text(
    printed: Seq<char>,
    drop_hashes: Set<Seq<char>>,
    arch_triplet: Seq<char>,
)
    requires
        !arch_triplet.contains(':'),
    ensures
        rpath_for(printed, drop_hashes, arch_triplet) matches Some(new) ==> split(new, ":"@)
            == rpath_entries(trimmed(printed), drop_hashes, arch_triplet) && new != trimmed(printed)
            && trimmed(printed).len() > 0,
        rpath_for(printed, drop_hashes, arch_triplet) is None ==> trimmed(printed).len() == 0
            || split(trimmed(printed), ":"@) == rpath_entries(
            trimmed(printed),
            drop_hashes,
            arch_triplet,
        ),
{
    crate::elf_paths::lemma_entries_are_pieces(trimmed(printed), drop_hashes, arch_triplet);
}

/// The RPATH is set where one was printed and another comes of it: the entries with colons
/// between them.
pub proof fn law_rpath_is_set(
    printed: Seq<char>,
    drop_hashes: Set<Seq<char>>,
    arch_triplet: Seq<char>,
)
    ensures
        ({
            let old = trimmed(printed);
            let new = join(rpath_entries(old, drop_hashes, arch_triplet), ":"@);
            &&& old.len() == 0 || new == old ==> rpath_for(printed, drop_hashes, arch_triplet) is None
            &&& old.len() > 0 && new != old ==> rpath_for(printed, drop_hashes, arch_triplet)
                == Some(new)
        }),
{
}

/// The library directories of the runtime and of the application are always there, and no
/// directory stands twice.
pub proof fn law_runtime_and_application_are_there(
    old: Seq<char>,
    drop_hashes: Set<Seq<char>>,
    arch_triplet: Seq<char>,
)
    ensures
        rpath_entries(old, drop_hashes, arch_triplet).contains("/usr/lib/"@ + arch_triplet),
        rpath_entries(old, drop_hashes, arch_triplet).contains("/app/lib"@),
        rpath_entries(old, drop_hashes, arch_triplet).no_duplicates(),
{
    crate::elf_paths::law_rpath_entries(old, drop_hashes, arch_triplet);
}

/// The interpreter is set exactly where the printed one mentions the Nix store, to the
/// loader of the architecture in the library directory of the runtime.
pub proof fn law_interpreter(printed: Seq<char>, arch_triplet: Seq<char>)
    ensures
        interpreter_for(printed, arch_triplet) is Some <==> has_infix(
            trimmed(printed),
            "/nix/store/"@,
        ),
        interpreter_for(printed, arch_triplet) matches Some(path) ==> path == "/usr/lib/"@
            + arch_triplet + (if has_infix(arch_triplet, "aarch64"@) {
            "/ld-linux-aarch64.so.1"@
        } else {
            "/ld-linux-x86-64.so.2"@
        }),
{
    reveal_strlit("/");
    reveal_strlit("ld-linux-aarch64.so.1");
    reveal_strlit("/ld-linux-aarch64.so.1");
    reveal_strlit("ld-linux-x86-64.so.2");
    reveal_strlit("/ld-linux-x86-64.so.2");
    assert("/"@ + "ld-linux-aarch64.so.1"@ =~= "/ld-linux-aarch64.so.1"@);
    assert("/"@ + "ld-linux-x86-64.so.2"@ =~= "/ld-linux-x86-64.so.2"@);
    let lib = "/usr/lib/"@ + arch_triplet;
    assert(lib + "/"@ + "ld-linux-aarch64.so.1"@ =~= lib + ("/"@ + "ld-linux-aarch64.so.1"@));
    assert(lib + "/"@ + "ld-linux-x86-64.so.2"@ =~= lib + ("/"@ + "ld-linux-x86-64.so.2"@));
}

} // verus!
