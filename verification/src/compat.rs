//! Links for libraries that programs ask for without a version, while the
//! runtime has them with one.
use vstd::prelude::*;

use crate::elf_paths::runtime_lib;
use crate::json::{Json, JsonView};
use crate::order::{distinct, lemma_sorted_distinct, sort_texts, sorted, unique};
use crate::pairs::{
    holds_pairs, insert_pair, law_pairs_are_from_the_list, pair_keys, pair_map, string_map,
};
use crate::pattern::{regex_replace, replace};
use crate::table::Table;
use crate::text::{glue, glue3, lemma_views_push, list_has, same_text, views};

verus! {

/// The version in the name of a library, from `.so` on.
pub const SO_VERSION_PATTERN: &'static str = r"\.so\..*";

// ---------------------------------------------------------------------------
// Model
// ---------------------------------------------------------------------------

/// The SONAMEs of a runtime, in order.
pub open spec fn runtime_sonames(index: JsonView) -> Option<Seq<Seq<char>>> {
    match index.get("sonames"@) {
        Some(v) => match v.keys() {
            Some(keys) => Some(sorted(keys)),
            None => None,
        },
        None => None,
    }
}

/// The names without versions of SONAMEs.
pub open spec fn unversioned(sonames: Seq<Seq<char>>) -> Seq<Seq<char>> {
    sonames.map_values(|s: Seq<char>| regex_replace(SO_VERSION_PATTERN@, s, ".so"@))
}

/// The names without versions, with the SONAMEs that they stand for. A name that
/// is a SONAME itself needs none.
pub open spec fn compat_pairs(sonames: Seq<Seq<char>>, names: Seq<Seq<char>>, n: nat) -> Seq<
    (Seq<char>, Seq<char>),
>
    decreases n,
{
    if n == 0 {
        seq![]
    } else {
        let before = compat_pairs(sonames, names, (n - 1) as nat);
        let name = names[n - 1];
        if name != sonames[n - 1] && !sonames.contains(name) {
            before.push((name, sonames[n - 1]))
        } else {
            before
        }
    }
}

/// The needed names for which there are links, in order.
pub open spec fn linked_names(
    pairs: Seq<(Seq<char>, Seq<char>)>,
    needed: Seq<Seq<char>>,
) -> Seq<Seq<char>> {
    sorted(distinct(needed.filter(|name: Seq<char>| pair_map(pairs).contains_key(name))))
}

/// The links, each by its name and its target.
pub open spec fn compat_links(
    pairs: Seq<(Seq<char>, Seq<char>)>,
    needed: Seq<Seq<char>>,
    arch_triplet: Seq<char>,
) -> Seq<(Seq<char>, Seq<char>)> {
    linked_names(pairs, needed).map_values(
        |name: Seq<char>|
            (name, runtime_lib(arch_triplet) + "/"@ + pair_map(pairs)[name]),
    )
}

/// The links for a runtime.
pub open spec fn links_for(
    index: JsonView,
    needed: Seq<Seq<char>>,
    arch_triplet: Seq<char>,
) -> Seq<(Seq<char>, Seq<char>)> {
    match runtime_sonames(index) {
        Some(sonames) => compat_links(
            compat_pairs(sonames, unversioned(sonames), sonames.len()),
            needed,
            arch_triplet,
        ),
        None => seq![],
    }
}

proof fn lemma_compat_pairs(sonames: Seq<Seq<char>>, names: Seq<Seq<char>>, n: nat)
    requires
        n <= sonames.len(),
        n <= names.len(),
    ensures
        forall|i: int|
            #![trigger compat_pairs(sonames, names, n)[i]]
            0 <= i < compat_pairs(sonames, names, n).len() ==> !sonames.contains(
                compat_pairs(sonames, names, n)[i].0,
            ) && sonames.contains(compat_pairs(sonames, names, n)[i].1),
    decreases n,
{
    if n > 0 {
        lemma_compat_pairs(sonames, names, (n - 1) as nat);
        let before = compat_pairs(sonames, names, (n - 1) as nat);
        let all = compat_pairs(sonames, names, n);
        assert(sonames.contains(sonames[n - 1]));
        assert forall|i: int|
            #![trigger all[i]]
            0 <= i < all.len() implies !sonames.contains(all[i].0) && sonames.contains(all[i].1) by {
            if i < before.len() {
                assert(all[i] == before[i]);
            }
        }
    }
}

/// A link has a name that a program needs and that is no SONAME of the runtime,
/// and leads to a library of the runtime. No two links have one name.
pub proof fn law_compat_links(
    sonames: Seq<Seq<char>>,
    names: Seq<Seq<char>>,
    needed: Seq<Seq<char>>,
    arch_triplet: Seq<char>,
)
    requires
        sonames.len() == names.len(),
    ensures
        ({
            let pairs = compat_pairs(sonames, names, sonames.len());
            let links = compat_links(pairs, needed, arch_triplet);
            &&& forall|i: int|
                #![trigger links[i]]
                0 <= i < links.len() ==> needed.contains(links[i].0) && !sonames.contains(
                    links[i].0,
                ) && sonames.contains(pair_map(pairs)[links[i].0]) && links[i].1 == runtime_lib(
                    arch_triplet,
                ) + "/"@ + pair_map(pairs)[links[i].0]
            &&& forall|i: int, j: int|
                0 <= i < j < links.len() ==> (#[trigger] links[i]).0 != (#[trigger] links[j]).0
            &&& forall|name: Seq<char>|
                needed.contains(name) && #[trigger] pair_map(pairs).contains_key(name)
                    ==> linked_names(pairs, needed).contains(name)
        }),
{
    let pairs = compat_pairs(sonames, names, sonames.len());
    let m = pair_map(pairs);
    let links = compat_links(pairs, needed, arch_triplet);
    let f = |name: Seq<char>| m.contains_key(name);
    let found = needed.filter(f);
    let linked = linked_names(pairs, needed);
    lemma_compat_pairs(sonames, names, sonames.len());
    lemma_sorted_distinct(found);
    law_pairs_are_from_the_list(pairs);
    assert forall|i: int|
        #![trigger links[i]]
        0 <= i < links.len() implies needed.contains(links[i].0) && !sonames.contains(links[i].0)
        && sonames.contains(m[links[i].0]) && links[i].1 == runtime_lib(arch_triplet) + "/"@
        + m[links[i].0] by {
        let name = linked[i];
        assert(linked.contains(name));
        assert(found.contains(name));
        let k = found.index_of(name);
        needed.lemma_filter_pred(f, k);
        assert(m.contains_key(name));
        needed.lemma_filter_contains_rev(f, name);
        let p = choose|p: int| 0 <= p < pairs.len() && (#[trigger] pairs[p]) == (name, m[name]);
        assert(!sonames.contains(pairs[p].0));
    }
    assert forall|i: int, j: int| 0 <= i < j < links.len() implies (#[trigger] links[i]).0 != (
    #[trigger] links[j]).0 by {
        assert(linked[i] != linked[j]);
    }
    assert forall|name: Seq<char>|
        needed.contains(name) && #[trigger] m.contains_key(name) implies linked.contains(name) by {
        let k = needed.index_of(name);
        assert(f(needed[k]));
        needed.lemma_filter_contains(f, k);
    }
}

// ---------------------------------------------------------------------------
// Links
// ---------------------------------------------------------------------------

/// A symbolic link.
pub struct Link {
    pub name: String,
    pub target: String,
}

pub open spec fn link_views(list: Seq<Link>) -> Seq<(Seq<char>, Seq<char>)> {
    list.map_values(|l: Link| (l.name@, l.target@))
}

/// The names without versions, with the SONAMEs that they stand for.
fn compat_table(sonames: &Vec<String>, names: &Vec<String>) -> (r: Table<String>)
    requires
        sonames@.len() == names@.len(),
    ensures
        holds_pairs(&r, compat_pairs(views(sonames@), views(names@), sonames@.len())),
{
    let ghost s = views(sonames@);
    let ghost v = views(names@);
    let mut r: Table<String> = Table::new();
    let mut i: usize = 0;
    proof {
        assert(string_map(&r) =~= pair_map(compat_pairs(s, v, 0)));
        assert(r.key_list() =~= distinct(pair_keys(compat_pairs(s, v, 0))));
    }
    while i < sonames.len()
        invariant
            i <= sonames@.len(),
            sonames@.len() == names@.len(),
            s == views(sonames@),
            v == views(names@),
            holds_pairs(&r, compat_pairs(s, v, i as nat)),
        decreases sonames@.len() - i,
    {
        proof {
            assert(s[i as int] == sonames@[i as int]@);
            assert(v[i as int] == names@[i as int]@);
        }
        if !same_text(&names[i], &sonames[i]) && !list_has(sonames, &names[i]) {
            insert_pair(
                &mut r,
                names[i].clone(),
                sonames[i].clone(),
                Ghost(compat_pairs(s, v, i as nat)),
            );
        }
        i += 1;
    }
    r
}

/// The links for the names that programs need.
fn needed_links(
    table: &Table<String>,
    needed: &Vec<String>,
    arch_triplet: &str,
    Ghost(pairs): Ghost<Seq<(Seq<char>, Seq<char>)>>,
) -> (r: Vec<Link>)
    requires
        holds_pairs(table, pairs),
    ensures
        link_views(r@) == compat_links(pairs, views(needed@), arch_triplet@),
{
    let ghost v = views(needed@);
    let ghost f = |name: Seq<char>| pair_map(pairs).contains_key(name);
    let mut found: Vec<String> = Vec::new();
    let mut i: usize = 0;
    proof {
        reveal(Seq::filter);
        assert(views(found@) =~= v.take(0).filter(f));
    }
    while i < needed.len()
        invariant
            i <= needed@.len(),
            v == views(needed@),
            holds_pairs(table, pairs),
            f == (|name: Seq<char>| pair_map(pairs).contains_key(name)),
            views(found@) == v.take(i as int).filter(f),
        decreases needed@.len() - i,
    {
        let name: String = needed[i].clone();
        proof {
            reveal(Seq::filter);
            let t = v.take(i as int + 1);
            assert(t.drop_last() =~= v.take(i as int));
            assert(t.last() == name@);
            lemma_views_push(found@, name);
            assert(string_map(table).contains_key(name@) <==> table.has(name@));
        }
        if table.contains(&name) {
            found.push(name);
        }
        i += 1;
    }
    proof {
        assert(v.take(i as int) =~= v);
        lemma_sorted_distinct(views(found@));
    }
    let names: Vec<String> = sort_texts(&unique(&found));
    let ghost linked = linked_names(pairs, v);
    let dir: String = glue("/usr/lib/", arch_triplet);
    let mut r: Vec<Link> = Vec::new();
    i = 0;
    proof {
        assert forall|k: int| 0 <= k < linked.len() implies table.has(#[trigger] linked[k]) by {
            assert(linked.contains(linked[k]));
            let all = v.filter(f);
            assert(all.contains(linked[k]));
            v.lemma_filter_pred(f, all.index_of(linked[k]));
            assert(pair_map(pairs).contains_key(linked[k]));
            assert(string_map(table).contains_key(linked[k]) <==> table.has(linked[k]));
        }
    }
    while i < names.len()
        invariant
            i <= names@.len(),
            linked == views(names@),
            holds_pairs(table, pairs),
            dir@ == runtime_lib(arch_triplet@),
            forall|k: int| 0 <= k < linked.len() ==> table.has(#[trigger] linked[k]),
            r@.len() == i,
            forall|k: int|
                0 <= k < i ==> ((#[trigger] r@[k]).name@, r@[k].target@) == (
                    linked[k],
                    runtime_lib(arch_triplet@) + "/"@ + pair_map(pairs)[linked[k]],
                ),
        decreases names@.len() - i,
    {
        let name: String = names[i].clone();
        proof {
            assert(linked[i as int] == name@);
            assert(string_map(table)[name@] == table.at(name@)@);
        }
        match table.get(&name) {
            Some(soname) => {
                let target: String = glue3(&dir, "/", soname);
                r.push(Link { name, target });
            },
            None => {
                proof {
                    assert(false);
                }
            },
        }
        i += 1;
    }
    proof {
        assert(link_views(r@) =~= compat_links(pairs, v, arch_triplet@));
    }
    r
}

/// The links for SONAMEs and their names without versions.
pub fn links_between(
    sonames: &Vec<String>,
    names: &Vec<String>,
    needed: &Vec<String>,
    arch_triplet: &str,
) -> (r: Vec<Link>)
    requires
        sonames@.len() == names@.len(),
    ensures
        link_views(r@) == compat_links(
            compat_pairs(views(sonames@), views(names@), sonames@.len()),
            views(needed@),
            arch_triplet@,
        ),
{
    let table: Table<String> = compat_table(sonames, names);
    needed_links(
        &table,
        needed,
        arch_triplet,
        Ghost(compat_pairs(views(sonames@), views(names@), sonames@.len())),
    )
}

/// Symlinks for unversioned .so names that Nix binaries DT_NEED but the runtime
/// only provides as versioned SONAMEs. `needed` holds the names that the ELF files
/// of the bundle need.
pub fn create_runtime_compat_symlinks(
    runtime_index: &Json,
    needed: &Vec<String>,
    arch_triplet: &str,
) -> (r: Vec<Link>)
    ensures
        link_views(r@) == links_for(runtime_index@, views(needed@), arch_triplet@),
{
    let keys: Option<Vec<String>> = match runtime_index.get("sonames") {
        Some(v) => v.keys(),
        None => None,
    };
    match keys {
        Some(keys) => {
            let sonames: Vec<String> = sort_texts(&keys);
            let ghost s = views(sonames@);
            let mut names: Vec<String> = Vec::new();
            let mut i: usize = 0;
            while i < sonames.len()
                invariant
                    i <= sonames@.len(),
                    s == views(sonames@),
                    views(names@) == unversioned(s).take(i as int),
                decreases sonames@.len() - i,
            {
                let name: String = replace(SO_VERSION_PATTERN, &sonames[i], ".so");
                proof {
                    lemma_views_push(names@, name);
                    assert(s[i as int] == sonames@[i as int]@);
                    assert(unversioned(s).take(i as int + 1) =~= unversioned(s).take(i as int).push(
                        name@,
                    ));
                }
                names.push(name);
                i += 1;
            }
            proof {
                assert(unversioned(s).take(i as int) =~= unversioned(s));
                assert(views(names@).len() == names@.len());
            }
            links_between(&sonames, &names, needed, arch_triplet)
        },
        None => {
            let r: Vec<Link> = Vec::new();
            proof {
                assert(link_views(r@) =~= seq![]);
            }
            r
        },
    }
}

} // verus!
