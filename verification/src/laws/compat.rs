//! Links for libraries that programs need under names without versions.
use vstd::prelude::*;

use crate::compat::{compat_links, compat_pairs, linked_names, links_for, unversioned};
use crate::json::JsonView;
use crate::order::{lemma_sorted_distinct, sorted, text_le};
use crate::pairs::{law_pairs_are_from_the_list, pair_map};
use crate::pattern::regex_replace;

verus! {

/// A name that no library of the runtime has, but one would have without its version.
pub open spec fn lacks_version_of(sonames: Seq<Seq<char>>, k: int, name: Seq<char>) -> bool {
    &&& 0 <= k < sonames.len()
    &&& regex_replace(r"\.so\..*"@, sonames[k], ".so"@) == name
    &&& !sonames.contains(name)
}

/// The last library of the runtime that would have a name without its version.
pub open spec fn last_that_lacks(sonames: Seq<Seq<char>>, k: int, name: Seq<char>) -> bool {
    &&& lacks_version_of(sonames, k, name)
    &&& forall|j: int| k < j ==> !#[trigger] lacks_version_of(sonames, j, name)
}

proof fn lemma_pair_of(sonames: Seq<Seq<char>>, names: Seq<Seq<char>>, n: nat, i: int) -> (k: int)
    requires
        names == unversioned(sonames),
        n <= sonames.len(),
        0 <= i < compat_pairs(sonames, names, n).len(),
    ensures
        lacks_version_of(sonames, k, compat_pairs(sonames, names, n)[i].0),
    decreases n,
{
    let before = compat_pairs(sonames, names, (n - 1) as nat);
    if i < before.len() {
        lemma_pair_of(sonames, names, (n - 1) as nat, i)
    } else {
        n - 1
    }
}

proof fn lemma_value(sonames: Seq<Seq<char>>, names: Seq<Seq<char>>, n: nat, k: int, name: Seq<char>)
    requires
        names == unversioned(sonames),
        n <= sonames.len(),
        lacks_version_of(sonames, k, name),
        k < n,
        forall|j: int| k < j < n ==> !#[trigger] lacks_version_of(sonames, j, name),
    ensures
        pair_map(compat_pairs(sonames, names, n)).contains_key(name),
        pair_map(compat_pairs(sonames, names, n))[name] == sonames[k],
    decreases n,
{
    let before = compat_pairs(sonames, names, (n - 1) as nat);
    let pairs = compat_pairs(sonames, names, n);
    let last = names[n - 1];
    assert(sonames.contains(sonames[n - 1]));
    if k < n - 1 {
        lemma_value(sonames, names, (n - 1) as nat, k, name);
        assert(!lacks_version_of(sonames, n - 1, name));
        if pairs.len() > before.len() {
            assert(pairs.drop_last() =~= before);
            assert(lacks_version_of(sonames, n - 1, last));
        }
    } else {
        assert(pairs.drop_last() =~= before);
    }
}

proof fn lemma_last(sonames: Seq<Seq<char>>, k: int, name: Seq<char>) -> (m: int)
    requires
        lacks_version_of(sonames, k, name),
    ensures
        last_that_lacks(sonames, m, name),
    decreases sonames.len() - k,
{
    if exists|j: int| k < j && #[trigger] lacks_version_of(sonames, j, name) {
        let j = choose|j: int| k < j && #[trigger] lacks_version_of(sonames, j, name);
        lemma_last(sonames, j, name)
    } else {
        k
    }
}

/// The links of a bundle: one for each name that a program needs and that a library of the
/// runtime would have without its version, but none has. It leads to that library, of
/// several to the last. The links are in the order of their names.
pub proof fn law_links(
    index: JsonView,
    keys: Seq<Seq<char>>,
    needed: Seq<Seq<char>>,
    arch_triplet: Seq<char>,
)
    requires
        index.get("sonames"@) is Some,
        index.get("sonames"@)->Some_0.keys() == Some(keys),
    ensures
        ({
            let sonames = sorted(keys);
            let links = links_for(index, needed, arch_triplet);
            &&& forall|i: int|
                #![trigger links[i]]
                0 <= i < links.len() ==> needed.contains(links[i].0) && exists|k: int| #[trigger]
                    last_that_lacks(sonames, k, links[i].0) && links[i].1 == "/usr/lib/"@
                        + arch_triplet + "/"@ + sonames[k]
            &&& forall|k: int, name: Seq<char>| #[trigger]
                lacks_version_of(sonames, k, name) && needed.contains(name) ==> exists|i: int|
                    0 <= i < links.len() && (#[trigger] links[i]).0 == name
            &&& forall|i: int, j: int|
                0 <= i < j < links.len() ==> text_le(
                    (#[trigger] links[i]).0,
                    (#[trigger] links[j]).0,
                ) && links[i].0 != links[j].0
        }),
{
    let sonames = sorted(keys);
    let names = unversioned(sonames);
    let pairs = compat_pairs(sonames, names, sonames.len());
    let m = pair_map(pairs);
    let f = |name: Seq<char>| m.contains_key(name);
    let found = needed.filter(f);
    let linked = linked_names(pairs, needed);
    let links = links_for(index, needed, arch_triplet);
    lemma_sorted_distinct(found);
    law_pairs_are_from_the_list(pairs);
    assert(links == compat_links(pairs, needed, arch_triplet));
    assert forall|i: int| #![trigger links[i]] 0 <= i < links.len() implies needed.contains(
        links[i].0,
    ) && exists|k: int| #[trigger]
        last_that_lacks(sonames, k, links[i].0) && links[i].1 == "/usr/lib/"@ + arch_triplet
            + "/"@ + sonames[k] by {
        let name = linked[i];
        assert(linked.contains(name));
        assert(found.contains(name));
        needed.lemma_filter_contains_rev(f, name);
        needed.lemma_filter_pred(f, found.index_of(name));
        assert(m.contains_key(name));
        let p = choose|p: int| 0 <= p < pairs.len() && (#[trigger] pairs[p]) == (name, m[name]);
        let k = lemma_pair_of(sonames, names, sonames.len(), p);
        let last = lemma_last(sonames, k, name);
        lemma_value(sonames, names, sonames.len(), last, name);
        assert(last_that_lacks(sonames, last, links[i].0));
    }
    assert forall|k: int, name: Seq<char>| #[trigger]
        lacks_version_of(sonames, k, name) && needed.contains(name) implies exists|i: int|
        0 <= i < links.len() && (#[trigger] links[i]).0 == name by {
        let last = lemma_last(sonames, k, name);
        lemma_value(sonames, names, sonames.len(), last, name);
        let at = needed.index_of(name);
        needed.lemma_filter_contains(f, at);
        assert(found.contains(name));
        assert(linked.contains(name));
        assert(links[linked.index_of(name)].0 == name);
    }
    assert forall|i: int, j: int| 0 <= i < j < links.len() implies text_le(
        (#[trigger] links[i]).0,
        (#[trigger] links[j]).0,
    ) && links[i].0 != links[j].0 by {
        assert(links[i].0 == linked[i] && links[j].0 == linked[j]);
    }
}

/// Where the index has no libraries, there are no links.
pub proof fn law_no_links(index: JsonView, needed: Seq<Seq<char>>, arch_triplet: Seq<char>)
    requires
        index.get("sonames"@) is None || index.get("sonames"@)->Some_0.keys() is None,
    ensures
        links_for(index, needed, arch_triplet).len() == 0,
{
}

} // verus!
