//! Versions and the checks of compatibility.
use vstd::prelude::*;

use crate::json::JsonView;
use crate::pattern::{group_text, regex_captures, regex_find};
use crate::store::name_part;
use crate::text::{
    join, lemma_find_from, lemma_join_first, lemma_join_of_split, lemma_split_of_join,
    lemma_split_pieces, number_of, split,
};
use crate::version::{
    abi_outcome, first_found, holds_libstdcxx, later, libstdcxx_names, libstdcxx_version,
    libstdcxx_version_in, major_minor, numbers, package_version, qt_outcome, runtime_version,
    version_in, version_of, AbiView, QtView,
};

verus! {

/// `a` is greater than `b` at place `k`, the first at which they differ. A row of
/// numbers is greater than those that it begins with.
pub open spec fn greater_at(a: Seq<u32>, b: Seq<u32>, k: int) -> bool {
    &&& 0 <= k < a.len()
    &&& k <= b.len()
    &&& forall|i: int| 0 <= i < k ==> a[i] == b[i]
    &&& k < b.len() ==> a[k] > b[k]
}

proof fn lemma_later_at(a: Seq<u32>, b: Seq<u32>, k: int)
    requires
        greater_at(a, b, k),
    ensures
        later(a, b),
    decreases k,
{
    if k > 0 {
        assert(a[0] == b[0]);
        let a1 = a.drop_first();
        let b1 = b.drop_first();
        assert forall|i: int| 0 <= i < k - 1 implies a1[i] == b1[i] by {
            assert(a[i + 1] == b[i + 1]);
        }
        assert(greater_at(a1, b1, k - 1));
        lemma_later_at(a1, b1, k - 1);
    }
}

proof fn lemma_later_place(a: Seq<u32>, b: Seq<u32>) -> (k: int)
    requires
        later(a, b),
    ensures
        greater_at(a, b, k),
    decreases a.len(),
{
    if b.len() == 0 || a[0] != b[0] {
        0
    } else {
        let a1 = a.drop_first();
        let b1 = b.drop_first();
        let k = lemma_later_place(a1, b1);
        assert forall|i: int| 0 <= i < k + 1 implies a[i] == b[i] by {
            if i > 0 {
                assert(a1[i - 1] == b1[i - 1]);
            }
        }
        assert(k < b1.len() ==> a1[k] > b1[k]);
        k + 1
    }
}

/// A version is later than another exactly where at the first difference its number
/// is greater, or it goes on where the other ends.
pub proof fn law_later_is_decided_by_the_first_difference(a: Seq<u32>, b: Seq<u32>)
    ensures
        later(a, b) <==> exists|k: int| greater_at(a, b, k),
{
    if later(a, b) {
        let k = lemma_later_place(a, b);
        assert(greater_at(a, b, k));
    }
    if exists|k: int| greater_at(a, b, k) {
        let k = choose|k: int| greater_at(a, b, k);
        lemma_later_at(a, b, k);
    }
}

/// A check finds a library of the closure too new exactly where the numbers of its
/// version are greater at the first difference, whatever the versions are. Then it
/// names both versions, and is fatal where it is asked to be. Else it finds the two
/// compatible.
pub proof fn law_abi_check(runtime: Seq<char>, nix: Seq<char>, fatal: bool)
    ensures
        (exists|k: int| greater_at(version_of(nix), version_of(runtime), k)) ==> abi_outcome(
            Some(runtime),
            Some(nix),
            fatal,
        ) == (AbiView::Newer { nix, runtime, fatal }),
        (forall|k: int| !greater_at(version_of(nix), version_of(runtime), k)) ==> abi_outcome(
            Some(runtime),
            Some(nix),
            fatal,
        ) == (AbiView::Compatible { nix, runtime }),
{
    law_later_is_decided_by_the_first_difference(version_of(nix), version_of(runtime));
}

/// An older library, and one of the same version, is compatible.
pub proof fn law_older_is_compatible(runtime: Seq<char>, nix: Seq<char>, fatal: bool)
    requires
        version_of(nix) == version_of(runtime) || exists|k: int|
            greater_at(version_of(runtime), version_of(nix), k),
    ensures
        abi_outcome(Some(runtime), Some(nix), fatal) == (AbiView::Compatible { nix, runtime }),
{
    let a = version_of(nix);
    let b = version_of(runtime);
    assert forall|k: int| !greater_at(a, b, k) by {
        if greater_at(a, b, k) && a != b {
            let m = choose|m: int| greater_at(b, a, m);
            if k < m {
                assert(a[k] == b[k]);
            } else if m < k {
                assert(b[m] == a[m]);
            }
        }
    }
    law_abi_check(runtime, nix, fatal);
}

/// Of two versions at most one is too new for the other.
pub proof fn law_not_newer_both_ways(a: Seq<char>, b: Seq<char>, fatal: bool)
    ensures
        !(abi_outcome(Some(a), Some(b), fatal) is Newer && abi_outcome(
            Some(b),
            Some(a),
            fatal,
        ) is Newer),
{
    if abi_outcome(Some(a), Some(b), fatal) is Newer {
        law_abi_check(a, b, fatal);
        let k = choose|k: int| greater_at(version_of(b), version_of(a), k);
        law_older_is_compatible(b, a, fatal);
    }
}

/// Where the runtime names no version, or the closure does not hold the library,
/// nothing is compared.
pub proof fn law_abi_check_is_skipped(version: Seq<char>, other: Option<Seq<char>>, fatal: bool)
    ensures
        abi_outcome(None, other, fatal) == AbiView::NoRuntimeVersion,
        abi_outcome(Some(version), None, fatal) == AbiView::NotInClosure,
{
}

/// The Qt check compares what stands before the first dot, and what stands between
/// the first and the second.
pub proof fn law_qt_check(runtime: Seq<char>, nix: Seq<char>)
    ensures
        ({
            let a = split(nix, "."@);
            let b = split(runtime, "."@);
            let same = (a.len() >= 2) == (b.len() >= 2) && a[0] == b[0] && (a.len() >= 2 ==> a[1]
                == b[1]);
            &&& same ==> qt_outcome(Some(runtime), Some(nix)) == (QtView::Same { nix, runtime })
            &&& !same ==> qt_outcome(Some(runtime), Some(nix)) == (QtView::Differs {
                nix,
                runtime,
            })
            &&& qt_outcome(None, None) == QtView::Skipped
            &&& qt_outcome(None, Some(nix)) == QtView::Skipped
            &&& qt_outcome(Some(runtime), None) == QtView::Skipped
        }),
{
    reveal_strlit(".");
    let a = split(nix, "."@);
    let b = split(runtime, "."@);
    lemma_join_of_split(nix, "."@);
    lemma_join_of_split(runtime, "."@);
    lemma_pieces(nix);
    lemma_pieces(runtime);
    let ma = major_minor(nix);
    let mb = major_minor(runtime);
    assert(ma[0] == a[0] && mb[0] == b[0]);
    if a.len() >= 2 {
        assert(ma[1] == a[1]);
    }
    if b.len() >= 2 {
        assert(mb[1] == b[1]);
    }
    if (a.len() >= 2) == (b.len() >= 2) && a[0] == b[0] && (a.len() >= 2 ==> a[1] == b[1]) {
        assert(ma =~= mb);
    }
}

proof fn lemma_pieces(s: Seq<char>)
    ensures
        split(s, "."@).len() > 0,
    decreases s.len(),
{
    reveal_strlit(".");
    lemma_find_from(s, "."@, 0);
}

proof fn lemma_numbers_first(first: Seq<char>, rest: Seq<Seq<char>>)
    ensures
        numbers(seq![first] + rest) == numbers(seq![first]) + numbers(rest),
    decreases rest.len(),
{
    let all = seq![first] + rest;
    if rest.len() == 0 {
        assert(all =~= seq![first]);
        assert(numbers(all) =~= numbers(seq![first]) + numbers(rest));
    } else {
        assert(all.drop_last() =~= seq![first] + rest.drop_last());
        lemma_numbers_first(first, rest.drop_last());
        assert(numbers(all) =~= numbers(seq![first]) + numbers(rest));
    }
}

proof fn lemma_numbers_of_one(piece: Seq<char>)
    ensures
        numbers(seq![piece]) == (match number_of(piece, 0xffff_ffff) {
            Some(n) => seq![n as u32],
            None => seq![],
        }),
{
    let one = seq![piece];
    assert(one.drop_last() =~= seq![]);
    assert(numbers(one.drop_last()) =~= seq![]);
    assert(numbers(one) =~= (match number_of(piece, 0xffff_ffff) {
        Some(n) => seq![n as u32],
        None => seq![],
    }));
}

/// The numbers of a version, from the left: what stands before the first dot gives its
/// number, where it is one, and the rest is a version of its own.
pub proof fn law_version_numbers(first: Seq<char>, rest: Seq<char>)
    requires
        !first.contains('.'),
    ensures
        version_of(first) == (match number_of(first, 0xffff_ffff) {
            Some(n) => seq![n as u32],
            None => seq![],
        }),
        version_of(first + seq!['.'] + rest) == version_of(first) + version_of(rest),
{
    reveal_strlit(".");
    assert("."@ =~= seq!['.']);
    lemma_numbers_of_one(first);
    assert(join(seq![first], "."@) == first);
    lemma_split_of_join(seq![first], '.');
    let pieces = split(rest, "."@);
    lemma_pieces(rest);
    lemma_split_pieces(rest, '.');
    lemma_join_of_split(rest, "."@);
    let all = seq![first] + pieces;
    lemma_join_first(first, pieces, "."@);
    assert forall|i: int| 0 <= i < all.len() implies !(#[trigger] all[i]).contains('.') by {
        if i > 0 {
            assert(all[i] == pieces[i - 1]);
        }
    }
    lemma_split_of_join(all, '.');
    lemma_numbers_first(first, pieces);
}

proof fn lemma_first_found(results: Seq<Option<Seq<char>>>, k: int)
    requires
        0 <= k < results.len(),
        results[k] is Some,
        forall|j: int| 0 <= j < k ==> (#[trigger] results[j]) is None,
    ensures
        first_found(results) == results[k],
    decreases results.len(),
{
    if k > 0 {
        assert(results[0] is None);
        let rest = results.drop_first();
        assert forall|j: int| 0 <= j < k - 1 implies (#[trigger] rest[j]) is None by {
            assert(results[j + 1] is None);
        }
        lemma_first_found(rest, k - 1);
    }
}

proof fn lemma_none_found(results: Seq<Option<Seq<char>>>)
    requires
        forall|j: int| 0 <= j < results.len() ==> (#[trigger] results[j]) is None,
    ensures
        first_found(results) is None,
    decreases results.len(),
{
    if results.len() > 0 {
        let rest = results.drop_first();
        assert forall|j: int| 0 <= j < rest.len() implies (#[trigger] rest[j]) is None by {
            assert(results[j + 1] is None);
        }
        lemma_none_found(rest);
    }
}

/// The version of a package is that of the first store path of the closure whose
/// name is the package's, a dash, and a text that begins with a version.
pub proof fn law_package_version(closure: Seq<Seq<char>>, pkg: Seq<char>, k: int)
    requires
        0 <= k < closure.len(),
        forall|j: int| 0 <= j < k ==> version_in(#[trigger] closure[j], pkg) is None,
    ensures
        version_in(closure[k], pkg) is Some ==> package_version(closure, pkg) == version_in(
            closure[k],
            pkg,
        ),
        version_in(closure[k], pkg) is None && k == closure.len() - 1 ==> package_version(
            closure,
            pkg,
        ) is None,
{
    let results = closure.map_values(|path: Seq<char>| version_in(path, pkg));
    assert forall|j: int| 0 <= j < k implies (#[trigger] results[j]) is None by {
        assert(version_in(closure[j], pkg) is None);
    }
    if version_in(closure[k], pkg) is Some {
        lemma_first_found(results, k);
    } else if k == closure.len() - 1 {
        assert(results[k] is None);
        lemma_none_found(results);
    }
}

/// The version in a store path `<32 bytes>-<package>-<text>` is what the text begins
/// with, and a store path of another name has none.
pub proof fn law_version_in_store_path(path: Seq<char>, pkg: Seq<char>, text: Seq<char>)
    ensures
        name_part(path) == Some(pkg + "-"@ + text) ==> version_in(path, pkg) == regex_find(
            r"^(\d+\.\d+(?:\.\d+)*)"@,
            text,
        ),
        name_part(path) is None ==> version_in(path, pkg) is None,
        (name_part(path) matches Some(rest) && forall|t: Seq<char>| rest != pkg + "-"@ + t)
            ==> version_in(path, pkg) is None,
{
    reveal_strlit("-");
    let head = pkg + "-"@;
    if name_part(path) == Some(head + text) {
        let rest = head + text;
        assert(rest.subrange(0, head.len() as int) =~= head);
        assert(head.is_prefix_of(rest));
        assert(rest.skip(pkg.len() as int + 1) =~= text);
    }
    if name_part(path) is Some {
        let rest = name_part(path)->Some_0;
        if head.is_prefix_of(rest) {
            assert(rest =~= head + rest.skip(head.len() as int));
        }
    }
}

proof fn lemma_first_found_comes_from(results: Seq<Option<Seq<char>>>)
    requires
        first_found(results) is Some,
    ensures
        exists|k: int|
            0 <= k < results.len() && #[trigger] results[k] == first_found(results) && forall|j: int|
                0 <= j < k ==> (#[trigger] results[j]) is None,
    decreases results.len(),
{
    if results[0] is None {
        let rest = results.drop_first();
        lemma_first_found_comes_from(rest);
        let k = choose|k: int|
            0 <= k < rest.len() && #[trigger] rest[k] == first_found(rest) && forall|j: int|
                0 <= j < k ==> (#[trigger] rest[j]) is None;
        assert(results[k + 1] == first_found(results));
        assert forall|j: int| 0 <= j < k + 1 implies (#[trigger] results[j]) is None by {
            if j > 0 {
                assert(rest[j - 1] is None);
            }
        }
    } else {
        assert(results[0] == first_found(results));
    }
}

proof fn lemma_libstdcxx_names(closure: Seq<Seq<char>>, listings: Seq<Seq<Seq<char>>>, name: Seq<char>)
    ensures
        libstdcxx_names(closure, listings).contains(name) <==> exists|i: int|
            0 <= i < closure.len() && i < listings.len() && #[trigger] listings[i].contains(name) && (
            name_part(closure[i]) matches Some(rest) && ("gcc-libs-"@.is_prefix_of(rest)
                || "gcc-unwrapped-"@.is_prefix_of(rest))),
    decreases closure.len(),
{
    if closure.len() > 0 {
        let rest = closure.drop_last();
        let before = libstdcxx_names(rest, listings);
        let all = libstdcxx_names(closure, listings);
        let at = closure.len() - 1;
        lemma_libstdcxx_names(rest, listings, name);
        if all.contains(name) {
            let k = all.index_of(name);
            if k < before.len() {
                assert(before[k] == name);
                let i = choose|i: int|
                    0 <= i < rest.len() && i < listings.len() && #[trigger] listings[i].contains(
                        name,
                    ) && (name_part(rest[i]) matches Some(r) && ("gcc-libs-"@.is_prefix_of(r)
                        || "gcc-unwrapped-"@.is_prefix_of(r)));
                assert(closure[i] == rest[i]);
                assert(listings[i].contains(name));
            } else {
                assert(listings[at][k - before.len()] == name);
                assert(listings[at].contains(name));
            }
        }
        if exists|i: int|
            0 <= i < closure.len() && i < listings.len() && #[trigger] listings[i].contains(name) && (
            name_part(closure[i]) matches Some(r) && ("gcc-libs-"@.is_prefix_of(r)
                || "gcc-unwrapped-"@.is_prefix_of(r))) {
            let i = choose|i: int|
                0 <= i < closure.len() && i < listings.len() && #[trigger] listings[i].contains(
                    name,
                ) && (name_part(closure[i]) matches Some(r) && ("gcc-libs-"@.is_prefix_of(r)
                    || "gcc-unwrapped-"@.is_prefix_of(r)));
            if i < at {
                assert(rest[i] == closure[i]);
                assert(listings[i].contains(name));
                assert(before.contains(name));
                assert(all[before.index_of(name)] == name);
            } else {
                let k = listings[i].index_of(name);
                assert(all[before.len() + k] == name);
            }
        }
    }
}

/// A libstdc++ version is found exactly where a store path of gcc's libraries has a
/// file with such a name in its `lib` directory.
pub proof fn law_libstdcxx_version(closure: Seq<Seq<char>>, listings: Seq<Seq<Seq<char>>>)
    ensures
        libstdcxx_version(closure, listings) is Some <==> exists|i: int, name: Seq<char>|
            0 <= i < closure.len() && i < listings.len() && #[trigger] listings[i].contains(name) && (
            name_part(closure[i]) matches Some(rest) && ("gcc-libs-"@.is_prefix_of(rest)
                || "gcc-unwrapped-"@.is_prefix_of(rest))) && regex_captures(
                r"^libstdc\+\+\.so\.(\d+\.\d+\.\d+)$"@,
                name,
            ) is Some,
{
    let names = libstdcxx_names(closure, listings);
    let results = names.map_values(|name: Seq<char>| libstdcxx_version_in(name));
    if first_found(results) is Some {
        lemma_first_found_comes_from(results);
        let k = choose|k: int|
            0 <= k < results.len() && #[trigger] results[k] == first_found(results) && forall|j: int|
                0 <= j < k ==> (#[trigger] results[j]) is None;
        let name = names[k];
        assert(results[k] == libstdcxx_version_in(name));
        assert(names.contains(name));
        lemma_libstdcxx_names(closure, listings, name);
    }
    if exists|i: int, name: Seq<char>|
        0 <= i < closure.len() && i < listings.len() && #[trigger] listings[i].contains(name) && (
        name_part(closure[i]) matches Some(rest) && ("gcc-libs-"@.is_prefix_of(rest)
            || "gcc-unwrapped-"@.is_prefix_of(rest))) && regex_captures(
            r"^libstdc\+\+\.so\.(\d+\.\d+\.\d+)$"@,
            name,
        ) is Some {
        let (i, name) = choose|i: int, name: Seq<char>|
            0 <= i < closure.len() && i < listings.len() && #[trigger] listings[i].contains(name) && (
            name_part(closure[i]) matches Some(rest) && ("gcc-libs-"@.is_prefix_of(rest)
                || "gcc-unwrapped-"@.is_prefix_of(rest))) && regex_captures(
                r"^libstdc\+\+\.so\.(\d+\.\d+\.\d+)$"@,
                name,
            ) is Some;
        lemma_libstdcxx_names(closure, listings, name);
        let k = names.index_of(name);
        assert(results[k] is Some);
        if first_found(results) is None {
            lemma_found_if_some(results, k);
        }
    }
}

/// The name of a libstdc++ file in the `lib` directory of a store path of gcc's libraries.
pub open spec fn libstdcxx_file(
    closure: Seq<Seq<char>>,
    listings: Seq<Seq<Seq<char>>>,
    i: int,
    k: int,
) -> bool {
    &&& 0 <= i < closure.len() && i < listings.len() && 0 <= k < listings[i].len()
    &&& name_part(closure[i]) is Some
    &&& "gcc-libs-"@.is_prefix_of(name_part(closure[i])->Some_0)
        || "gcc-unwrapped-"@.is_prefix_of(name_part(closure[i])->Some_0)
    &&& regex_captures(r"^libstdc\+\+\.so\.(\d+\.\d+\.\d+)$"@, listings[i][k]) is Some
}

/// The libstdc++ version is that in the name of the first such file of the first such store
/// path.
pub proof fn law_first_libstdcxx_file(
    closure: Seq<Seq<char>>,
    listings: Seq<Seq<Seq<char>>>,
    i: int,
    k: int,
)
    requires
        libstdcxx_file(closure, listings, i, k),
        forall|a: int, b: int| #[trigger]
            libstdcxx_file(closure, listings, a, b) ==> i < a || (i == a && k <= b),
    ensures
        libstdcxx_version(closure, listings) == Some(
            group_text(
                regex_captures(
                    r"^libstdc\+\+\.so\.(\d+\.\d+\.\d+)$"@,
                    listings[i][k],
                )->Some_0,
                1,
            ),
        ),
    decreases closure.len(),
{
    let f = |name: Seq<char>| libstdcxx_version_in(name);
    let rest = closure.drop_last();
    let at = closure.len() - 1;
    let before = libstdcxx_names(rest, listings);
    let all = libstdcxx_names(closure, listings);
    assert(closure[at] == closure.last());
    if i < at {
        assert(rest[i] == closure[i]);
        assert(libstdcxx_file(rest, listings, i, k));
        assert forall|a: int, b: int| #[trigger] libstdcxx_file(rest, listings, a, b) implies i < a
            || (i == a && k <= b) by {
            assert(rest[a] == closure[a]);
            assert(libstdcxx_file(closure, listings, a, b));
        }
        law_first_libstdcxx_file(rest, listings, i, k);
        if all.len() != before.len() {
            assert(all == before + listings[at]);
            assert(all.map_values(f) =~= before.map_values(f) + listings[at].map_values(f));
            lemma_first_found_in_front(before.map_values(f), listings[at].map_values(f));
        } else {
            assert(all =~= before);
        }
    } else {
        let results = listings[at].map_values(f);
        assert(all == before + listings[at]);
        assert(all.map_values(f) =~= before.map_values(f) + results);
        assert(first_found(before.map_values(f)) is None) by {
            if first_found(before.map_values(f)) is Some {
                law_libstdcxx_version(rest, listings);
                let (a, name) = choose|a: int, name: Seq<char>|
                    0 <= a < rest.len() && a < listings.len() && #[trigger] listings[a].contains(
                        name,
                    ) && (name_part(rest[a]) matches Some(r) && ("gcc-libs-"@.is_prefix_of(r)
                        || "gcc-unwrapped-"@.is_prefix_of(r))) && regex_captures(
                        r"^libstdc\+\+\.so\.(\d+\.\d+\.\d+)$"@,
                        name,
                    ) is Some;
                assert(rest[a] == closure[a]);
                assert(libstdcxx_file(closure, listings, a, listings[a].index_of(name)));
            }
        }
        assert forall|j: int| 0 <= j < k implies (#[trigger] results[j]) is None by {
            if results[j] is Some {
                assert(libstdcxx_file(closure, listings, i, j));
            }
        }
        lemma_first_found(results, k);
        lemma_first_found_in_front(before.map_values(f), results);
    }
}

/// What is found first in two rows is what is found in the first, or else in the second.
proof fn lemma_first_found_in_front(a: Seq<Option<Seq<char>>>, b: Seq<Option<Seq<char>>>)
    ensures
        first_found(a + b) == (if first_found(a) is Some {
            first_found(a)
        } else {
            first_found(b)
        }),
    decreases a.len(),
{
    if a.len() == 0 {
        assert(a + b =~= b);
    } else if a[0] is None {
        assert((a + b).drop_first() =~= a.drop_first() + b);
        lemma_first_found_in_front(a.drop_first(), b);
    }
}

/// The store paths of gcc's libraries are told by their names.
pub proof fn law_libstdcxx_paths(path: Seq<char>)
    ensures
        holds_libstdcxx(path) <==> name_part(path) is Some && ("gcc-libs-"@.is_prefix_of(
            name_part(path)->Some_0,
        ) || "gcc-unwrapped-"@.is_prefix_of(name_part(path)->Some_0)),
{
}

proof fn lemma_found_if_some(results: Seq<Option<Seq<char>>>, k: int)
    requires
        0 <= k < results.len(),
        results[k] is Some,
    ensures
        first_found(results) is Some,
    decreases results.len(),
{
    if results[0] is None {
        assert(results.drop_first()[k - 1] == results[k]);
        lemma_found_if_some(results.drop_first(), k - 1);
    }
}

/// The version that a runtime index names of a library is the text under its name in
/// the member `versions`.
pub proof fn law_runtime_version(index: JsonView, library: Seq<char>, version: Seq<char>)
    ensures
        runtime_version(index, library) == Some(version) <==> index.get("versions"@) is Some
            && index.get("versions"@)->Some_0.get(library) == Some(JsonView::Text(version)),
{
}

} // verus!
