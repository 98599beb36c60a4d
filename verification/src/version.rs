//! Version numbers, and whether the libraries of a closure fit those of a
//! runtime.
use vstd::prelude::*;

use crate::json::{Json, JsonView};
use crate::pattern::{captures, find, group, group_text, regex_captures, regex_find};
use crate::store::{name_part, store_path_name};
use crate::text::{
    from_range, glue, number_of, opt_view, opt_views, parse_number, same_text, split,
    split_text, starts_with, to_chars, views,
};

verus! {

/// A version at the start of a text.
pub const VERSION_PATTERN: &'static str = r"^(\d+\.\d+(?:\.\d+)*)";

/// The name of a libstdc++ file.
pub const LIBSTDCXX_FILE_PATTERN: &'static str = r"^libstdc\+\+\.so\.(\d+\.\d+\.\d+)$";

// ---------------------------------------------------------------------------
// Version numbers
// ---------------------------------------------------------------------------

/// The numbers among the pieces. What is no number is left out.
pub open spec fn numbers(pieces: Seq<Seq<char>>) -> Seq<u32>
    decreases pieces.len(),
{
    if pieces.len() == 0 {
        seq![]
    } else {
        match number_of(pieces.last(), u32::MAX as nat) {
            Some(n) => numbers(pieces.drop_last()).push(n as u32),
            None => numbers(pieces.drop_last()),
        }
    }
}

/// The numbers of a version, which dots separate.
pub open spec fn version_of(s: Seq<char>) -> Seq<u32> {
    numbers(split(s, "."@))
}

/// `a` is a later version than `b`: the first difference decides, and a version
/// comes after those that it begins with.
pub open spec fn later(a: Seq<u32>, b: Seq<u32>) -> bool
    decreases a.len(),
{
    if a.len() == 0 {
        false
    } else if b.len() == 0 {
        true
    } else if a[0] != b[0] {
        a[0] > b[0]
    } else {
        later(a.drop_first(), b.drop_first())
    }
}

/// Of two versions one is later, or they are the same.
pub proof fn law_versions_are_ordered(a: Seq<u32>, b: Seq<u32>)
    ensures
        a == b ==> !later(a, b),
        a != b ==> (later(a, b) <==> !later(b, a)),
    decreases a.len(),
{
    if a.len() == 0 && b.len() == 0 {
        assert(a =~= b);
    } else if a.len() > 0 && b.len() > 0 && a[0] == b[0] {
        law_versions_are_ordered(a.drop_first(), b.drop_first());
        assert(a =~= seq![a[0]] + a.drop_first());
        assert(b =~= seq![b[0]] + b.drop_first());
    }
}

/// What is later than a later version is later.
pub proof fn law_later_is_transitive(a: Seq<u32>, b: Seq<u32>, c: Seq<u32>)
    requires
        later(a, b),
        later(b, c),
    ensures
        later(a, c),
    decreases a.len(),
{
    if a.len() > 0 && b.len() > 0 && c.len() > 0 && a[0] == b[0] && b[0] == c[0] {
        law_later_is_transitive(a.drop_first(), b.drop_first(), c.drop_first());
    }
}

/// The numbers of a version, which dots separate.
pub fn parse_version(s: &str) -> (r: Vec<u32>)
    ensures
        r@ == version_of(s@),
{
    proof {
        reveal_strlit(".");
    }
    let pieces: Vec<String> = split_text(s, ".");
    let ghost v = views(pieces@);
    let mut r: Vec<u32> = Vec::new();
    let mut i: usize = 0;
    while i < pieces.len()
        invariant
            i <= pieces@.len(),
            v == views(pieces@),
            r@ == numbers(v.take(i as int)),
        decreases pieces@.len() - i,
    {
        proof {
            let t = v.take(i as int + 1);
            assert(t.drop_last() =~= v.take(i as int));
            assert(t.last() == pieces@[i as int]@);
        }
        match parse_number(&pieces[i], u32::MAX as u64) {
            Some(n) => {
                r.push(n as u32);
            },
            None => {},
        }
        i += 1;
    }
    proof {
        assert(v.take(i as int) =~= v);
    }
    r
}

/// Whether `a` is a later version than `b`.
pub fn is_later(a: &Vec<u32>, b: &Vec<u32>) -> (r: bool)
    ensures
        r == later(a@, b@),
{
    let mut i: usize = 0;
    proof {
        assert(a@.skip(0) =~= a@);
        assert(b@.skip(0) =~= b@);
    }
    while i < a.len() && i < b.len()
        invariant
            i <= a@.len(),
            i <= b@.len(),
            later(a@, b@) == later(a@.skip(i as int), b@.skip(i as int)),
        decreases a@.len() - i,
    {
        if a[i] != b[i] {
            return a[i] > b[i];
        }
        proof {
            assert(a@.skip(i as int).drop_first() =~= a@.skip(i as int + 1));
            assert(b@.skip(i as int).drop_first() =~= b@.skip(i as int + 1));
        }
        i += 1;
    }
    i < a.len()
}

// ---------------------------------------------------------------------------
// Versions of the packages in a closure
// ---------------------------------------------------------------------------

/// What stands behind the name of a package in a store path of that package.
pub open spec fn version_part(path: Seq<char>, pkg: Seq<char>) -> Option<Seq<char>> {
    match name_part(path) {
        Some(rest) => if (pkg + "-"@).is_prefix_of(rest) {
            Some(rest.skip(pkg.len() as int + 1))
        } else {
            None
        },
        None => None,
    }
}

/// The version in a store path of a package.
pub open spec fn version_in(path: Seq<char>, pkg: Seq<char>) -> Option<Seq<char>> {
    match version_part(path, pkg) {
        Some(v) => regex_find(VERSION_PATTERN@, v),
        None => None,
    }
}

/// The first of the results that is there.
pub open spec fn first_found(results: Seq<Option<Seq<char>>>) -> Option<Seq<char>>
    decreases results.len(),
{
    if results.len() == 0 {
        None
    } else if results[0] is Some {
        results[0]
    } else {
        first_found(results.drop_first())
    }
}

/// The version of the first store path of a package that has one.
pub open spec fn package_version(closure: Seq<Seq<char>>, pkg: Seq<char>) -> Option<Seq<char>> {
    first_found(closure.map_values(|path: Seq<char>| version_in(path, pkg)))
}

/// The first of the results that is there.
pub fn first_result(results: &Vec<Option<String>>) -> (r: Option<String>)
    ensures
        opt_view(r) == first_found(opt_views(results@)),
{
    let ghost all = opt_views(results@);
    let mut i: usize = 0;
    proof {
        assert(all.skip(0) =~= all);
    }
    while i < results.len()
        invariant
            i <= results@.len(),
            all == opt_views(results@),
            first_found(all) == first_found(all.skip(i as int)),
        decreases results@.len() - i,
    {
        proof {
            assert(all.skip(i as int)[0] == opt_view(results@[i as int]));
            assert(all.skip(i as int).drop_first() =~= all.skip(i as int + 1));
        }
        match &results[i] {
            Some(s) => {
                return Some(s.clone());
            },
            None => {},
        }
        i += 1;
    }
    None
}

/// What stands behind the name of a package in a store path of that package.
pub fn package_version_part(store_path: &str, pkg_name: &str) -> (r: Option<String>)
    ensures
        opt_view(r) == version_part(store_path@, pkg_name@),
{
    match store_path_name(store_path) {
        Some(rest) => {
            let prefix: String = glue(pkg_name, "-");
            if starts_with(&rest, &prefix) {
                let chars: Vec<char> = to_chars(&rest);
                let name: Vec<char> = to_chars(&prefix);
                proof {
                    reveal_strlit("-");
                    assert(chars@.subrange(name@.len() as int, chars@.len() as int) =~= chars@.skip(
                        pkg_name@.len() as int + 1,
                    ));
                }
                Some(from_range(&chars, name.len(), chars.len()))
            } else {
                None
            }
        },
        None => None,
    }
}

/// Find a package in the closure by name and extract its version.
pub fn find_nix_package_version(closure: &Vec<String>, pkg_name: &str) -> (r: Option<String>)
    ensures
        opt_view(r) == package_version(views(closure@), pkg_name@),
{
    let mut results: Vec<Option<String>> = Vec::new();
    let mut i: usize = 0;
    while i < closure.len()
        invariant
            i <= closure@.len(),
            results@.len() == i,
            forall|k: int|
                0 <= k < i ==> opt_view(#[trigger] results@[k]) == version_in(
                    closure@[k]@,
                    pkg_name@,
                ),
        decreases closure@.len() - i,
    {
        let found: Option<String> = match package_version_part(&closure[i], pkg_name) {
            Some(v) => find(VERSION_PATTERN, &v),
            None => None,
        };
        results.push(found);
        i += 1;
    }
    proof {
        assert(opt_views(results@) =~= views(closure@).map_values(
            |path: Seq<char>| version_in(path, pkg_name@),
        ));
    }
    first_result(&results)
}

/// A store path of the C++ standard library.
pub open spec fn holds_libstdcxx(path: Seq<char>) -> bool {
    match name_part(path) {
        Some(rest) => "gcc-libs-"@.is_prefix_of(rest) || "gcc-unwrapped-"@.is_prefix_of(rest),
        None => false,
    }
}

/// The version in the name of a libstdc++ file.
pub open spec fn libstdcxx_version_in(name: Seq<char>) -> Option<Seq<char>> {
    match regex_captures(LIBSTDCXX_FILE_PATTERN@, name) {
        Some(groups) => Some(group_text(groups, 1)),
        None => None,
    }
}

/// The names in the `lib` directories of the store paths of the C++ standard
/// library, one directory after the other.
pub open spec fn libstdcxx_names(closure: Seq<Seq<char>>, listings: Seq<Seq<Seq<char>>>) -> Seq<
    Seq<char>,
>
    decreases closure.len(),
{
    if closure.len() == 0 {
        seq![]
    } else {
        let before = libstdcxx_names(closure.drop_last(), listings);
        let at = closure.len() - 1;
        if holds_libstdcxx(closure.last()) && at < listings.len() {
            before + listings[at]
        } else {
            before
        }
    }
}

/// The libstdc++ file version of a closure.
pub open spec fn libstdcxx_version(
    closure: Seq<Seq<char>>,
    listings: Seq<Seq<Seq<char>>>,
) -> Option<Seq<char>> {
    first_found(
        libstdcxx_names(closure, listings).map_values(|name: Seq<char>| libstdcxx_version_in(name)),
    )
}

/// The texts of several lists of strings.
pub open spec fn list_views(lists: Seq<Vec<String>>) -> Seq<Seq<Seq<char>>> {
    lists.map_values(|l: Vec<String>| views(l@))
}

/// Whether the `lib` directory of a store path is to be looked at for libstdc++.
pub fn may_hold_libstdcxx(store_path: &str) -> (r: bool)
    ensures
        r == holds_libstdcxx(store_path@),
{
    match store_path_name(store_path) {
        Some(rest) => starts_with(&rest, "gcc-libs-") || starts_with(&rest, "gcc-unwrapped-"),
        None => false,
    }
}

/// Find the libstdc++ file version (e.g. "6.0.34") from a gcc-libs store path.
/// `listings` holds the file names in the `lib` directory of each store path, as
/// far as that could be read.
pub fn find_libstdcxx_file_version(
    closure: &Vec<String>,
    listings: &Vec<Vec<String>>,
) -> (r: Option<String>)
    ensures
        opt_view(r) == libstdcxx_version(views(closure@), list_views(listings@)),
{
    let ghost paths = views(closure@);
    let ghost lists = list_views(listings@);
    let ghost f = |name: Seq<char>| libstdcxx_version_in(name);
    let mut results: Vec<Option<String>> = Vec::new();
    let mut i: usize = 0;
    proof {
        assert(opt_views(results@) =~= libstdcxx_names(paths.take(0), lists).map_values(f));
    }
    while i < closure.len()
        invariant
            i <= closure@.len(),
            paths == views(closure@),
            lists == list_views(listings@),
            f == (|name: Seq<char>| libstdcxx_version_in(name)),
            opt_views(results@) == libstdcxx_names(paths.take(i as int), lists).map_values(f),
        decreases closure@.len() - i,
    {
        let ghost names = libstdcxx_names(paths.take(i as int), lists);
        proof {
            let t = paths.take(i as int + 1);
            assert(t.drop_last() =~= paths.take(i as int));
            assert(t.last() == closure@[i as int]@);
        }
        if i < listings.len() && may_hold_libstdcxx(&closure[i]) {
            let list: &Vec<String> = &listings[i];
            let ghost here = views(list@);
            let mut k: usize = 0;
            proof {
                assert(lists[i as int] == here);
                assert(names + here.take(0) =~= names);
            }
            while k < list.len()
                invariant
                    k <= list@.len(),
                    here == views(list@),
                    f == (|name: Seq<char>| libstdcxx_version_in(name)),
                    opt_views(results@) == (names + here.take(k as int)).map_values(f),
                decreases list@.len() - k,
            {
                let found: Option<String> = match captures(LIBSTDCXX_FILE_PATTERN, &list[k]) {
                    Some(groups) => Some(group(&groups, 1)),
                    None => None,
                };
                proof {
                    assert(opt_view(found) == f(here[k as int]));
                    assert(opt_views(results@.push(found)) =~= opt_views(results@).push(
                        opt_view(found),
                    ));
                    assert((names + here.take(k as int + 1)).map_values(f) =~= (names + here.take(
                        k as int,
                    )).map_values(f).push(f(here[k as int])));
                }
                results.push(found);
                k += 1;
            }
            proof {
                assert(here.take(k as int) =~= here);
            }
        }
        i += 1;
    }
    proof {
        assert(paths.take(i as int) =~= paths);
    }
    first_result(&results)
}

// ---------------------------------------------------------------------------
// ABI compatibility checks
// ---------------------------------------------------------------------------

/// What an ABI check found.
pub enum AbiCheck {
    /// The runtime index names no version. Nothing is checked.
    NoRuntimeVersion,
    /// The closure does not hold the library. Nothing is checked.
    NotInClosure,
    /// The library of the closure is no newer than that of the runtime.
    Compatible { nix: String, runtime: String },
    /// The library of the closure is newer than that of the runtime.
    Newer { nix: String, runtime: String, fatal: bool },
}

/// The model of what an ABI check found.
pub enum AbiView {
    NoRuntimeVersion,
    NotInClosure,
    Compatible { nix: Seq<char>, runtime: Seq<char> },
    Newer { nix: Seq<char>, runtime: Seq<char>, fatal: bool },
}

impl AbiCheck {
    pub open spec fn view(self) -> AbiView {
        match self {
            AbiCheck::NoRuntimeVersion => AbiView::NoRuntimeVersion,
            AbiCheck::NotInClosure => AbiView::NotInClosure,
            AbiCheck::Compatible { nix, runtime } => AbiView::Compatible {
                nix: nix@,
                runtime: runtime@,
            },
            AbiCheck::Newer { nix, runtime, fatal } => AbiView::Newer {
                nix: nix@,
                runtime: runtime@,
                fatal,
            },
        }
    }

    /// Whether the check ends the program.
    pub fn is_fatal(&self) -> (r: bool)
        ensures
            r == (self@ matches AbiView::Newer { fatal, .. } && fatal),
    {
        match self {
            AbiCheck::Newer { fatal, .. } => *fatal,
            _ => false,
        }
    }
}

/// What an ABI check finds of two versions.
pub open spec fn abi_outcome(
    runtime: Option<Seq<char>>,
    nix: Option<Seq<char>>,
    fatal: bool,
) -> AbiView {
    match (runtime, nix) {
        (None, _) => AbiView::NoRuntimeVersion,
        (Some(_), None) => AbiView::NotInClosure,
        (Some(runtime), Some(nix)) => if later(version_of(nix), version_of(runtime)) {
            AbiView::Newer { nix, runtime, fatal }
        } else {
            AbiView::Compatible { nix, runtime }
        },
    }
}

/// The version of a library in a runtime index.
pub open spec fn runtime_version(index: JsonView, library: Seq<char>) -> Option<Seq<char>> {
    match index.get2("versions"@, library) {
        Some(v) => v.text(),
        None => None,
    }
}

/// An ABI check of two versions.
pub fn compare_abi(runtime: Option<String>, nix: Option<String>, fatal: bool) -> (r: AbiCheck)
    ensures
        r@ == abi_outcome(opt_view(runtime), opt_view(nix), fatal),
{
    let runtime: String = match runtime {
        Some(v) => v,
        None => {
            return AbiCheck::NoRuntimeVersion;
        },
    };
    let nix: String = match nix {
        Some(v) => v,
        None => {
            return AbiCheck::NotInClosure;
        },
    };
    if is_later(&parse_version(&nix), &parse_version(&runtime)) {
        AbiCheck::Newer { nix, runtime, fatal }
    } else {
        AbiCheck::Compatible { nix, runtime }
    }
}

/// The version of a library in a runtime index.
pub fn version_in_index(runtime_index: &Json, library: &str) -> (r: Option<String>)
    ensures
        opt_view(r) == runtime_version(runtime_index@, library@),
{
    match runtime_index.get2("versions", library) {
        Some(v) => match v.text() {
            Some(s) => Some(s.clone()),
            None => None,
        },
        None => None,
    }
}

/// Whether the glibc of the closure fits that of the runtime.
pub fn check_glibc_compat(closure: &Vec<String>, runtime_index: &Json, fatal: bool) -> (r: AbiCheck)
    ensures
        r@ == abi_outcome(
            runtime_version(runtime_index@, "glibc"@),
            package_version(views(closure@), "glibc"@),
            fatal,
        ),
{
    compare_abi(
        version_in_index(runtime_index, "glibc"),
        find_nix_package_version(closure, "glibc"),
        fatal,
    )
}

/// Whether the libstdc++ of the closure fits that of the runtime. `listings` is
/// as for `find_libstdcxx_file_version`.
pub fn check_libstdcxx_compat(
    closure: &Vec<String>,
    listings: &Vec<Vec<String>>,
    runtime_index: &Json,
    fatal: bool,
) -> (r: AbiCheck)
    ensures
        r@ == abi_outcome(
            runtime_version(runtime_index@, "libstdcxx"@),
            libstdcxx_version(views(closure@), list_views(listings@)),
            fatal,
        ),
{
    compare_abi(
        version_in_index(runtime_index, "libstdcxx"),
        find_libstdcxx_file_version(closure, listings),
        fatal,
    )
}

/// What the Qt check found.
pub enum QtCheck {
    /// The runtime or the closure has no Qt.
    Skipped,
    /// Major and minor version agree.
    Same { nix: String, runtime: String },
    /// Major or minor version differ.
    Differs { nix: String, runtime: String },
}

/// The model of what the Qt check found.
pub enum QtView {
    Skipped,
    Same { nix: Seq<char>, runtime: Seq<char> },
    Differs { nix: Seq<char>, runtime: Seq<char> },
}

impl QtCheck {
    pub open spec fn view(self) -> QtView {
        match self {
            QtCheck::Skipped => QtView::Skipped,
            QtCheck::Same { nix, runtime } => QtView::Same { nix: nix@, runtime: runtime@ },
            QtCheck::Differs { nix, runtime } => QtView::Differs { nix: nix@, runtime: runtime@ },
        }
    }
}

/// The first two pieces of a version, or what there is of them.
pub open spec fn major_minor(s: Seq<char>) -> Seq<Seq<char>> {
    let pieces = split(s, "."@);
    if pieces.len() > 2 {
        pieces.take(2)
    } else {
        pieces
    }
}

/// What the Qt check finds of two versions.
pub open spec fn qt_outcome(runtime: Option<Seq<char>>, nix: Option<Seq<char>>) -> QtView {
    match (runtime, nix) {
        (Some(runtime), Some(nix)) => if major_minor(nix) == major_minor(runtime) {
            QtView::Same { nix, runtime }
        } else {
            QtView::Differs { nix, runtime }
        },
        _ => QtView::Skipped,
    }
}

/// Whether two versions agree in their first two pieces.
fn same_major_minor(a: &str, b: &str) -> (r: bool)
    ensures
        r == (major_minor(a@) == major_minor(b@)),
{
    proof {
        reveal_strlit(".");
    }
    let pa: Vec<String> = split_text(a, ".");
    let pb: Vec<String> = split_text(b, ".");
    let na: usize = if pa.len() > 2 {
        2
    } else {
        pa.len()
    };
    let nb: usize = if pb.len() > 2 {
        2
    } else {
        pb.len()
    };
    let ghost ma = major_minor(a@);
    let ghost mb = major_minor(b@);
    proof {
        assert(ma.len() == na && mb.len() == nb);
        assert forall|k: int| 0 <= k < na implies ma[k] == pa@[k]@ by {
            assert(views(pa@)[k] == pa@[k]@);
        }
        assert forall|k: int| 0 <= k < nb implies mb[k] == pb@[k]@ by {
            assert(views(pb@)[k] == pb@[k]@);
        }
    }
    if na != nb {
        return false;
    }
    let mut i: usize = 0;
    while i < na
        invariant
            i <= na,
            na == nb,
            na <= pa@.len(),
            nb <= pb@.len(),
            ma.len() == na,
            mb.len() == nb,
            ma == major_minor(a@),
            mb == major_minor(b@),
            forall|k: int| 0 <= k < na ==> ma[k] == pa@[k]@,
            forall|k: int| 0 <= k < nb ==> mb[k] == pb@[k]@,
            forall|k: int| 0 <= k < i ==> ma[k] == mb[k],
        decreases na - i,
    {
        if !same_text(&pa[i], &pb[i]) {
            proof {
                assert(ma[i as int] != mb[i as int]);
            }
            return false;
        }
        i += 1;
    }
    proof {
        assert(ma =~= mb);
    }
    true
}

/// A Qt check of two versions.
pub fn compare_qt(runtime: Option<String>, nix: Option<String>) -> (r: QtCheck)
    ensures
        r@ == qt_outcome(opt_view(runtime), opt_view(nix)),
{
    match (runtime, nix) {
        (Some(runtime), Some(nix)) => if same_major_minor(&nix, &runtime) {
            QtCheck::Same { nix, runtime }
        } else {
            QtCheck::Differs { nix, runtime }
        },
        _ => QtCheck::Skipped,
    }
}

/// Whether the Qt of the closure fits that of the runtime.
pub fn check_qt_compat(closure: &Vec<String>, runtime_index: &Json) -> (r: QtCheck)
    ensures
        r@ == qt_outcome(
            runtime_version(runtime_index@, "qt"@),
            package_version(views(closure@), "qtbase"@),
        ),
{
    compare_qt(
        version_in_index(runtime_index, "qt"),
        find_nix_package_version(closure, "qtbase"),
    )
}

} // verus!
