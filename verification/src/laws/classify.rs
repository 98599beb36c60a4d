//! What is kept of a store path, and why the rest is dropped.
use vstd::prelude::*;

use crate::classify::{
    any_matches, any_matches_versioned, artifact, artifact_dirs, artifact_suffixes,
    classification_of, classified, data_redundant, dropped, executable, executable_rewrites, fate,
    icon_theme, kept, law_classification, lemma_file_counts, library_name, matched_sonames, plugin,
    runtime_lists, Classification, Fate, FileView, Reason, Setting,
};
use crate::json::JsonView;
use crate::laws::text::{law_infix, law_join, law_split};
use crate::pattern::regex_is_match;
use crate::rewrites::{RewriteKind, RewriteView};
use crate::text::{has_infix, lemma_join_of_split, lemma_split_pieces, occurs_at, split};

verus! {

// ---------------------------------------------------------------------------
// Kinds of files
// ---------------------------------------------------------------------------

/// Directories of headers, build files and documentation.
pub open spec fn in_directory_for_builds(rel_path: Seq<char>) -> bool {
    let p = "/"@ + rel_path + "/"@;
    ||| has_infix(p, "/include/"@)
    ||| has_infix(p, "/lib/pkgconfig/"@)
    ||| has_infix(p, "/share/pkgconfig/"@)
    ||| has_infix(p, "/share/man/"@)
    ||| has_infix(p, "/share/doc/"@)
    ||| has_infix(p, "/share/info/"@)
    ||| has_infix(p, "/share/aclocal/"@)
    ||| has_infix(p, "/share/devhelp/"@)
    ||| has_infix(p, "/lib/cmake/"@)
    ||| has_infix(p, "/share/cmake/"@)
    ||| has_infix(p, "/share/vala/"@)
    ||| has_infix(p, "/share/gir-1.0/"@)
    ||| has_infix(p, "/share/gtk-doc/"@)
    ||| has_infix(p, "/share/bash-completion/"@)
    ||| has_infix(p, "/share/zsh/"@)
    ||| has_infix(p, "/share/fish/"@)
    ||| has_infix(p, "/nix-support/"@)
}

/// Names of headers, objects, archives and build files.
pub open spec fn named_for_builds(rel_path: Seq<char>) -> bool {
    ||| ".h"@.is_suffix_of(rel_path)
    ||| ".hpp"@.is_suffix_of(rel_path)
    ||| ".hxx"@.is_suffix_of(rel_path)
    ||| ".pc"@.is_suffix_of(rel_path)
    ||| ".la"@.is_suffix_of(rel_path)
    ||| ".a"@.is_suffix_of(rel_path)
    ||| ".o"@.is_suffix_of(rel_path)
    ||| ".cmake"@.is_suffix_of(rel_path)
    ||| ".gir"@.is_suffix_of(rel_path)
}

/// What is only needed to build software is told by its directory or by its name.
pub proof fn law_artifact(rel_path: Seq<char>)
    ensures
        artifact(rel_path) <==> in_directory_for_builds(rel_path) || named_for_builds(rel_path),
{
    let p = "/"@ + rel_path + "/"@;
    let d = artifact_dirs();
    let e = artifact_suffixes();
    assert(d.len() == 17 && e.len() == 9);
    assert(d[0] == "/include/"@ && d[1] == "/lib/pkgconfig/"@ && d[2] == "/share/pkgconfig/"@);
    assert(d[3] == "/share/man/"@ && d[4] == "/share/doc/"@ && d[5] == "/share/info/"@);
    assert(d[6] == "/share/aclocal/"@ && d[7] == "/share/devhelp/"@ && d[8] == "/lib/cmake/"@);
    assert(d[9] == "/share/cmake/"@ && d[10] == "/share/vala/"@ && d[11] == "/share/gir-1.0/"@);
    assert(d[12] == "/share/gtk-doc/"@ && d[13] == "/share/bash-completion/"@);
    assert(d[14] == "/share/zsh/"@ && d[15] == "/share/fish/"@ && d[16] == "/nix-support/"@);
    assert(e[0] == ".h"@ && e[1] == ".hpp"@ && e[2] == ".hxx"@ && e[3] == ".pc"@);
    assert(e[4] == ".la"@ && e[5] == ".a"@ && e[6] == ".o"@ && e[7] == ".cmake"@ && e[8]
        == ".gir"@);
}

/// A file is in a directory of programs where a component of its path other than the last
/// is `bin`, `sbin` or `libexec`.
pub proof fn law_executable(rel_path: Seq<char>)
    ensures
        executable(rel_path) <==> exists|a: Seq<char>, dir: Seq<char>, b: Seq<char>|
            rel_path == #[trigger] (a + dir + "/"@ + b) && (a.len() == 0 || a.last() == '/') && (dir
                == "bin"@ || dir == "sbin"@ || dir == "libexec"@),
{
    reveal_strlit("/");
    reveal_strlit("bin");
    reveal_strlit("sbin");
    reveal_strlit("libexec");
    reveal_strlit("bin/");
    reveal_strlit("sbin/");
    reveal_strlit("libexec/");
    reveal_strlit("/bin/");
    reveal_strlit("/sbin/");
    reveal_strlit("/libexec/");
    lemma_below_directory(rel_path, "bin"@, "bin/"@, "/bin/"@);
    lemma_below_directory(rel_path, "sbin"@, "sbin/"@, "/sbin/"@);
    lemma_below_directory(rel_path, "libexec"@, "libexec/"@, "/libexec/"@);
}

proof fn lemma_below_directory(
    rel_path: Seq<char>,
    dir: Seq<char>,
    first: Seq<char>,
    inner: Seq<char>,
)
    requires
        first =~= dir + "/"@,
        inner =~= "/"@ + dir + "/"@,
    ensures
        first.is_prefix_of(rel_path) || has_infix(rel_path, inner) <==> exists|
            a: Seq<char>,
            b: Seq<char>,
        |
            rel_path == #[trigger] (a + dir + "/"@ + b) && (a.len() == 0 || a.last() == '/'),
{
    reveal_strlit("/");
    assert("/"@ =~= seq!['/']);
    if first.is_prefix_of(rel_path) {
        let a = Seq::<char>::empty();
        let b = rel_path.skip(first.len() as int);
        assert(rel_path =~= first + b);
        assert(a + dir + "/"@ + b =~= rel_path);
    } else if has_infix(rel_path, inner) {
        law_infix(rel_path, inner);
        let (front, b) = choose|front: Seq<char>, b: Seq<char>|
            rel_path == #[trigger] (front + inner + b);
        let a = front + "/"@;
        assert(a.last() == '/');
        assert(front + inner + b =~= a + dir + "/"@ + b);
    }
    if exists|a: Seq<char>, b: Seq<char>|
        rel_path == #[trigger] (a + dir + "/"@ + b) && (a.len() == 0 || a.last() == '/') {
        let (a, b) = choose|a: Seq<char>, b: Seq<char>|
            rel_path == #[trigger] (a + dir + "/"@ + b) && (a.len() == 0 || a.last() == '/');
        if a.len() == 0 {
            assert(rel_path =~= first + b);
            assert((first + b).subrange(0, first.len() as int) =~= first);
        } else {
            let front = a.drop_last();
            assert(a =~= front + "/"@);
            assert(a + dir + "/"@ + b =~= front + inner + b);
            law_infix(rel_path, inner);
        }
    }
}

/// A library that programs load by themselves is in a directory below `lib`, or is a
/// module of the name service in `lib` itself.
pub proof fn law_plugin(rel_path: Seq<char>)
    ensures
        plugin(rel_path) <==> exists|rest: Seq<char>|
            rel_path == #[trigger] ("lib/"@ + rest) && (rest.contains('/') || ("libnss_"@.is_prefix_of(
                rest,
            ) && has_infix(rest, ".so."@))),
{
    reveal_strlit("/");
    reveal_strlit("lib");
    reveal_strlit("lib/");
    reveal_strlit("libnss_");
    let sep = "/"@;
    assert(sep =~= seq!['/']);
    let parts = split(rel_path, sep);
    if exists|rest: Seq<char>|
        rel_path == #[trigger] ("lib/"@ + rest) && (rest.contains('/') || ("libnss_"@.is_prefix_of(
            rest,
        ) && has_infix(rest, ".so."@))) {
        let rest = choose|rest: Seq<char>|
            rel_path == #[trigger] ("lib/"@ + rest) && (rest.contains('/') || (
            "libnss_"@.is_prefix_of(rest) && has_infix(rest, ".so."@)));
        lemma_two_parts("lib"@, rest);
        assert("lib"@ + sep + rest =~= rel_path);
    }
    if plugin(rel_path) {
        lemma_join_of_split(rel_path, sep);
        if parts.len() == 1 {
            law_join(parts, Seq::empty(), sep);
            assert(parts.last() == "lib"@);
            assert(parts.last().subrange(0, 7).len() == 7);
            assert(false);
        }
        let rest = crate::text::join(parts.drop_first(), sep);
        assert(parts =~= seq![parts[0]] + parts.drop_first());
        law_join(seq![parts[0]], parts.drop_first(), sep);
        assert(rel_path =~= "lib/"@ + rest);
        lemma_two_parts("lib"@, rest);
        assert("lib"@ + sep + rest =~= rel_path);
    }
}

/// The parts of a path behind its first component, which are more than one where there is
/// a slash.
proof fn lemma_two_parts(first: Seq<char>, rest: Seq<char>)
    requires
        !first.contains('/'),
    ensures
        split(first + "/"@ + rest, "/"@) == seq![first] + split(rest, "/"@),
        split(rest, "/"@).len() >= 1,
        split(rest, "/"@).len() >= 2 <==> rest.contains('/'),
        !rest.contains('/') ==> split(rest, "/"@) == seq![rest],
{
    reveal_strlit("/");
    let sep = "/"@;
    assert(sep =~= seq!['/']);
    assert forall|m: int| 0 <= m < first.len() implies !occurs_at(first + sep, sep, m) by {
        if occurs_at(first + sep, sep, m) {
            assert((first + sep).subrange(m, m + 1)[0] == '/');
            assert(first[m] == '/');
        }
    }
    law_split(first, sep, rest);
    law_split(rest, sep, rest);
    let pieces = split(rest, sep);
    lemma_join_of_split(rest, sep);
    lemma_split_pieces(rest, '/');
    crate::text::lemma_find_from(rest, sep, 0);
    assert(pieces.len() >= 1);
    if !rest.contains('/') {
        if has_infix(rest, sep) {
            let i = choose|i: int| occurs_at(rest, sep, i);
            assert(rest.subrange(i, i + 1)[0] == '/');
            assert(rest[i] == '/');
        }
    } else if pieces.len() == 1 {
        law_join(pieces, Seq::empty(), sep);
        assert(!pieces[0].contains('/'));
    }
}

/// A shared library is a file with `.so` in its name that is no Python script.
pub proof fn law_library_name(name: Seq<char>)
    ensures
        library_name(name) <==> (exists|a: Seq<char>, b: Seq<char>|
            name == #[trigger] (a + ".so"@ + b)) && !exists|a: Seq<char>|
            name == #[trigger] (a + ".py"@),
{
    law_infix(name, ".so"@);
    if ".py"@.is_suffix_of(name) {
        let a = name.take(name.len() - ".py"@.len());
        assert(name =~= a + ".py"@);
    }
    if exists|a: Seq<char>| name == #[trigger] (a + ".py"@) {
        let a = choose|a: Seq<char>| name == #[trigger] (a + ".py"@);
        assert(name.subrange(name.len() - ".py"@.len(), name.len() as int) =~= ".py"@);
    }
}

/// The icon theme of a file is the component of its path behind the first one that is
/// `icons`.
pub proof fn law_icon_theme(rel_path: Seq<char>, theme: Seq<char>)
    ensures
        icon_theme(rel_path) == Some(theme) <==> exists|i: int|
            0 <= i && i + 1 < split(rel_path, "/"@).len() && #[trigger] split(rel_path, "/"@)[i]
                == "icons"@ && split(rel_path, "/"@)[i + 1] == theme && (forall|j: int|
                0 <= j < i ==> split(rel_path, "/"@)[j] != "icons"@),
{
    let parts = split(rel_path, "/"@);
    parts.index_of_first_ensures("icons"@);
    let wanted = exists|i: int|
        0 <= i && i + 1 < parts.len() && #[trigger] parts[i] == "icons"@ && parts[i + 1] == theme && (
        forall|j: int| 0 <= j < i ==> parts[j] != "icons"@);
    if wanted {
        let i = choose|i: int|
            0 <= i && i + 1 < parts.len() && #[trigger] parts[i] == "icons"@ && parts[i + 1] == theme
                && (forall|j: int| 0 <= j < i ==> parts[j] != "icons"@);
        assert(parts.contains("icons"@));
        let k = parts.index_of_first("icons"@)->Some_0;
        assert(k == i) by {
            if k < i {
                assert(parts[k] != "icons"@);
            }
        }
    }
    if icon_theme(rel_path) == Some(theme) {
        let k = parts.index_of_first("icons"@)->Some_0;
        assert(parts[k] == "icons"@);
    }
}

// ---------------------------------------------------------------------------
// Reasons to drop a file
// ---------------------------------------------------------------------------

/// The runtime lists a name among its data of one kind.
pub open spec fn listed(index: JsonView, kind: Seq<char>, name: Seq<char>) -> bool {
    index.get2("data"@, kind) matches Some(JsonView::List(list)) && list.contains(
        JsonView::Text(name),
    )
}

/// A schema or typelib that the runtime lists, locale data, or, but for the package itself,
/// a file of an icon theme that the runtime lists.
pub open spec fn data_of_the_runtime(index: JsonView, is_target: bool, f: FileView) -> bool {
    ||| has_infix(f.rel_path, "share/glib-2.0/schemas/"@) && ".xml"@.is_suffix_of(f.fname)
        && listed(index, "glib-schemas"@, f.fname)
    ||| has_infix(f.rel_path, "girepository-1.0/"@) && ".typelib"@.is_suffix_of(f.fname) && listed(
        index,
        "typelibs"@,
        f.fname,
    )
    ||| has_infix(f.rel_path, "share/locale/"@)
    ||| !is_target && has_infix(f.rel_path, "share/icons/"@) && icon_theme(f.rel_path) is Some
        && listed(index, "icon-themes"@, icon_theme(f.rel_path)->Some_0)
}

/// A library with a SONAME that the runtime has.
pub open spec fn library_of_the_runtime(index: JsonView, f: FileView) -> bool {
    library_name(f.fname) && f.soname is Some && index.get2("sonames"@, f.soname->Some_0) is Some
}

/// Some library has a SONAME with a version that the runtime has.
pub open spec fn some_versioned(index: JsonView, files: Seq<FileView>) -> bool {
    exists|i: int|
        0 <= i < files.len() && library_of_the_runtime(index, #[trigger] files[i])
            && regex_is_match(r"\.so\.\d+"@, files[i].soname->Some_0)
}

/// Some library has a SONAME that the runtime has.
pub open spec fn some_matched(index: JsonView, files: Seq<FileView>) -> bool {
    exists|i: int| 0 <= i < files.len() && library_of_the_runtime(index, #[trigger] files[i])
}

/// An executable that gives way to that of the runtime.
pub open spec fn executable_of_the_runtime(index: JsonView, f: FileView) -> bool {
    !artifact(f.rel_path) && !library_name(f.fname) && executable(f.rel_path) && index.get2(
        "executables"@,
        f.fname,
    ) is Some
}

/// The reasons to drop a file of a store path other than the package.
pub open spec fn reason_to_drop(
    index: JsonView,
    is_essential: bool,
    files: Seq<FileView>,
    f: FileView,
) -> bool {
    // Only needed to build software
    ||| artifact(f.rel_path)
    // The runtime has the library
    ||| library_of_the_runtime(index, f)
    // A plugin of a library that the runtime has
    ||| library_name(f.fname) && f.soname is Some && some_versioned(index, files) && plugin(
        f.rel_path,
    )
    // A link or script beside libraries
    ||| library_name(f.fname) && f.soname is None && (f.is_symlink || some_matched(index, files))
    // The runtime has the executable
    ||| executable_of_the_runtime(index, f)
    // An executable that the package does not need
    ||| !library_name(f.fname) && executable(f.rel_path) && !is_essential
    // The runtime has the data
    ||| !library_name(f.fname) && !executable(f.rel_path) && data_of_the_runtime(index, false, f)
}

proof fn lemma_data(index: JsonView, is_target: bool, f: FileView)
    ensures
        data_redundant(index, is_target, f) <==> data_of_the_runtime(index, is_target, f),
{
    assert forall|kind: Seq<char>, name: Seq<char>| #[trigger]
        runtime_lists(index, kind, name) == listed(index, kind, name) by {}
}

/// A file that is no build artifact, no library, not in a directory of programs, and no
/// data of the runtime is kept.
pub proof fn law_other_files_are_kept(s: Setting, f: FileView)
    requires
        !artifact(f.rel_path),
        !library_name(f.fname),
        !executable(f.rel_path),
    ensures
        data_of_the_runtime(s.index, s.is_target, f) ==> fate(s, f) is Drop,
        !data_of_the_runtime(s.index, s.is_target, f) ==> fate(s, f) is Keep,
{
    lemma_data(s.index, s.is_target, f);
}

/// What becomes of a library depends on its SONAME.
pub proof fn law_fate_of_libraries(s: Setting, f: FileView)
    requires
        !artifact(f.rel_path),
        library_name(f.fname),
    ensures
        library_of_the_runtime(s.index, f) ==> fate(s, f) == Fate::Matched(f.soname->Some_0),
        !library_of_the_runtime(s.index, f) && f.soname is Some ==> (if s.versioned && plugin(
            f.rel_path,
        ) {
            fate(s, f) is Drop
        } else {
            fate(s, f) is Keep
        }),
        f.soname is None && !f.is_symlink && !s.matched ==> fate(s, f) is Keep,
        f.soname is None && (f.is_symlink || s.matched) ==> fate(s, f) is Drop,
{
}

/// Executables of the package are kept. Others give way to those of the runtime, which are
/// below `/usr`, and are kept where the package needs them.
pub proof fn law_fate_of_executables(s: Setting, f: FileView)
    requires
        !artifact(f.rel_path),
        !library_name(f.fname),
        executable(f.rel_path),
    ensures
        s.is_target ==> fate(s, f) is Keep,
        !s.is_target && executable_of_the_runtime(s.index, f) ==> (fate(
            s,
            f,
        ) matches Fate::Replaced(to) && to == "/usr/"@ + (match s.index.get2(
            "executables"@,
            f.fname,
        )->Some_0.get("path"@) {
            Some(JsonView::Text(path)) => path,
            _ => Seq::empty(),
        })),
        !s.is_target && !executable_of_the_runtime(s.index, f) && s.is_essential ==> fate(
            s,
            f,
        ) is Keep,
        !s.is_target && !executable_of_the_runtime(s.index, f) && !s.is_essential ==> fate(
            s,
            f,
        ) is Drop,
{
    assert("/usr/"@ + Seq::<char>::empty() =~= "/usr/"@);
}

/// Build artifacts are dropped, whatever else they are.
pub proof fn law_fate_of_artifacts(s: Setting, f: FileView)
    requires
        artifact(f.rel_path),
    ensures
        fate(s, f) is Drop,
{
}

// ---------------------------------------------------------------------------
// Store paths
// ---------------------------------------------------------------------------

/// The files of a store path other than the package for which there is no reason to drop
/// them.
pub open spec fn without_reason(
    index: JsonView,
    is_essential: bool,
    files: Seq<FileView>,
) -> Seq<Seq<char>> {
    files.filter(|f: FileView| !reason_to_drop(index, is_essential, files, f)).map_values(
        |f: FileView| f.rel_path,
    )
}

/// The files of a store path other than the package for which there is a reason to drop
/// them.
pub open spec fn with_reason(
    index: JsonView,
    is_essential: bool,
    files: Seq<FileView>,
) -> Seq<Seq<char>> {
    files.filter(|f: FileView| reason_to_drop(index, is_essential, files, f)).map_values(
        |f: FileView| f.rel_path,
    )
}

/// The remainder rule: what would be left goes with the rest, where a versioned library or
/// an executable is dropped, no library is left, and no executable but beside a versioned
/// library.
pub open spec fn remainder_goes(
    index: JsonView,
    is_essential: bool,
    files: Seq<FileView>,
) -> bool {
    let left = without_reason(index, is_essential, files);
    let gone = with_reason(index, is_essential, files);
    &&& some_versioned(index, files) || exists|i: int|
        0 <= i < gone.len() && executable(#[trigger] gone[i])
    &&& forall|i: int| 0 <= i < left.len() ==> !library_name(#[trigger] left[i])
    &&& some_versioned(index, files) || forall|i: int|
        0 <= i < left.len() ==> !executable(#[trigger] left[i])
}

proof fn lemma_setting(
    store_path: Seq<char>,
    files: Seq<FileView>,
    index: JsonView,
    target: Seq<char>,
    essential: Set<Seq<char>>,
) -> (s: Setting)
    ensures
        s.index == index,
        s.is_target <==> store_path == target,
        s.is_essential <==> essential.contains(store_path),
        s.versioned <==> some_versioned(index, files),
        s.matched <==> some_matched(index, files),
        classification_of(store_path, Some(files), index, target, essential) == classified(
            s,
            store_path,
            files,
        ),
{
    if some_versioned(index, files) {
        let i = choose|i: int|
            0 <= i < files.len() && library_of_the_runtime(index, #[trigger] files[i])
                && regex_is_match(r"\.so\.\d+"@, files[i].soname->Some_0);
        assert(crate::classify::file_matches_versioned(index, files[i]));
    }
    if any_matches_versioned(index, files) {
        let i = choose|i: int|
            0 <= i < files.len() && crate::classify::file_matches_versioned(
                index,
                #[trigger] files[i],
            );
        assert(library_of_the_runtime(index, files[i]));
    }
    if some_matched(index, files) {
        let i = choose|i: int|
            0 <= i < files.len() && library_of_the_runtime(index, #[trigger] files[i]);
        assert(crate::classify::file_matches(index, files[i]));
    }
    if any_matches(index, files) {
        let i = choose|i: int|
            0 <= i < files.len() && crate::classify::file_matches(index, #[trigger] files[i]);
        assert(library_of_the_runtime(index, files[i]));
    }
    Setting {
        index,
        is_target: store_path == target,
        is_essential: essential.contains(store_path),
        versioned: any_matches_versioned(index, files),
        matched: any_matches(index, files),
    }
}

proof fn lemma_reasons(s: Setting, all: Seq<FileView>, f: FileView)
    requires
        !s.is_target,
        s.versioned <==> some_versioned(s.index, all),
        s.matched <==> some_matched(s.index, all),
    ensures
        fate(s, f) is Keep <==> !reason_to_drop(s.index, s.is_essential, all, f),
{
    lemma_data(s.index, s.is_target, f);
}

proof fn lemma_filtered(s: Setting, files: Seq<FileView>, drop: spec_fn(FileView) -> bool)
    requires
        forall|f: FileView| fate(s, f) is Keep <==> !#[trigger] drop(f),
    ensures
        kept(s, files) == files.filter(|f: FileView| !drop(f)).map_values(|f: FileView| f.rel_path),
        dropped(s, files) == files.filter(drop).map_values(|f: FileView| f.rel_path),
    decreases files.len(),
{
    reveal(Seq::filter);
    let path = |f: FileView| f.rel_path;
    let keep = |f: FileView| !drop(f);
    if files.len() > 0 {
        let rest = files.drop_last();
        lemma_filtered(s, rest, drop);
        assert(drop(files.last()) || keep(files.last()));
        assert(kept(s, files) =~= files.filter(keep).map_values(path));
        assert(dropped(s, files) =~= files.filter(drop).map_values(path));
    } else {
        assert(kept(s, files) =~= files.filter(keep).map_values(path));
        assert(dropped(s, files) =~= files.filter(drop).map_values(path));
    }
}

/// Of a store path other than the package, the files are kept for which there is no reason
/// to drop them, in order, unless the remainder rule applies: then all are dropped.
pub proof fn law_files_of_a_store_path(
    store_path: Seq<char>,
    files: Seq<FileView>,
    index: JsonView,
    target: Seq<char>,
    essential: Set<Seq<char>>,
)
    requires
        store_path != target,
    ensures
        ({
            let c = classification_of(store_path, Some(files), index, target, essential);
            let left = without_reason(index, essential.contains(store_path), files);
            let gone = with_reason(index, essential.contains(store_path), files);
            &&& c.store_path == store_path
            &&& remainder_goes(index, essential.contains(store_path), files)
                ==> c.kept_files.len() == 0 && c.dropped_files == gone + left
            &&& !remainder_goes(index, essential.contains(store_path), files) ==> c.kept_files
                == left && c.dropped_files == gone
        }),
{
    let s = lemma_setting(store_path, files, index, target, essential);
    let drop = |f: FileView| reason_to_drop(index, essential.contains(store_path), files, f);
    let keep = |f: FileView| !drop(f);
    let keep2 = |f: FileView| !reason_to_drop(index, essential.contains(store_path), files, f);
    assert forall|f: FileView| fate(s, f) is Keep <==> !#[trigger] drop(f) by {
        lemma_reasons(s, files, f);
    }
    lemma_filtered(s, files, drop);
    assert(keep =~= keep2);
    let left = without_reason(index, essential.contains(store_path), files);
    let gone = with_reason(index, essential.contains(store_path), files);
    assert(kept(s, files) == left);
    assert(dropped(s, files) == gone);
    if left.len() == 0 {
        assert(gone + left =~= gone);
        assert(left =~= Seq::empty());
    }
}

/// A file for which there is no reason to drop it is kept, unless the remainder rule
/// applies.
pub proof fn law_no_reason_no_drop(
    store_path: Seq<char>,
    files: Seq<FileView>,
    index: JsonView,
    target: Seq<char>,
    essential: Set<Seq<char>>,
    k: int,
)
    requires
        0 <= k < files.len(),
        store_path != target,
        !reason_to_drop(index, essential.contains(store_path), files, files[k]),
        !remainder_goes(index, essential.contains(store_path), files),
    ensures
        classification_of(store_path, Some(files), index, target, essential).kept_files.contains(
            files[k].rel_path,
        ),
{
    law_files_of_a_store_path(store_path, files, index, target, essential);
    let keep = |f: FileView| !reason_to_drop(index, essential.contains(store_path), files, f);
    let list = files.filter(keep);
    assert(keep(files[k]));
    files.lemma_filter_contains(keep, k);
    assert(list.contains(files[k]));
    let i = list.index_of(files[k]);
    assert(list.map_values(|f: FileView| f.rel_path)[i] == files[k].rel_path);
}

/// Each dropped file is dropped for one of the reasons, or the remainder rule applies.
pub proof fn law_what_is_dropped_has_a_reason(
    store_path: Seq<char>,
    files: Seq<FileView>,
    index: JsonView,
    target: Seq<char>,
    essential: Set<Seq<char>>,
    i: int,
)
    requires
        0 <= i < classification_of(
            store_path,
            Some(files),
            index,
            target,
            essential,
        ).dropped_files.len(),
    ensures
        store_path != target,
        remainder_goes(index, essential.contains(store_path), files) || exists|k: int|
            0 <= k < files.len() && (#[trigger] files[k]).rel_path == classification_of(
                store_path,
                Some(files),
                index,
                target,
                essential,
            ).dropped_files[i] && reason_to_drop(
                index,
                essential.contains(store_path),
                files,
                files[k],
            ),
{
    let c = classification_of(store_path, Some(files), index, target, essential);
    if store_path != target {
        law_files_of_a_store_path(store_path, files, index, target, essential);
        if !remainder_goes(index, essential.contains(store_path), files) {
            let drop = |f: FileView|
                reason_to_drop(index, essential.contains(store_path), files, f);
            let list = files.filter(drop);
            assert(list.map_values(|f: FileView| f.rel_path)[i] == list[i].rel_path);
            files.lemma_filter_pred(drop, i);
            assert(list.contains(list[i]));
            files.lemma_filter_contains_rev(drop, list[i]);
            let k = files.index_of(list[i]);
            assert(files[k] == list[i]);
        }
    }
}

/// The files of the package that another store path would lose as well, whatever the
/// package is for.
pub open spec fn listed_last(index: JsonView, files: Seq<FileView>, f: FileView) -> bool {
    ||| artifact(f.rel_path)
    ||| library_of_the_runtime(index, f)
    ||| library_name(f.fname) && f.soname is Some && some_versioned(index, files) && plugin(
        f.rel_path,
    )
    ||| library_name(f.fname) && f.soname is None && (f.is_symlink || some_matched(index, files))
    ||| !library_name(f.fname) && !executable(f.rel_path) && data_of_the_runtime(index, true, f)
}

/// All files of the package are kept. Those that the runtime has or that are only needed to
/// build software are listed behind the others.
pub proof fn law_files_of_the_package(
    files: Seq<FileView>,
    index: JsonView,
    target: Seq<char>,
    essential: Set<Seq<char>>,
)
    ensures
        ({
            let c = classification_of(target, Some(files), index, target, essential);
            &&& c.dropped_files.len() == 0
            &&& c.kept_files == files.filter(
                |f: FileView| !listed_last(index, files, f),
            ).map_values(|f: FileView| f.rel_path) + files.filter(
                |f: FileView| listed_last(index, files, f),
            ).map_values(|f: FileView| f.rel_path)
        }),
{
    let s = lemma_setting(target, files, index, target, essential);
    let drop = |f: FileView| listed_last(index, files, f);
    let keep = |f: FileView| !drop(f);
    let keep2 = |f: FileView| !listed_last(index, files, f);
    assert forall|f: FileView| fate(s, f) is Keep <==> !#[trigger] drop(f) by {
        lemma_data(index, true, f);
    }
    lemma_filtered(s, files, drop);
    assert(keep =~= keep2);
}

/// The SONAMEs for which libraries are dropped, and the rewrites for executables, are those
/// of the files with a counterpart in the runtime, in order. Nothing of the package is
/// rewritten.
pub proof fn law_counterparts(
    store_path: Seq<char>,
    files: Seq<FileView>,
    index: JsonView,
    target: Seq<char>,
    essential: Set<Seq<char>>,
)
    ensures
        ({
            let c = classification_of(store_path, Some(files), index, target, essential);
            &&& c.matched_sonames == files.filter(
                |f: FileView| !artifact(f.rel_path) && library_of_the_runtime(index, f),
            ).map_values(|f: FileView| f.soname->Some_0)
            &&& store_path == target ==> c.rewrites.len() == 0
            &&& store_path != target ==> c.rewrites == files.filter(
                |f: FileView| executable_of_the_runtime(index, f),
            ).map_values(
                |f: FileView|
                    RewriteView {
                        from: f.filepath,
                        to: "/usr/"@ + (match index.get2("executables"@, f.fname)->Some_0.get(
                            "path"@,
                        ) {
                            Some(JsonView::Text(path)) => path,
                            _ => Seq::empty(),
                        }),
                        kind: RewriteKind::Executable,
                        referenced_by: None,
                    },
            )
        }),
{
    let s = lemma_setting(store_path, files, index, target, essential);
    lemma_matched(s, files);
    lemma_rewritten(s, files);
}

proof fn lemma_matched(s: Setting, files: Seq<FileView>)
    ensures
        matched_sonames(s, files) == files.filter(
            |f: FileView| !artifact(f.rel_path) && library_of_the_runtime(s.index, f),
        ).map_values(|f: FileView| f.soname->Some_0),
    decreases files.len(),
{
    reveal(Seq::filter);
    let has = |f: FileView| !artifact(f.rel_path) && library_of_the_runtime(s.index, f);
    let name = |f: FileView| f.soname->Some_0;
    if files.len() > 0 {
        lemma_matched(s, files.drop_last());
        let f = files.last();
        assert(has(f) <==> fate(s, f) is Matched);
    }
    assert(matched_sonames(s, files) =~= files.filter(has).map_values(name));
}

proof fn lemma_rewritten(s: Setting, files: Seq<FileView>)
    ensures
        s.is_target ==> executable_rewrites(s, files).len() == 0,
        !s.is_target ==> executable_rewrites(s, files) == files.filter(
            |f: FileView| executable_of_the_runtime(s.index, f),
        ).map_values(
            |f: FileView|
                RewriteView {
                    from: f.filepath,
                    to: "/usr/"@ + (match s.index.get2("executables"@, f.fname)->Some_0.get(
                        "path"@,
                    ) {
                        Some(JsonView::Text(path)) => path,
                        _ => Seq::empty(),
                    }),
                    kind: RewriteKind::Executable,
                    referenced_by: None,
                },
        ),
    decreases files.len(),
{
    reveal(Seq::filter);
    let has = |f: FileView| executable_of_the_runtime(s.index, f);
    let rewrite = |f: FileView|
        RewriteView {
            from: f.filepath,
            to: "/usr/"@ + (match s.index.get2("executables"@, f.fname)->Some_0.get("path"@) {
                Some(JsonView::Text(path)) => path,
                _ => Seq::empty(),
            }),
            kind: RewriteKind::Executable,
            referenced_by: None,
        };
    assert("/usr/"@ + Seq::<char>::empty() =~= "/usr/"@);
    if files.len() > 0 {
        lemma_rewritten(s, files.drop_last());
        let f = files.last();
        if !s.is_target {
            assert(has(f) <==> fate(s, f) is Replaced);
            if has(f) {
                assert(fate(s, f)->Replaced_0 == rewrite(f).to);
            }
        }
    }
    if !s.is_target {
        assert(executable_rewrites(s, files) =~= files.filter(has).map_values(rewrite));
    }
}

/// The reason for a classification: whether the store path is there, whether it has files,
/// whether it is the package, and what is kept and dropped of it.
pub proof fn law_reasons(
    store_path: Seq<char>,
    files: Option<Seq<FileView>>,
    index: JsonView,
    target: Seq<char>,
    essential: Set<Seq<char>>,
)
    ensures
        ({
            let c = classification_of(store_path, files, index, target, essential);
            let none = files is None || files->Some_0.len() == 0;
            &&& c.reason == Reason::NotFound <==> files is None
            &&& c.reason == Reason::Empty <==> files is Some && none
            &&& none ==> c.classification == Classification::Drop && c.kept_files.len() == 0
                && c.dropped_files.len() == 0 && c.matched_sonames.len() == 0 && c.rewrites.len()
                == 0
            &&& c.reason == Reason::TargetPackage <==> !none && store_path == target
            &&& c.reason == Reason::AllContentInRuntime <==> !none && store_path != target
                && c.kept_files.len() == 0
            &&& c.reason == Reason::NoRuntimeMatch <==> !none && store_path != target
                && c.dropped_files.len() == 0
            &&& c.reason == Reason::Unstated <==> !none && c.kept_files.len() > 0
                && c.dropped_files.len() > 0
            &&& !none ==> (c.classification == Classification::Drop <==> c.kept_files.len() == 0)
            &&& !none ==> (c.classification == Classification::Keep <==> c.dropped_files.len() == 0)
        }),
{
    if files is Some {
        let s = lemma_setting(store_path, files->Some_0, index, target, essential);
        lemma_file_counts(s, files->Some_0);
        if files->Some_0.len() > 0 {
            law_classification(s, store_path, files->Some_0);
        }
    }
}

/// The reasons as the plan words them.
pub proof fn law_reason_texts()
    ensures
        Reason::NotFound@ == "not-found"@,
        Reason::Empty@ == "empty"@,
        Reason::TargetPackage@ == "target-package"@,
        Reason::NoContent@ == "no-content"@,
        Reason::AllContentInRuntime@ == "all-content-in-runtime"@,
        Reason::NoRuntimeMatch@ == "no-runtime-match"@,
        Reason::OrphanedTransitive@ == "orphaned-transitive"@,
        Reason::Unstated@.len() == 0,
        RewriteKind::Executable@ == "executable"@,
        RewriteKind::StorePathReference@ == "store-path-reference"@,
{
    reveal_strlit("");
}

} // verus!
