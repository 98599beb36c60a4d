//! Which files of a store path are kept, and which the runtime makes redundant.
use vstd::prelude::*;

use crate::json::{has_text, lists_text, Json, JsonView};
use crate::pattern::{is_match, regex_is_match};
use crate::rewrites::{rewrite_views, Rewrite, RewriteKind, RewriteView};
use crate::table::NameSet;
use crate::text::{
    contains, ends_with, glue, glue3, has_infix, lemma_views_push, opt_view, same_text, split,
    split_text, starts_with, views,
};

verus! {

/// A SONAME with a version behind `.so`.
pub const VERSIONED_SONAME_PATTERN: &'static str = r"\.so\.\d+";

// ---------------------------------------------------------------------------
// Kinds of files
// ---------------------------------------------------------------------------

/// Directories that hold what is only needed to build software, or its
/// documentation.
pub open spec fn artifact_dirs() -> Seq<Seq<char>> {
    seq![
        "/include/"@,
        "/lib/pkgconfig/"@,
        "/share/pkgconfig/"@,
        "/share/man/"@,
        "/share/doc/"@,
        "/share/info/"@,
        "/share/aclocal/"@,
        "/share/devhelp/"@,
        "/lib/cmake/"@,
        "/share/cmake/"@,
        "/share/vala/"@,
        "/share/gir-1.0/"@,
        "/share/gtk-doc/"@,
        "/share/bash-completion/"@,
        "/share/zsh/"@,
        "/share/fish/"@,
        "/nix-support/"@,
    ]
}

/// Endings of files that are only needed to build software.
pub open spec fn artifact_suffixes() -> Seq<Seq<char>> {
    seq![
        ".h"@,
        ".hpp"@,
        ".hxx"@,
        ".pc"@,
        ".la"@,
        ".a"@,
        ".o"@,
        ".cmake"@,
        ".gir"@,
    ]
}

/// A file that is only needed to build software, or documentation.
pub open spec fn artifact(rel_path: Seq<char>) -> bool {
    ||| exists|i: int|
        0 <= i < artifact_dirs().len() && has_infix(
            "/"@ + rel_path + "/"@,
            #[trigger] artifact_dirs()[i],
        )
    ||| exists|i: int|
        0 <= i < artifact_suffixes().len() && (#[trigger] artifact_suffixes()[i]).is_suffix_of(
            rel_path,
        )
}

/// A library that programs load by themselves.
pub open spec fn plugin(rel_path: Seq<char>) -> bool {
    let parts = split(rel_path, "/"@);
    &&& parts.first() == "lib"@
    &&& parts.len() >= 3 || ("libnss_"@.is_prefix_of(parts.last()) && has_infix(
        parts.last(),
        ".so."@,
    ))
}

/// A file in a directory of programs.
pub open spec fn executable(rel_path: Seq<char>) -> bool {
    ||| "bin/"@.is_prefix_of(rel_path)
    ||| "sbin/"@.is_prefix_of(rel_path)
    ||| "libexec/"@.is_prefix_of(rel_path)
    ||| has_infix(rel_path, "/bin/"@)
    ||| has_infix(rel_path, "/sbin/"@)
    ||| has_infix(rel_path, "/libexec/"@)
}

/// The name of a shared library.
pub open spec fn library_name(name: Seq<char>) -> bool {
    has_infix(name, ".so"@) && !".py"@.is_suffix_of(name)
}

/// Whether a file is only needed to build software, or is documentation.
pub fn is_build_or_dev_artifact(rel_path: &str) -> (r: bool)
    ensures
        r == artifact(rel_path@),
{
    let dirs: [&str; 17] = [
        "/include/",
        "/lib/pkgconfig/",
        "/share/pkgconfig/",
        "/share/man/",
        "/share/doc/",
        "/share/info/",
        "/share/aclocal/",
        "/share/devhelp/",
        "/lib/cmake/",
        "/share/cmake/",
        "/share/vala/",
        "/share/gir-1.0/",
        "/share/gtk-doc/",
        "/share/bash-completion/",
        "/share/zsh/",
        "/share/fish/",
        "/nix-support/",
    ];
    let suffixes: [&str; 9] = [".h", ".hpp", ".hxx", ".pc", ".la", ".a", ".o", ".cmake", ".gir"];
    let padded: String = glue3("/", rel_path, "/");
    let mut i: usize = 0;
    while i < 17
        invariant
            i <= 17,
            padded@ == "/"@ + rel_path@ + "/"@,
            artifact_dirs().len() == 17,
            forall|k: int| 0 <= k < 17 ==> (#[trigger] dirs@[k])@ == artifact_dirs()[k],
            forall|k: int|
                0 <= k < i ==> !has_infix(padded@, #[trigger] artifact_dirs()[k]),
        decreases 17 - i,
    {
        proof {
            assert(dirs@[i as int]@ == artifact_dirs()[i as int]);
        }
        if contains(&padded, dirs[i]) {
            return true;
        }
        i += 1;
    }
    let mut j: usize = 0;
    while j < 9
        invariant
            j <= 9,
            artifact_suffixes().len() == 9,
            forall|k: int| 0 <= k < 9 ==> (#[trigger] suffixes@[k])@ == artifact_suffixes()[k],
            forall|k: int|
                0 <= k < j ==> !(#[trigger] artifact_suffixes()[k]).is_suffix_of(rel_path@),
        decreases 9 - j,
    {
        proof {
            assert(suffixes@[j as int]@ == artifact_suffixes()[j as int]);
        }
        if ends_with(rel_path, suffixes[j]) {
            return true;
        }
        j += 1;
    }
    false
}

/// Plugin .so files are loaded via dlopen, not DT_NEEDED.
/// If the parent library is provided by the runtime, we should drop
/// the plugin in favour of the runtime's own copy.
pub fn is_plugin_so(rel_path: &str) -> (r: bool)
    ensures
        r == plugin(rel_path@),
{
    proof {
        reveal_strlit("/");
    }
    let parts: Vec<String> = split_text(rel_path, "/");
    let last: &String = &parts[parts.len() - 1];
    proof {
        assert(views(parts@).first() == parts@[0]@);
        assert(views(parts@).last() == last@);
    }
    if !same_text(&parts[0], "lib") {
        return false;
    }
    // .so files in subdirectories of lib/ are always plugins
    if parts.len() >= 3 {
        return true;
    }
    // NSS modules are glibc plugins (loaded via nsswitch.conf)
    starts_with(last, "libnss_") && contains(last, ".so.")
}

/// Whether a file is in a directory of programs.
pub fn is_executable_path(rel_path: &str) -> (r: bool)
    ensures
        r == executable(rel_path@),
{
    starts_with(rel_path, "bin/") || starts_with(rel_path, "sbin/") || starts_with(
        rel_path,
        "libexec/",
    ) || contains(rel_path, "/bin/") || contains(rel_path, "/sbin/") || contains(
        rel_path,
        "/libexec/",
    )
}

/// Whether a file is to be looked at for a SONAME.
pub fn is_library_name(name: &str) -> (r: bool)
    ensures
        r == library_name(name@),
{
    contains(name, ".so") && !ends_with(name, ".py")
}

/// Whether an entry below a store path is one of its files: a regular file, or a
/// symbolic link that resolves to one. SONAME links (libfoo.so.3 → libfoo.so.3.1.0)
/// are listed and copied as the files that they lead to.
pub fn is_content(is_file: bool, is_symlink: bool, resolves_to_file: bool) -> (r: bool)
    ensures
        r == (is_file || (is_symlink && resolves_to_file)),
{
    is_file || (is_symlink && resolves_to_file)
}

// ---------------------------------------------------------------------------
// Model of the classification
// ---------------------------------------------------------------------------

/// A file of a store path.
pub struct FileInfo {
    /// The whole path.
    pub filepath: String,
    /// The last component of the path.
    pub fname: String,
    /// The path below the store path.
    pub rel_path: String,
    /// The SONAME, where the file has one.
    pub soname: Option<String>,
    /// Whether the file is a symbolic link.
    pub is_symlink: bool,
}

/// The model of a file of a store path.
pub struct FileView {
    pub filepath: Seq<char>,
    pub fname: Seq<char>,
    pub rel_path: Seq<char>,
    pub soname: Option<Seq<char>>,
    pub is_symlink: bool,
}

impl FileInfo {
    pub open spec fn view(self) -> FileView {
        FileView {
            filepath: self.filepath@,
            fname: self.fname@,
            rel_path: self.rel_path@,
            soname: opt_view(self.soname),
            is_symlink: self.is_symlink,
        }
    }
}

pub open spec fn file_views(files: Seq<FileInfo>) -> Seq<FileView> {
    files.map_values(|f: FileInfo| f.view())
}

/// What a store path as a whole is for.
#[derive(Clone, Copy, PartialEq, Eq, Structural, Debug)]
pub enum Classification {
    Keep,
    Drop,
    Partial,
}

/// Why a store path is kept or dropped.
#[derive(Clone, Copy, PartialEq, Eq, Structural, Debug)]
pub enum Reason {
    NotFound,
    Empty,
    TargetPackage,
    NoContent,
    AllContentInRuntime,
    NoRuntimeMatch,
    OrphanedTransitive,
    Unstated,
}

impl Reason {
    pub open spec fn view(self) -> Seq<char> {
        match self {
            Reason::NotFound => "not-found"@,
            Reason::Empty => "empty"@,
            Reason::TargetPackage => "target-package"@,
            Reason::NoContent => "no-content"@,
            Reason::AllContentInRuntime => "all-content-in-runtime"@,
            Reason::NoRuntimeMatch => "no-runtime-match"@,
            Reason::OrphanedTransitive => "orphaned-transitive"@,
            Reason::Unstated => ""@,
        }
    }

    pub fn text(self) -> (r: &'static str)
        ensures
            r@ == self@,
    {
        match self {
            Reason::NotFound => "not-found",
            Reason::Empty => "empty",
            Reason::TargetPackage => "target-package",
            Reason::NoContent => "no-content",
            Reason::AllContentInRuntime => "all-content-in-runtime",
            Reason::NoRuntimeMatch => "no-runtime-match",
            Reason::OrphanedTransitive => "orphaned-transitive",
            Reason::Unstated => "",
        }
    }
}

/// What becomes of a file.
pub enum Fate {
    Keep,
    Drop,
    /// Dropped for a library of the runtime with that SONAME.
    Matched(Seq<char>),
    /// Dropped for an executable of the runtime at that path.
    Replaced(Seq<char>),
}

/// The runtime has a library with that SONAME.
pub open spec fn runtime_soname(index: JsonView, soname: Seq<char>) -> bool {
    index.get2("sonames"@, soname) is Some
}

/// The runtime has an executable with that name.
pub open spec fn runtime_executable(index: JsonView, name: Seq<char>) -> bool {
    index.get2("executables"@, name) is Some
}

/// Where the runtime has an executable.
pub open spec fn runtime_executable_path(index: JsonView, name: Seq<char>) -> Seq<char> {
    match index.get2("executables"@, name)->Some_0.text_at("path"@) {
        Some(path) => "/usr/"@ + path,
        None => "/usr/"@,
    }
}

/// The runtime lists a name among its data of one kind.
pub open spec fn runtime_lists(index: JsonView, kind: Seq<char>, name: Seq<char>) -> bool {
    match index.get2("data"@, kind) {
        Some(v) => match v.list() {
            Some(list) => lists_text(list, name),
            None => false,
        },
        None => false,
    }
}

/// The icon theme of a file: the component of its path behind the first `icons`.
pub open spec fn icon_theme(rel_path: Seq<char>) -> Option<Seq<char>> {
    let parts = split(rel_path, "/"@);
    let at = parts.index_of_first("icons"@);
    match at {
        Some(i) => if i + 1 < parts.len() {
            Some(parts[i + 1])
        } else {
            None
        },
        None => None,
    }
}

/// A data file that the runtime has too, or that is never shipped.
pub open spec fn data_redundant(index: JsonView, is_target: bool, f: FileView) -> bool {
    ||| has_infix(f.rel_path, "share/glib-2.0/schemas/"@) && ".xml"@.is_suffix_of(f.fname)
        && runtime_lists(index, "glib-schemas"@, f.fname)
    ||| has_infix(f.rel_path, "girepository-1.0/"@) && ".typelib"@.is_suffix_of(f.fname)
        && runtime_lists(index, "typelibs"@, f.fname)
    ||| has_infix(f.rel_path, "share/locale/"@)
    ||| has_infix(f.rel_path, "share/icons/"@) && !is_target && (icon_theme(
        f.rel_path,
    ) matches Some(theme) && runtime_lists(index, "icon-themes"@, theme))
}

/// What the classification of a store path depends on besides its files.
pub struct Setting {
    pub index: JsonView,
    /// The store path is the package itself.
    pub is_target: bool,
    /// The store path is among the essential dependencies of the package.
    pub is_essential: bool,
    /// A library of the store path has a SONAME with a version that the runtime
    /// has too.
    pub versioned: bool,
    /// A library of the store path has a SONAME that the runtime has too.
    pub matched: bool,
}

/// What becomes of a file.
pub open spec fn fate(s: Setting, f: FileView) -> Fate {
    if artifact(f.rel_path) {
        Fate::Drop
    } else if library_name(f.fname) {
        match f.soname {
            Some(soname) => if runtime_soname(s.index, soname) {
                Fate::Matched(soname)
            } else if s.versioned && plugin(f.rel_path) {
                Fate::Drop
            } else {
                Fate::Keep
            },
            None => if f.is_symlink || s.matched {
                Fate::Drop
            } else {
                Fate::Keep
            },
        }
    } else if executable(f.rel_path) {
        if s.is_target {
            Fate::Keep
        } else if runtime_executable(s.index, f.fname) {
            Fate::Replaced(runtime_executable_path(s.index, f.fname))
        } else if s.is_essential {
            Fate::Keep
        } else {
            Fate::Drop
        }
    } else if data_redundant(s.index, s.is_target, f) {
        Fate::Drop
    } else {
        Fate::Keep
    }
}

/// The files that are kept one by one.
pub open spec fn kept(s: Setting, files: Seq<FileView>) -> Seq<Seq<char>>
    decreases files.len(),
{
    if files.len() == 0 {
        seq![]
    } else {
        let before = kept(s, files.drop_last());
        if fate(s, files.last()) is Keep {
            before.push(files.last().rel_path)
        } else {
            before
        }
    }
}

/// The files that are dropped one by one.
pub open spec fn dropped(s: Setting, files: Seq<FileView>) -> Seq<Seq<char>>
    decreases files.len(),
{
    if files.len() == 0 {
        seq![]
    } else {
        let before = dropped(s, files.drop_last());
        if fate(s, files.last()) is Keep {
            before
        } else {
            before.push(files.last().rel_path)
        }
    }
}

/// The SONAMEs for which files are dropped.
pub open spec fn matched_sonames(s: Setting, files: Seq<FileView>) -> Seq<Seq<char>>
    decreases files.len(),
{
    if files.len() == 0 {
        seq![]
    } else {
        let before = matched_sonames(s, files.drop_last());
        match fate(s, files.last()) {
            Fate::Matched(soname) => before.push(soname),
            _ => before,
        }
    }
}

/// The rewrites of executables that the runtime has.
pub open spec fn executable_rewrites(s: Setting, files: Seq<FileView>) -> Seq<RewriteView>
    decreases files.len(),
{
    if files.len() == 0 {
        seq![]
    } else {
        let before = executable_rewrites(s, files.drop_last());
        match fate(s, files.last()) {
            Fate::Replaced(to) => before.push(
                RewriteView {
                    from: files.last().filepath,
                    to,
                    kind: RewriteKind::Executable,
                    referenced_by: None,
                },
            ),
            _ => before,
        }
    }
}

/// Some of the paths is that of a library.
pub open spec fn any_library(paths: Seq<Seq<char>>) -> bool {
    exists|i: int| 0 <= i < paths.len() && library_name(#[trigger] paths[i])
}

/// Some of the paths is that of an executable.
pub open spec fn any_executable(paths: Seq<Seq<char>>) -> bool {
    exists|i: int| 0 <= i < paths.len() && executable(#[trigger] paths[i])
}

/// What is left of a store path is not worth keeping: its libraries or
/// executables were dropped, and what is left holds no library, and no
/// executable unless the store path is one of libraries.
pub open spec fn remainder_redundant(
    s: Setting,
    keep: Seq<Seq<char>>,
    drop: Seq<Seq<char>>,
) -> bool {
    &&& !s.is_target
    &&& keep.len() > 0
    &&& s.versioned || any_executable(drop)
    &&& !any_library(keep)
    &&& !any_executable(keep) || s.versioned
}

/// The model of the classification of a store path.
pub struct ClassView {
    pub store_path: Seq<char>,
    pub classification: Classification,
    pub reason: Reason,
    pub kept_files: Seq<Seq<char>>,
    pub dropped_files: Seq<Seq<char>>,
    pub matched_sonames: Seq<Seq<char>>,
    pub rewrites: Seq<RewriteView>,
}

/// The classification and its reason, from what is kept and dropped.
pub open spec fn verdict(
    is_target: bool,
    files: nat,
    keep: nat,
    drop: nat,
) -> (Classification, Reason) {
    if files == 0 {
        (Classification::Drop, Reason::Empty)
    } else if is_target {
        (Classification::Keep, Reason::TargetPackage)
    } else if keep == 0 && drop == 0 {
        (Classification::Drop, Reason::NoContent)
    } else if keep == 0 {
        (Classification::Drop, Reason::AllContentInRuntime)
    } else if drop == 0 {
        (Classification::Keep, Reason::NoRuntimeMatch)
    } else {
        (Classification::Partial, Reason::Unstated)
    }
}

/// The classification of a store path with the given files.
pub open spec fn classified(s: Setting, store_path: Seq<char>, files: Seq<FileView>) -> ClassView {
    let keep = kept(s, files);
    let drop = dropped(s, files);
    let redundant = remainder_redundant(s, keep, drop);
    let keep2 = if redundant {
        seq![]
    } else {
        keep
    };
    let drop2 = if redundant {
        drop + keep
    } else {
        drop
    };
    let v = verdict(s.is_target, files.len(), keep2.len(), drop2.len());
    ClassView {
        store_path,
        classification: v.0,
        reason: v.1,
        kept_files: if s.is_target {
            keep2 + drop2
        } else {
            keep2
        },
        dropped_files: if s.is_target {
            seq![]
        } else {
            drop2
        },
        matched_sonames: matched_sonames(s, files),
        rewrites: executable_rewrites(s, files),
    }
}

/// A library file with a SONAME that the runtime has too.
pub open spec fn file_matches(index: JsonView, f: FileView) -> bool {
    library_name(f.fname) && (f.soname matches Some(soname) && runtime_soname(index, soname))
}

/// A library file with a SONAME with a version that the runtime has too.
pub open spec fn file_matches_versioned(index: JsonView, f: FileView) -> bool {
    file_matches(index, f) && regex_is_match(VERSIONED_SONAME_PATTERN@, f.soname->Some_0)
}

pub open spec fn any_matches(index: JsonView, files: Seq<FileView>) -> bool {
    exists|i: int| 0 <= i < files.len() && file_matches(index, #[trigger] files[i])
}

pub open spec fn any_matches_versioned(index: JsonView, files: Seq<FileView>) -> bool {
    exists|i: int| 0 <= i < files.len() && file_matches_versioned(index, #[trigger] files[i])
}

/// The classification of a store path. There are no files where it does not
/// exist.
pub open spec fn classification_of(
    store_path: Seq<char>,
    files: Option<Seq<FileView>>,
    index: JsonView,
    target: Seq<char>,
    essential: Set<Seq<char>>,
) -> ClassView {
    match files {
        None => ClassView {
            store_path,
            classification: Classification::Drop,
            reason: Reason::NotFound,
            kept_files: seq![],
            dropped_files: seq![],
            matched_sonames: seq![],
            rewrites: seq![],
        },
        Some(files) => classified(
            Setting {
                index,
                is_target: store_path == target,
                is_essential: essential.contains(store_path),
                versioned: any_matches_versioned(index, files),
                matched: any_matches(index, files),
            },
            store_path,
            files,
        ),
    }
}

// ---------------------------------------------------------------------------
// Laws
// ---------------------------------------------------------------------------

/// The paths of files below their store path.
pub open spec fn rel_paths(files: Seq<FileView>) -> Seq<Seq<char>> {
    files.map_values(|f: FileView| f.rel_path)
}

/// A file that the runtime provides: a library with the same SONAME, an executable
/// with the same name, or a data file that it lists.
pub open spec fn provided_by_runtime(index: JsonView, f: FileView) -> bool {
    if library_name(f.fname) {
        f.soname matches Some(soname) && runtime_soname(index, soname)
    } else if executable(f.rel_path) {
        runtime_executable(index, f.fname)
    } else {
        ||| has_infix(f.rel_path, "share/glib-2.0/schemas/"@) && ".xml"@.is_suffix_of(f.fname)
            && runtime_lists(index, "glib-schemas"@, f.fname)
        ||| has_infix(f.rel_path, "girepository-1.0/"@) && ".typelib"@.is_suffix_of(f.fname)
            && runtime_lists(index, "typelibs"@, f.fname)
        ||| has_infix(f.rel_path, "share/icons/"@) && (icon_theme(f.rel_path) matches Some(theme)
            && runtime_lists(index, "icon-themes"@, theme))
    }
}

proof fn lemma_split_files(s: Setting, files: Seq<FileView>)
    ensures
        kept(s, files).to_multiset().add(dropped(s, files).to_multiset()) == rel_paths(
            files,
        ).to_multiset(),
    decreases files.len(),
{
    broadcast use vstd::seq_lib::group_to_multiset_ensures;

    let all = rel_paths(files);
    if files.len() == 0 {
        assert(all =~= kept(s, files));
        assert(kept(s, files).to_multiset().add(dropped(s, files).to_multiset())
            =~= all.to_multiset());
    } else {
        let rest = files.drop_last();
        lemma_split_files(s, rest);
        assert(all =~= rel_paths(rest).push(files.last().rel_path));
        assert(kept(s, files).to_multiset().add(dropped(s, files).to_multiset())
            =~= all.to_multiset());
    }
}

/// Each file of a store path is either kept or dropped, as often as it is there.
pub proof fn law_each_file_is_kept_or_dropped(
    s: Setting,
    store_path: Seq<char>,
    files: Seq<FileView>,
)
    ensures
        classified(s, store_path, files).kept_files.to_multiset().add(
            classified(s, store_path, files).dropped_files.to_multiset(),
        ) == rel_paths(files).to_multiset(),
{
    broadcast use vstd::seq_lib::group_to_multiset_ensures;

    let keep = kept(s, files);
    let drop = dropped(s, files);
    let c = classified(s, store_path, files);
    lemma_split_files(s, files);
    vstd::seq_lib::lemma_multiset_commutative(keep, drop);
    vstd::seq_lib::lemma_multiset_commutative(drop, keep);
    assert(c.kept_files.to_multiset().add(c.dropped_files.to_multiset()) =~= rel_paths(
        files,
    ).to_multiset());
}

proof fn lemma_kept_file(s: Setting, files: Seq<FileView>, path: Seq<char>)
    requires
        kept(s, files).contains(path),
    ensures
        exists|k: int|
            0 <= k < files.len() && (#[trigger] files[k]).rel_path == path && fate(s, files[k]) is Keep,
    decreases files.len(),
{
    if files.len() > 0 {
        let rest = files.drop_last();
        let before = kept(s, rest);
        let all = kept(s, files);
        let i = all.index_of(path);
        if i < before.len() {
            assert(before[i] == path);
            lemma_kept_file(s, rest, path);
            let k = choose|k: int|
                0 <= k < rest.len() && (#[trigger] rest[k]).rel_path == path && fate(
                    s,
                    rest[k],
                ) is Keep;
            assert(files[k] == rest[k]);
        } else {
            assert(files[files.len() - 1].rel_path == path);
        }
    }
}

proof fn lemma_dropped_file(s: Setting, files: Seq<FileView>, k: int)
    requires
        0 <= k < files.len(),
        !(fate(s, files[k]) is Keep),
    ensures
        dropped(s, files).contains(files[k].rel_path),
    decreases files.len(),
{
    let rest = files.drop_last();
    let before = dropped(s, rest);
    let all = dropped(s, files);
    if k < rest.len() {
        lemma_dropped_file(s, rest, k);
        let i = before.index_of(files[k].rel_path);
        assert(all[i] == files[k].rel_path);
    } else {
        assert(all[before.len() as int] == files[k].rel_path);
    }
}

/// The package itself is kept whole, and nothing of it is rewritten.
pub proof fn law_target_is_kept_whole(s: Setting, store_path: Seq<char>, files: Seq<FileView>)
    requires
        s.is_target,
    ensures
        classified(s, store_path, files).dropped_files.len() == 0,
        classified(s, store_path, files).rewrites.len() == 0,
        files.len() > 0 ==> classified(s, store_path, files).classification
            == Classification::Keep,
    decreases files.len(),
{
    if files.len() > 0 {
        law_target_is_kept_whole(s, store_path, files.drop_last());
    }
}

/// Files that are only needed to build software, and documentation, are not kept
/// of other store paths than the package itself.
pub proof fn law_artifacts_are_dropped(
    s: Setting,
    store_path: Seq<char>,
    files: Seq<FileView>,
    path: Seq<char>,
)
    requires
        !s.is_target,
        classified(s, store_path, files).kept_files.contains(path),
    ensures
        !artifact(path),
{
    assert(kept(s, files).contains(path));
    lemma_kept_file(s, files, path);
}

/// Files that the runtime provides are redundant and dropped, of other store paths
/// than the package itself.
pub proof fn law_provided_files_are_dropped(
    s: Setting,
    store_path: Seq<char>,
    files: Seq<FileView>,
    k: int,
)
    requires
        !s.is_target,
        0 <= k < files.len(),
        provided_by_runtime(s.index, files[k]),
    ensures
        classified(s, store_path, files).dropped_files.contains(files[k].rel_path),
{
    lemma_dropped_file(s, files, k);
    let drop = dropped(s, files);
    let i = drop.index_of(files[k].rel_path);
    assert(classified(s, store_path, files).dropped_files[i] == files[k].rel_path);
}

/// A store path is dropped where nothing of it is kept, kept where nothing of it
/// is dropped, and kept in part where something of it is kept and something
/// dropped. The package itself is kept.
pub proof fn law_classification(s: Setting, store_path: Seq<char>, files: Seq<FileView>)
    requires
        files.len() > 0,
    ensures
        ({
            let c = classified(s, store_path, files);
            &&& c.classification == Classification::Drop <==> c.kept_files.len() == 0
            &&& c.classification == Classification::Keep <==> c.dropped_files.len() == 0
            &&& c.classification == Classification::Partial <==> c.kept_files.len() > 0
                && c.dropped_files.len() > 0
        }),
{
    lemma_file_counts(s, files);
}

pub proof fn lemma_file_counts(s: Setting, files: Seq<FileView>)
    ensures
        kept(s, files).len() + dropped(s, files).len() == files.len(),
    decreases files.len(),
{
    if files.len() > 0 {
        lemma_file_counts(s, files.drop_last());
    }
}

/// What is rewritten for an executable of the runtime is a file of the store path
/// with the name of that executable.
pub proof fn law_executable_rewrites(s: Setting, files: Seq<FileView>, i: int)
    requires
        0 <= i < executable_rewrites(s, files).len(),
    ensures
        exists|k: int|
            0 <= k < files.len() && executable_rewrites(s, files)[i].from == (
            #[trigger] files[k]).filepath && runtime_executable(s.index, files[k].fname)
                && executable_rewrites(s, files)[i].to == runtime_executable_path(
                s.index,
                files[k].fname,
            ),
    decreases files.len(),
{
    if files.len() > 0 {
        let rest = files.drop_last();
        let before = executable_rewrites(s, rest);
        let all = executable_rewrites(s, files);
        if i < before.len() {
            law_executable_rewrites(s, rest, i);
            let k = choose|k: int|
                0 <= k < rest.len() && before[i].from == (#[trigger] rest[k]).filepath
                    && runtime_executable(s.index, rest[k].fname) && before[i].to
                    == runtime_executable_path(s.index, rest[k].fname);
            assert(files[k] == rest[k]);
            assert(all[i] == before[i]);
        } else {
            assert(files[files.len() - 1] == files.last());
        }
    }
}

// ---------------------------------------------------------------------------
// Classification
// ---------------------------------------------------------------------------

/// The classification of a store path.
pub struct ClassifyResult {
    pub store_path: String,
    pub classification: Classification,
    pub reason: Reason,
    pub kept_files: Vec<String>,
    pub dropped_files: Vec<String>,
    pub matched_sonames: Vec<String>,
    pub rewrites: Vec<Rewrite>,
}

impl ClassifyResult {
    pub open spec fn view(self) -> ClassView {
        ClassView {
            store_path: self.store_path@,
            classification: self.classification,
            reason: self.reason,
            kept_files: views(self.kept_files@),
            dropped_files: views(self.dropped_files@),
            matched_sonames: views(self.matched_sonames@),
            rewrites: rewrite_views(self.rewrites@),
        }
    }
}

fn in_runtime(index: &Json, soname: &str) -> (r: bool)
    ensures
        r == runtime_soname(index@, soname@),
{
    index.get2("sonames", soname).is_some()
}

fn listed_in_runtime(index: &Json, kind: &str, name: &str) -> (r: bool)
    ensures
        r == runtime_lists(index@, kind@, name@),
{
    match index.get2("data", kind) {
        Some(v) => match v.list() {
            Some(list) => has_text(list, name),
            None => false,
        },
        None => false,
    }
}

/// The icon theme of a file.
fn theme_of(rel_path: &str) -> (r: Option<String>)
    ensures
        opt_view(r) == icon_theme(rel_path@),
{
    proof {
        reveal_strlit("/");
    }
    let parts: Vec<String> = split_text(rel_path, "/");
    let ghost v = views(parts@);
    let n: usize = parts.len();
    let mut i: usize = 0;
    while i < n
        invariant
            n == parts@.len(),
            v == views(parts@),
            v == split(rel_path@, "/"@),
            i <= n,
            forall|k: int| 0 <= k < i ==> v[k] != "icons"@,
        decreases n - i,
    {
        if same_text(&parts[i], "icons") {
            proof {
                assert(v[i as int] == "icons"@);
                assert(v.contains("icons"@));
                v.index_of_first_ensures("icons"@);
                let f = v.index_of_first("icons"@)->Some_0;
                assert(v[f] == "icons"@);
                assert(f == i);
            }
            if i + 1 < n {
                return Some(parts[i + 1].clone());
            }
            return None;
        }
        proof {
            assert(v[i as int] == parts@[i as int]@);
        }
        i += 1;
    }
    proof {
        assert(!v.contains("icons"@));
        v.index_of_first_ensures("icons"@);
    }
    None
}

fn is_data_redundant(index: &Json, is_target: bool, f: &FileInfo) -> (r: bool)
    ensures
        r == data_redundant(index@, is_target, f@),
{
    if contains(&f.rel_path, "share/glib-2.0/schemas/") && ends_with(&f.fname, ".xml")
        && listed_in_runtime(index, "glib-schemas", &f.fname) {
        return true;
    }
    if contains(&f.rel_path, "girepository-1.0/") && ends_with(&f.fname, ".typelib")
        && listed_in_runtime(index, "typelibs", &f.fname) {
        return true;
    }
    if contains(&f.rel_path, "share/locale/") {
        return true;
    }
    if contains(&f.rel_path, "share/icons/") && !is_target {
        match theme_of(&f.rel_path) {
            Some(theme) => {
                return listed_in_runtime(index, "icon-themes", &theme);
            },
            None => {},
        }
    }
    false
}

/// What becomes of a file.
pub enum FileFate {
    Keep,
    Drop,
    Matched(String),
    Replaced(String),
}

impl FileFate {
    pub open spec fn view(self) -> Fate {
        match self {
            FileFate::Keep => Fate::Keep,
            FileFate::Drop => Fate::Drop,
            FileFate::Matched(s) => Fate::Matched(s@),
            FileFate::Replaced(s) => Fate::Replaced(s@),
        }
    }
}

/// What becomes of a file.
pub fn file_fate(
    f: &FileInfo,
    runtime_index: &Json,
    is_target: bool,
    is_essential: bool,
    versioned: bool,
    matched: bool,
) -> (r: FileFate)
    ensures
        r@ == fate(
            Setting { index: runtime_index@, is_target, is_essential, versioned, matched },
            f@,
        ),
{
    // Build/dev artifacts: always drop
    if is_build_or_dev_artifact(&f.rel_path) {
        return FileFate::Drop;
    }
    // Libraries
    if is_library_name(&f.fname) {
        return match &f.soname {
            Some(soname) => if in_runtime(runtime_index, soname) {
                FileFate::Matched(soname.clone())
            } else if versioned && is_plugin_so(&f.rel_path) {
                // A plugin whose parent library is runtime-provided
                FileFate::Drop
            } else {
                FileFate::Keep
            },
            // A development link, or an unversioned library beside a dropped one
            None => if f.is_symlink || matched {
                FileFate::Drop
            } else {
                FileFate::Keep
            },
        };
    }
    // Executables
    if is_executable_path(&f.rel_path) {
        if is_target {
            return FileFate::Keep;
        }
        return match runtime_index.get2("executables", &f.fname) {
            Some(info) => match info.text_at("path") {
                Some(path) => FileFate::Replaced(glue("/usr/", path)),
                None => FileFate::Replaced("/usr/".to_owned()),
            },
            None => if is_essential {
                FileFate::Keep
            } else {
                FileFate::Drop
            },
        };
    }
    // Data files
    if is_data_redundant(runtime_index, is_target, f) {
        FileFate::Drop
    } else {
        FileFate::Keep
    }
}

fn has_library(paths: &Vec<String>) -> (r: bool)
    ensures
        r == any_library(views(paths@)),
{
    let ghost v = views(paths@);
    let mut i: usize = 0;
    while i < paths.len()
        invariant
            i <= paths@.len(),
            v == views(paths@),
            forall|k: int| 0 <= k < i ==> !library_name(#[trigger] v[k]),
        decreases paths@.len() - i,
    {
        proof {
            assert(v[i as int] == paths@[i as int]@);
        }
        if is_library_name(&paths[i]) {
            return true;
        }
        i += 1;
    }
    false
}

fn has_executable(paths: &Vec<String>) -> (r: bool)
    ensures
        r == any_executable(views(paths@)),
{
    let ghost v = views(paths@);
    let mut i: usize = 0;
    while i < paths.len()
        invariant
            i <= paths@.len(),
            v == views(paths@),
            forall|k: int| 0 <= k < i ==> !executable(#[trigger] v[k]),
        decreases paths@.len() - i,
    {
        proof {
            assert(v[i as int] == paths@[i as int]@);
        }
        if is_executable_path(&paths[i]) {
            return true;
        }
        i += 1;
    }
    false
}

/// Moves all strings from one list to the end of another.
fn move_all(to: &mut Vec<String>, from: &mut Vec<String>)
    ensures
        views(final(to)@) == views(old(to)@) + views(old(from)@),
        views(final(from)@) == Seq::<Seq<char>>::empty(),
{
    to.append(from);
    proof {
        assert(views(to@) =~= views(old(to)@) + views(old(from)@));
        assert(views(from@) =~= Seq::<Seq<char>>::empty());
    }
}

/// Classifies a store path with the given files.
pub fn classify_files(
    store_path: &str,
    files: &Vec<FileInfo>,
    runtime_index: &Json,
    is_target: bool,
    is_essential: bool,
    versioned: bool,
    matched: bool,
) -> (r: ClassifyResult)
    ensures
        r@ == classified(
            Setting { index: runtime_index@, is_target, is_essential, versioned, matched },
            store_path@,
            file_views(files@),
        ),
{
    let ghost s = Setting {
        index: runtime_index@,
        is_target,
        is_essential,
        versioned,
        matched,
    };
    let ghost all = file_views(files@);
    let mut kept_files: Vec<String> = Vec::new();
    let mut dropped_files: Vec<String> = Vec::new();
    let mut sonames: Vec<String> = Vec::new();
    let mut rewrites: Vec<Rewrite> = Vec::new();
    let mut i: usize = 0;
    proof {
        assert(views(kept_files@) =~= kept(s, all.take(0)));
        assert(views(dropped_files@) =~= dropped(s, all.take(0)));
        assert(views(sonames@) =~= matched_sonames(s, all.take(0)));
        assert(rewrite_views(rewrites@) =~= executable_rewrites(s, all.take(0)));
    }
    while i < files.len()
        invariant
            i <= files@.len(),
            all == file_views(files@),
            s == (Setting { index: runtime_index@, is_target, is_essential, versioned, matched }),
            views(kept_files@) == kept(s, all.take(i as int)),
            views(dropped_files@) == dropped(s, all.take(i as int)),
            views(sonames@) == matched_sonames(s, all.take(i as int)),
            rewrite_views(rewrites@) == executable_rewrites(s, all.take(i as int)),
        decreases files@.len() - i,
    {
        let f: &FileInfo = &files[i];
        let rel_path: String = f.rel_path.clone();
        proof {
            let t = all.take(i as int + 1);
            assert(t.drop_last() =~= all.take(i as int));
            assert(t.last() == f@);
            lemma_views_push(kept_files@, rel_path);
            lemma_views_push(dropped_files@, rel_path);
        }
        match file_fate(f, runtime_index, is_target, is_essential, versioned, matched) {
            FileFate::Keep => {
                kept_files.push(rel_path);
            },
            FileFate::Drop => {
                dropped_files.push(rel_path);
            },
            FileFate::Matched(soname) => {
                proof {
                    lemma_views_push(sonames@, soname);
                }
                sonames.push(soname);
                dropped_files.push(rel_path);
            },
            FileFate::Replaced(to) => {
                let rewrite: Rewrite = Rewrite {
                    from: f.filepath.clone(),
                    to,
                    kind: RewriteKind::Executable,
                    referenced_by: None,
                };
                proof {
                    assert(rewrite_views(rewrites@.push(rewrite)) =~= rewrite_views(rewrites@).push(
                        rewrite@,
                    ));
                }
                rewrites.push(rewrite);
                dropped_files.push(rel_path);
            },
        }
        i += 1;
    }
    proof {
        assert(all.take(i as int) =~= all);
    }
    // Second pass: if primary content is runtime-provided and no unique
    // libraries or executables remain, drop everything.
    if !is_target && kept_files.len() > 0 && (versioned || has_executable(&dropped_files))
        && !has_library(&kept_files) && (!has_executable(&kept_files) || versioned) {
        move_all(&mut dropped_files, &mut kept_files);
    }
    let ghost keep_len = kept_files@.len();
    let ghost drop_len = dropped_files@.len();
    let (classification, reason): (Classification, Reason) = if files.len() == 0 {
        (Classification::Drop, Reason::Empty)
    } else if is_target {
        (Classification::Keep, Reason::TargetPackage)
    } else if kept_files.len() == 0 && dropped_files.len() == 0 {
        (Classification::Drop, Reason::NoContent)
    } else if kept_files.len() == 0 {
        (Classification::Drop, Reason::AllContentInRuntime)
    } else if dropped_files.len() == 0 {
        (Classification::Keep, Reason::NoRuntimeMatch)
    } else {
        (Classification::Partial, Reason::Unstated)
    };
    if is_target {
        // Target keeps everything
        move_all(&mut kept_files, &mut dropped_files);
    }
    let r: ClassifyResult = ClassifyResult {
        store_path: store_path.to_owned(),
        classification,
        reason,
        kept_files,
        dropped_files,
        matched_sonames: sonames,
        rewrites,
    };
    proof {
        assert(r@.kept_files == classified(s, store_path@, all).kept_files);
        assert(r@.dropped_files == classified(s, store_path@, all).dropped_files);
    }
    r
}

/// Whether some library file has a SONAME that the runtime has too, and whether
/// one of those has a version.
fn runtime_matches(files: &Vec<FileInfo>, runtime_index: &Json) -> (r: (bool, bool))
    ensures
        r.0 == any_matches(runtime_index@, file_views(files@)),
        r.1 == any_matches_versioned(runtime_index@, file_views(files@)),
{
    let ghost all = file_views(files@);
    let ghost index = runtime_index@;
    let mut matched: bool = false;
    let mut versioned: bool = false;
    let mut i: usize = 0;
    while i < files.len()
        invariant
            i <= files@.len(),
            all == file_views(files@),
            index == runtime_index@,
            matched == exists|k: int| 0 <= k < i && file_matches(index, #[trigger] all[k]),
            versioned == exists|k: int|
                0 <= k < i && file_matches_versioned(index, #[trigger] all[k]),
        decreases files@.len() - i,
    {
        let f: &FileInfo = &files[i];
        proof {
            assert(all[i as int] == f@);
        }
        if is_library_name(&f.fname) {
            match &f.soname {
                Some(soname) => {
                    if in_runtime(runtime_index, soname) {
                        matched = true;
                        if is_match(VERSIONED_SONAME_PATTERN, soname) {
                            versioned = true;
                        }
                    }
                },
                None => {},
            }
        }
        i += 1;
    }
    (matched, versioned)
}

/// Classifies a store path by comparing its files with the runtime. `files` is
/// what the store path holds, and `None` where it does not exist.
pub fn classify_store_path(
    store_path: &str,
    files: Option<&Vec<FileInfo>>,
    runtime_index: &Json,
    target_package: &str,
    essential_deps: &NameSet,
) -> (r: ClassifyResult)
    ensures
        r@ == classification_of(
            store_path@,
            match files {
                Some(f) => Some(file_views(f@)),
                None => None,
            },
            runtime_index@,
            target_package@,
            essential_deps@,
        ),
{
    match files {
        None => {
            let r: ClassifyResult = ClassifyResult {
                store_path: store_path.to_owned(),
                classification: Classification::Drop,
                reason: Reason::NotFound,
                kept_files: Vec::new(),
                dropped_files: Vec::new(),
                matched_sonames: Vec::new(),
                rewrites: Vec::new(),
            };
            proof {
                assert(r@.kept_files =~= seq![]);
                assert(r@.dropped_files =~= seq![]);
                assert(r@.matched_sonames =~= seq![]);
                assert(r@.rewrites =~= seq![]);
            }
            r
        },
        Some(files) => {
            let (matched, versioned): (bool, bool) = runtime_matches(files, runtime_index);
            classify_files(
                store_path,
                files,
                runtime_index,
                same_text(store_path, target_package),
                essential_deps.contains(store_path),
                versioned,
                matched,
            )
        },
    }
}

} // verus!
