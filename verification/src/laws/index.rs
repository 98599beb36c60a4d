//! The index of a runtime.
use vstd::prelude::*;

use crate::index::{
    data_listed, first_map, has_extension, is_wanted, item_views, latest, latest_text,
    library_pairs, listing, program_map, step_of, two_numbers, type_of, utf8_lossy, versions_of,
    wanted_names, DataFound, DirItem, FileType, ItemView, LibraryView, ProgramView, StepView,
    TwoNumbers, Wanted,
};
use crate::order::{lemma_sorted_distinct, sorted, text_le};
use crate::pattern::{group_text, regex_captures, regex_captures_iter};
use crate::text::{decimal_text, has_infix, number_of, replace};

verus! {

// ---------------------------------------------------------------------------
// Libraries
// ---------------------------------------------------------------------------

/// A library of the runtime with a SONAME: a file with `.so` in its name that is not a link
/// to another.
pub open spec fn library_with(f: LibraryView, soname: Seq<char>) -> bool {
    has_infix(f.fname, ".so"@) && !f.links_elsewhere && f.is_file && f.soname == Some(soname)
}

/// The first library with a SONAME is the one that is listed under it.
pub proof fn law_first_library_is_listed(files: Seq<LibraryView>, soname: Seq<char>, k: int)
    requires
        0 <= k < files.len(),
        library_with(files[k], soname),
        forall|j: int| 0 <= j < k ==> !library_with(#[trigger] files[j], soname),
    ensures
        first_map(library_pairs(files)).contains_key(soname),
        first_map(library_pairs(files))[soname] == files[k].rel_path,
    decreases files.len(),
{
    let rest = files.drop_last();
    let before = library_pairs(rest);
    let all = library_pairs(files);
    if all.len() > before.len() {
        assert(all.drop_last() =~= before);
    }
    if k < rest.len() {
        assert(rest[k] == files[k]);
        assert forall|j: int| 0 <= j < k implies !library_with(#[trigger] rest[j], soname) by {
            assert(rest[j] == files[j]);
        }
        law_first_library_is_listed(rest, soname, k);
    } else {
        assert(files[k] == files.last());
        if first_map(before).contains_key(soname) {
            law_listed_sonames(rest, soname);
            let j = choose|j: int| 0 <= j < rest.len() && library_with(#[trigger] rest[j], soname);
            assert(files[j] == rest[j]);
        }
    }
}

/// A SONAME is listed only where a library has it.
pub proof fn law_listed_sonames(files: Seq<LibraryView>, soname: Seq<char>)
    requires
        first_map(library_pairs(files)).contains_key(soname),
    ensures
        exists|j: int| 0 <= j < files.len() && library_with(#[trigger] files[j], soname),
    decreases files.len(),
{
    if files.len() > 0 {
        let rest = files.drop_last();
        let before = library_pairs(rest);
        let all = library_pairs(files);
        if all.len() > before.len() {
            assert(all.drop_last() =~= before);
        }
        if first_map(before).contains_key(soname) {
            law_listed_sonames(rest, soname);
            let j = choose|j: int| 0 <= j < rest.len() && library_with(#[trigger] rest[j], soname);
            assert(files[j] == rest[j]);
        } else {
            assert(library_with(files[files.len() - 1], soname));
        }
    }
}

// ---------------------------------------------------------------------------
// Executables
// ---------------------------------------------------------------------------

/// The type of a file is told by its first bytes: `7f 45 4c 46`, or `#!`.
pub proof fn law_file_type(head: Seq<u8>)
    ensures
        type_of(head) == FileType::Elf <==> head.len() >= 4 && head[0] == 0x7f && head[1] == 0x45
            && head[2] == 0x4c && head[3] == 0x46,
        type_of(head) == FileType::Script <==> head.len() >= 2 && head[0] == 0x23 && head[1] == 0x21,
{
    if head.len() >= 4 {
        let h = head.subrange(0, 4);
        assert(h[0] == head[0] && h[1] == head[1] && h[2] == head[2] && h[3] == head[3]);
        if head[0] == 0x7f && head[1] == 0x45 && head[2] == 0x4c && head[3] == 0x46 {
            assert(h =~= crate::elf::elf_magic());
        }
    }
    if head.len() >= 2 {
        let h = head.subrange(0, 2);
        assert(h[0] == head[0] && h[1] == head[1]);
        if head[0] == 0x23 && head[1] == 0x21 {
            assert(h =~= crate::elf::script_magic());
        }
    }
}

/// The types as the index words them.
pub proof fn law_file_type_texts()
    ensures
        FileType::Elf@ == "elf"@,
        FileType::Script@ == "script"@,
        FileType::Other@ == "other"@,
{
}

/// A file that its owner may execute, or whose mode is not known.
pub open spec fn executable_with(f: ProgramView, name: Seq<char>) -> bool {
    f.name == name && f.is_file && (f.mode is None || f.mode->Some_0 & 0x40 != 0)
}

/// The last executable with a name is the one that is listed under it, with its path and
/// its type.
pub proof fn law_last_executable_is_listed(files: Seq<ProgramView>, name: Seq<char>, k: int)
    requires
        0 <= k < files.len(),
        executable_with(files[k], name),
        forall|j: int| k < j < files.len() ==> !executable_with(#[trigger] files[j], name),
    ensures
        program_map(files).contains_key(name),
        program_map(files)[name] == (files[k].rel_path, type_of(files[k].head)),
    decreases files.len(),
{
    let rest = files.drop_last();
    let n = files.len() - 1;
    assert(files[n] == files.last());
    if k < n {
        assert(!executable_with(files[n], name));
        assert(rest[k] == files[k]);
        assert forall|j: int| k < j < rest.len() implies !executable_with(
            #[trigger] rest[j],
            name,
        ) by {
            assert(rest[j] == files[j]);
        }
        law_last_executable_is_listed(rest, name, k);
    }
}

/// A name is listed only where an executable has it.
pub proof fn law_listed_executables(files: Seq<ProgramView>, name: Seq<char>)
    requires
        program_map(files).contains_key(name),
    ensures
        exists|j: int| 0 <= j < files.len() && executable_with(#[trigger] files[j], name),
    decreases files.len(),
{
    if files.len() > 0 {
        let rest = files.drop_last();
        if program_map(rest).contains_key(name) {
            law_listed_executables(rest, name);
            let j = choose|j: int| 0 <= j < rest.len() && executable_with(#[trigger] rest[j], name);
            assert(files[j] == rest[j]);
        } else {
            assert(executable_with(files[files.len() - 1], name));
        }
    }
}

// ---------------------------------------------------------------------------
// Data
// ---------------------------------------------------------------------------

/// A name has an extension where it is something, a dot, and the extension.
pub proof fn law_extension(name: Seq<char>, ext: Seq<char>)
    ensures
        has_extension(name, ext) <==> exists|stem: Seq<char>|
            stem.len() > 0 && name == #[trigger] (stem + seq!['.'] + ext),
{
    reveal_strlit(".");
    let end = "."@ + ext;
    assert(end =~= seq!['.'] + ext);
    if has_extension(name, ext) {
        let stem = name.take(name.len() - end.len());
        assert(name =~= stem + end);
        assert(name =~= stem + seq!['.'] + ext);
    }
    if exists|stem: Seq<char>| stem.len() > 0 && name == #[trigger] (stem + seq!['.'] + ext) {
        let stem = choose|stem: Seq<char>|
            stem.len() > 0 && name == #[trigger] (stem + seq!['.'] + ext);
        assert(name.subrange(name.len() - end.len(), name.len() as int) =~= end);
    }
}

/// What is listed of a directory: files by their extension, directories, modules that are
/// not private, and plugins by how they end.
pub proof fn law_wanted(e: ItemView)
    ensures
        is_wanted(Wanted::XmlFiles, e) <==> e.is_file && has_extension(e.name, "xml"@),
        is_wanted(Wanted::Typelibs, e) <==> has_extension(e.name, "typelib"@),
        is_wanted(Wanted::SoFiles, e) <==> e.is_file && has_extension(e.name, "so"@),
        is_wanted(Wanted::Directories, e) <==> e.is_dir,
        is_wanted(Wanted::Modules, e) <==> e.is_dir && !"__"@.is_prefix_of(e.name),
        is_wanted(Wanted::Plugins, e) <==> ".so"@.is_suffix_of(e.name),
{
}

proof fn lemma_wanted_names(wanted: Wanted, items: Seq<ItemView>)
    ensures
        wanted_names(wanted, items) == items.filter(
            |e: ItemView| is_wanted(wanted, e),
        ).map_values(|e: ItemView| e.name),
    decreases items.len(),
{
    reveal(Seq::filter);
    let want = |e: ItemView| is_wanted(wanted, e);
    let name = |e: ItemView| e.name;
    if items.len() > 0 {
        lemma_wanted_names(wanted, items.drop_last());
    }
    assert(wanted_names(wanted, items) =~= items.filter(want).map_values(name));
}

/// The names that a directory lists are those of what is wanted of it, in the order in
/// which it is read.
pub proof fn law_wanted_names(wanted: Wanted, items: Seq<ItemView>)
    ensures
        wanted_names(wanted, items) == items.filter(
            |e: ItemView| is_wanted(wanted, e),
        ).map_values(|e: ItemView| e.name),
{
    lemma_wanted_names(wanted, items);
}

/// A listing holds the names of what is wanted, each once and in order. There is none of a
/// directory that is missing.
pub proof fn law_listing(wanted: Wanted, items: Option<Vec<DirItem>>)
    ensures
        listing(wanted, items) is Some <==> items is Some,
        items matches Some(list) ==> {
            let names = listing(wanted, items)->Some_0;
            &&& forall|name: Seq<char>| #[trigger]
                names.contains(name) <==> exists|i: int|
                    0 <= i < list@.len() && is_wanted(wanted, (#[trigger] list@[i])@)
                        && list@[i]@.name == name
            &&& forall|i: int, j: int|
                0 <= i < j < names.len() ==> text_le(#[trigger] names[i], #[trigger] names[j])
                    && names[i] != names[j]
        },
{
    if items is Some {
        let list = items->Some_0;
        let views = item_views(list@);
        let all = wanted_names(wanted, views);
        let want = |e: ItemView| is_wanted(wanted, e);
        let kept = views.filter(want);
        lemma_wanted_names(wanted, views);
        lemma_sorted_distinct(all);
        let names = listing(wanted, items)->Some_0;
        assert forall|name: Seq<char>| #[trigger]
            names.contains(name) <==> exists|i: int|
                0 <= i < list@.len() && is_wanted(wanted, (#[trigger] list@[i])@) && list@[i]@.name
                    == name by {
            if names.contains(name) {
                assert(all.contains(name));
                let k = all.index_of(name);
                assert(kept[k].name == name);
                views.lemma_filter_pred(want, k);
                assert(kept.contains(kept[k]));
                views.lemma_filter_contains_rev(want, kept[k]);
                let i = views.index_of(kept[k]);
                assert(list@[i]@ == views[i]);
            }
            if exists|i: int|
                0 <= i < list@.len() && is_wanted(wanted, (#[trigger] list@[i])@) && list@[i]@.name
                    == name {
                let i = choose|i: int|
                    0 <= i < list@.len() && is_wanted(wanted, (#[trigger] list@[i])@)
                        && list@[i]@.name == name;
                assert(views[i] == list@[i]@);
                assert(want(views[i]));
                views.lemma_filter_contains(want, i);
                let k = kept.index_of(views[i]);
                assert(all[k] == name);
                assert(all.contains(name));
            }
        }
    }
}

/// What is listed of which directory.
pub proof fn law_data(found: DataFound)
    ensures
        ({
            let d = data_listed(found);
            &&& d.schemas == listing(Wanted::XmlFiles, found.schemas)
            &&& d.typelibs == listing(Wanted::Typelibs, found.typelibs)
            &&& d.locales == listing(Wanted::Directories, found.locales)
            &&& d.icons == listing(Wanted::Directories, found.icons)
            &&& d.mime == found.mime
            &&& d.qt_plugins == listing(Wanted::Plugins, found.qt_plugins)
            &&& d.gst_plugins == listing(Wanted::SoFiles, found.gst_plugins)
            &&& d.python is Some <==> found.python is Some
            &&& found.python matches Some(p) ==> d.python->Some_0.0 == replace(
                p.name@,
                "python"@,
                ""@,
            ) && d.python->Some_0.1 == sorted(wanted_names(Wanted::Modules, item_views(p.items@)))
        }),
{
}

// ---------------------------------------------------------------------------
// Patterns for directories
// ---------------------------------------------------------------------------

/// A component of a pattern stands for all directories below, for those that match, or for
/// the one with its name.
pub proof fn law_glob_step(part: Seq<char>)
    ensures
        part == "**"@ ==> step_of(part) == StepView::AllBelow,
        part != "**"@ && part.contains('*') ==> step_of(part) == StepView::Matching(
            "^"@ + replace(replace(part, "."@, "\\."@), "*"@, ".*"@) + "$"@,
        ),
        !part.contains('*') ==> step_of(part) == StepView::Child(part),
{
    reveal_strlit("**");
    reveal_strlit("*");
    reveal_strlit("\\.");
    reveal_strlit(r"\.");
    assert("\\."@ =~= r"\."@);
    assert("*"@ =~= seq!['*']);
    if part.contains('*') {
        let i = part.index_of('*');
        assert(part.subrange(i, i + 1) =~= "*"@);
        assert(crate::text::occurs_at(part, "*"@, i));
    } else if has_infix(part, "*"@) {
        let i = choose|i: int| crate::text::occurs_at(part, "*"@, i);
        assert(part.subrange(i, i + 1)[0] == '*');
        assert(part[i] == '*');
    }
    if part == "**"@ {
        assert(part[0] == '*');
    }
}

// ---------------------------------------------------------------------------
// Versions
// ---------------------------------------------------------------------------

/// No number of the one is greater than that of the other where they first differ.
pub open spec fn no_later(a: TwoNumbers, b: TwoNumbers) -> bool {
    a.major < b.major || (a.major == b.major && a.minor <= b.minor)
}

/// A match gives the numbers in its two groups, where both fit.
pub proof fn law_two_numbers(groups: Seq<Option<Seq<char>>>)
    ensures
        ({
            let major = number_of(group_text(groups, 1), u32::MAX as nat);
            let minor = number_of(group_text(groups, 2), u32::MAX as nat);
            &&& two_numbers(groups) is Some <==> major is Some && minor is Some
            &&& two_numbers(groups) matches Some(v) ==> major == Some(v.major) && minor == Some(
                v.minor,
            )
        }),
{
}

/// The latest version is that of one of the matches, and that of none is later. There is
/// none where a number does not fit, and none but zeros where nothing matches.
pub proof fn law_latest(matches: Seq<Seq<Option<Seq<char>>>>)
    ensures
        latest(matches) is Some <==> forall|i: int|
            0 <= i < matches.len() ==> two_numbers(#[trigger] matches[i]) is Some,
        latest(matches) matches Some(v) ==> {
            &&& forall|i: int|
                0 <= i < matches.len() ==> no_later(two_numbers(#[trigger] matches[i])->Some_0, v)
            &&& (v.major == 0 && v.minor == 0) || exists|i: int|
                0 <= i < matches.len() && two_numbers(#[trigger] matches[i]) == Some(v)
        },
    decreases matches.len(),
{
    if matches.len() > 0 {
        let rest = matches.drop_last();
        let n = matches.len() - 1;
        law_latest(rest);
        assert(matches[n] == matches.last());
        if latest(matches) is Some {
            let v = latest(matches)->Some_0;
            assert forall|i: int| 0 <= i < matches.len() implies two_numbers(
                #[trigger] matches[i],
            ) is Some && no_later(two_numbers(matches[i])->Some_0, v) by {
                if i < n {
                    assert(rest[i] == matches[i]);
                }
            }
            if latest(rest) == Some(v) && !(v.major == 0 && v.minor == 0) {
                let i = choose|i: int|
                    0 <= i < rest.len() && two_numbers(#[trigger] rest[i]) == Some(v);
                assert(matches[i] == rest[i]);
            }
        } else if forall|i: int|
            0 <= i < matches.len() ==> two_numbers(#[trigger] matches[i]) is Some {
            assert forall|i: int| 0 <= i < rest.len() implies two_numbers(
                #[trigger] rest[i],
            ) is Some by {
                assert(matches[i] == rest[i]);
            }
        }
    }
}

/// The latest version as a text is its two numbers with a dot between them. Zeros are no
/// version.
pub proof fn law_latest_text(matches: Seq<Seq<Option<Seq<char>>>>)
    ensures
        latest_text(matches) is Some <==> latest(matches) is Some && !(latest(
            matches,
        )->Some_0.major == 0 && latest(matches)->Some_0.minor == 0),
        latest_text(matches) matches Some(text) ==> text == decimal_text(
            latest(matches)->Some_0.major,
        ) + "."@ + decimal_text(latest(matches)->Some_0.minor),
{
}

/// The version of a library is in the name of the file to which its SONAME leads.
pub open spec fn version_in_file_name(
    sonames: Map<Seq<char>, Seq<char>>,
    soname: Seq<char>,
    pattern: Seq<char>,
    version: Option<Seq<char>>,
) -> bool {
    if sonames.contains_key(soname) && regex_captures(pattern, sonames[soname]) is Some {
        version == Some(group_text(regex_captures(pattern, sonames[soname])->Some_0, 1))
    } else {
        version is None
    }
}

/// The versions of a runtime: that of glibc is the latest among the symbols of the library,
/// the others stand in the names of the files.
pub proof fn law_versions(sonames: Map<Seq<char>, Seq<char>>, libc: Option<Seq<u8>>)
    ensures
        ({
            let v = versions_of(sonames, libc);
            &&& sonames.contains_key("libc.so.6"@) && libc is Some ==> v.glibc == latest_text(
                regex_captures_iter(r"GLIBC_(\d+)\.(\d+)"@, utf8_lossy(libc->Some_0)),
            )
            &&& !(sonames.contains_key("libc.so.6"@) && libc is Some) ==> v.glibc is None
            &&& version_in_file_name(
                sonames,
                "libstdc++.so.6"@,
                r"libstdc\+\+\.so\.(\d+\.\d+\.\d+)"@,
                v.libstdcxx,
            )
            &&& version_in_file_name(
                sonames,
                "libQt6Core.so.6"@,
                r"libQt6Core\.so\.(\d+\.\d+\.\d+)"@,
                v.qt,
            )
        }),
{
}

} // verus!
