//! Indexing a Flatpak runtime: its libraries, executables and data files, and the
//! versions of the libraries that matter for compatibility.
use vstd::prelude::*;
use vstd::utf8::{decode_utf8, valid_utf8};

use crate::elf::{elf_magic, is_elf, is_script, script_magic};
use crate::order::{distinct, lemma_distinct, sort_texts, sorted, unique};
use crate::pairs::{pair_keys, string_map};
use crate::pattern::{
    captures, captures_iter, group, group_text, group_views, is_match, match_views,
    regex_captures, regex_captures_iter, regex_is_match,
};
use crate::store::owner_may_execute;
use crate::table::Table;
use crate::text::{
    contains, decimal_text, ends_with, glue, glue3, has_infix, is_digit, join,
    lemma_decimal_text, lemma_split_of_join, lemma_views_push, number_of, number_text, opt_view,
    parse_number, replace, replace_text, same_text, split, split_text, starts_with, views,
};
use crate::version::{numbers, version_of};
use crate::wrapper::optional_groups;

verus! {

/// The versions of symbols in glibc.
pub const GLIBC_PATTERN: &'static str = r"GLIBC_(\d+)\.(\d+)";

/// The path of a libstdc++ file.
pub const LIBSTDCXX_PATTERN: &'static str = r"libstdc\+\+\.so\.(\d+\.\d+\.\d+)";

/// The path of a Qt file.
pub const QT_PATTERN: &'static str = r"libQt6Core\.so\.(\d+\.\d+\.\d+)";

// ---------------------------------------------------------------------------
// Library indexing
// ---------------------------------------------------------------------------

/// A file below the library directory of a runtime.
pub struct LibraryFile {
    pub fname: String,
    /// The file is a symbolic link to another file.
    pub links_elsewhere: bool,
    pub is_file: bool,
    /// The SONAME, where the file has one.
    pub soname: Option<String>,
    /// The path below the runtime.
    pub rel_path: String,
}

/// The model of a file below the library directory.
pub struct LibraryView {
    pub fname: Seq<char>,
    pub links_elsewhere: bool,
    pub is_file: bool,
    pub soname: Option<Seq<char>>,
    pub rel_path: Seq<char>,
}

impl LibraryFile {
    pub open spec fn view(self) -> LibraryView {
        LibraryView {
            fname: self.fname@,
            links_elsewhere: self.links_elsewhere,
            is_file: self.is_file,
            soname: opt_view(self.soname),
            rel_path: self.rel_path@,
        }
    }
}

pub open spec fn library_views(list: Seq<LibraryFile>) -> Seq<LibraryView> {
    list.map_values(|f: LibraryFile| f.view())
}

/// A file that is looked at for a SONAME: a library, and no link to another file.
pub open spec fn is_candidate(f: LibraryView) -> bool {
    has_infix(f.fname, ".so"@) && !f.links_elsewhere && f.is_file
}

/// The SONAMEs of files, with their paths.
pub open spec fn library_pairs(files: Seq<LibraryView>) -> Seq<(Seq<char>, Seq<char>)>
    decreases files.len(),
{
    if files.len() == 0 {
        seq![]
    } else {
        let before = library_pairs(files.drop_last());
        let last = files.last();
        match last.soname {
            Some(soname) => if is_candidate(last) {
                before.push((soname, last.rel_path))
            } else {
                before
            },
            None => before,
        }
    }
}

/// Pairs as a map. Of two for one key the first counts.
pub open spec fn first_map(pairs: Seq<(Seq<char>, Seq<char>)>) -> Map<Seq<char>, Seq<char>>
    decreases pairs.len(),
{
    if pairs.len() == 0 {
        Map::empty()
    } else {
        let before = first_map(pairs.drop_last());
        if before.contains_key(pairs.last().0) {
            before
        } else {
            before.insert(pairs.last().0, pairs.last().1)
        }
    }
}

/// Of pairs for one key the first counts.
pub proof fn law_first_library_counts(pairs: Seq<(Seq<char>, Seq<char>)>, k: int)
    requires
        0 <= k < pairs.len(),
        forall|j: int| 0 <= j < k ==> (#[trigger] pairs[j]).0 != pairs[k].0,
    ensures
        first_map(pairs).contains_key(pairs[k].0),
        first_map(pairs)[pairs[k].0] == pairs[k].1,
    decreases pairs.len(),
{
    let rest = pairs.drop_last();
    if k < rest.len() {
        assert forall|j: int| 0 <= j < k implies (#[trigger] rest[j]).0 != rest[k].0 by {
            assert(pairs[j].0 != pairs[k].0);
        }
        law_first_library_counts(rest, k);
    } else {
        assert(!first_map(rest).contains_key(pairs[k].0)) by {
            if first_map(rest).contains_key(pairs[k].0) {
                lemma_first_map_keys(rest, pairs[k].0);
                let j = choose|j: int| 0 <= j < rest.len() && (#[trigger] rest[j]).0 == pairs[k].0;
                assert(pairs[j].0 == pairs[k].0);
            }
        }
    }
}

proof fn lemma_first_map_keys(pairs: Seq<(Seq<char>, Seq<char>)>, key: Seq<char>)
    requires
        first_map(pairs).contains_key(key),
    ensures
        exists|j: int| 0 <= j < pairs.len() && (#[trigger] pairs[j]).0 == key,
    decreases pairs.len(),
{
    if pairs.len() > 0 {
        let rest = pairs.drop_last();
        if first_map(rest).contains_key(key) {
            lemma_first_map_keys(rest, key);
            let j = choose|j: int| 0 <= j < rest.len() && (#[trigger] rest[j]).0 == key;
            assert(pairs[j].0 == key);
        } else {
            assert(pairs[pairs.len() - 1].0 == key);
        }
    }
}

/// Whether a file is to be looked at for a SONAME.
pub fn library_candidate(fname: &str, links_elsewhere: bool, is_file: bool) -> (r: bool)
    ensures
        r == (has_infix(fname@, ".so"@) && !links_elsewhere && is_file),
{
    contains(fname, ".so") && !links_elsewhere && is_file
}

/// The libraries of a runtime by their SONAMEs: the path of the first with each.
pub fn index_libraries(files: &Vec<LibraryFile>) -> (r: Table<String>)
    ensures
        r.wf(),
        string_map(&r) == first_map(library_pairs(library_views(files@))),
        r.key_list() == distinct(pair_keys(library_pairs(library_views(files@)))),
{
    let ghost v = library_views(files@);
    let mut r: Table<String> = Table::new();
    let mut i: usize = 0;
    proof {
        assert(string_map(&r) =~= first_map(library_pairs(v.take(0))));
        assert(r.key_list() =~= distinct(pair_keys(library_pairs(v.take(0)))));
    }
    while i < files.len()
        invariant
            i <= files@.len(),
            v == library_views(files@),
            r.wf(),
            string_map(&r) == first_map(library_pairs(v.take(i as int))),
            r.key_list() == distinct(pair_keys(library_pairs(v.take(i as int)))),
        decreases files@.len() - i,
    {
        let f: &LibraryFile = &files[i];
        let ghost pairs = library_pairs(v.take(i as int));
        proof {
            let t = v.take(i as int + 1);
            assert(t.drop_last() =~= v.take(i as int));
            assert(t.last() == f@);
        }
        match &f.soname {
            Some(soname) => {
                if library_candidate(&f.fname, f.links_elsewhere, f.is_file) {
                    let ghost pair = (soname@, f.rel_path@);
                    let ghost all = pairs.push(pair);
                    let ghost before = r;
                    proof {
                        assert(all.drop_last() =~= pairs);
                        assert(pair_keys(all) =~= pair_keys(pairs).push(soname@));
                        assert(pair_keys(all).drop_last() =~= pair_keys(pairs));
                        lemma_distinct(pair_keys(pairs));
                        assert(string_map(&r).contains_key(soname@) <==> r.has(soname@));
                    }
                    if !r.contains(soname) {
                        r.insert(soname.clone(), f.rel_path.clone());
                        proof {
                            assert(string_map(&r) =~= string_map(&before).insert(
                                soname@,
                                f.rel_path@,
                            ));
                        }
                    }
                }
            },
            None => {},
        }
        i += 1;
    }
    proof {
        assert(v.take(i as int) =~= v);
    }
    r
}

// ---------------------------------------------------------------------------
// Executable indexing
// ---------------------------------------------------------------------------

/// A file in a directory of programs of a runtime.
pub struct ProgramFile {
    pub name: String,
    /// The path below the runtime.
    pub rel_path: String,
    pub is_file: bool,
    /// The mode, where it could be read.
    pub mode: Option<u32>,
    /// What the file begins with.
    pub head: Vec<u8>,
}

/// The model of a file in a directory of programs.
pub struct ProgramView {
    pub name: Seq<char>,
    pub rel_path: Seq<char>,
    pub is_file: bool,
    pub mode: Option<u32>,
    pub head: Seq<u8>,
}

impl ProgramFile {
    pub open spec fn view(self) -> ProgramView {
        ProgramView {
            name: self.name@,
            rel_path: self.rel_path@,
            is_file: self.is_file,
            mode: self.mode,
            head: self.head@,
        }
    }
}

pub open spec fn program_views(list: Seq<ProgramFile>) -> Seq<ProgramView> {
    list.map_values(|f: ProgramFile| f.view())
}

/// What kind of program a file is.
#[derive(Clone, Copy, PartialEq, Eq, Structural, Debug)]
pub enum FileType {
    Elf,
    Script,
    Other,
}

impl FileType {
    pub open spec fn view(self) -> Seq<char> {
        match self {
            FileType::Elf => "elf"@,
            FileType::Script => "script"@,
            FileType::Other => "other"@,
        }
    }

    pub fn text(self) -> (r: &'static str)
        ensures
            r@ == self@,
    {
        match self {
            FileType::Elf => "elf",
            FileType::Script => "script",
            FileType::Other => "other",
        }
    }
}

/// An executable of a runtime.
pub struct Executable {
    pub path: String,
    pub file_type: FileType,
}

impl Executable {
    pub open spec fn view(self) -> (Seq<char>, FileType) {
        (self.path@, self.file_type)
    }
}

/// What kind of program a file is, by what it begins with.
pub open spec fn type_of(head: Seq<u8>) -> FileType {
    if elf_magic().is_prefix_of(head) {
        FileType::Elf
    } else if script_magic().is_prefix_of(head) {
        FileType::Script
    } else {
        FileType::Other
    }
}

/// A file that its owner may execute. A mode that could not be read does not
/// stand against it.
pub open spec fn is_program(f: ProgramView) -> bool {
    f.is_file && (f.mode matches Some(mode) ==> mode & 0x40 != 0)
}

/// The executables of a runtime by their names. Of two with one name the last
/// counts.
pub open spec fn program_map(files: Seq<ProgramView>) -> Map<Seq<char>, (Seq<char>, FileType)>
    decreases files.len(),
{
    if files.len() == 0 {
        Map::empty()
    } else {
        let before = program_map(files.drop_last());
        let last = files.last();
        if is_program(last) {
            before.insert(last.name, (last.rel_path, type_of(last.head)))
        } else {
            before
        }
    }
}

/// The executables of a table.
pub open spec fn executable_map(t: &Table<Executable>) -> Map<Seq<char>, (Seq<char>, FileType)> {
    t.map().map_values(|e: Executable| e.view())
}

/// The executables of a runtime by their names.
pub fn index_executables(files: &Vec<ProgramFile>) -> (r: Table<Executable>)
    ensures
        r.wf(),
        executable_map(&r) == program_map(program_views(files@)),
{
    let ghost v = program_views(files@);
    let mut r: Table<Executable> = Table::new();
    let mut i: usize = 0;
    proof {
        assert(executable_map(&r) =~= program_map(v.take(0)));
    }
    while i < files.len()
        invariant
            i <= files@.len(),
            v == program_views(files@),
            r.wf(),
            executable_map(&r) == program_map(v.take(i as int)),
        decreases files@.len() - i,
    {
        let f: &ProgramFile = &files[i];
        proof {
            let t = v.take(i as int + 1);
            assert(t.drop_last() =~= v.take(i as int));
            assert(t.last() == f@);
        }
        let allowed: bool = match f.mode {
            Some(mode) => owner_may_execute(mode),
            None => true,
        };
        if f.is_file && allowed {
            let file_type: FileType = if is_elf(f.head.as_slice()) {
                FileType::Elf
            } else if is_script(f.head.as_slice()) {
                FileType::Script
            } else {
                FileType::Other
            };
            let ghost before = r;
            let e: Executable = Executable { path: f.rel_path.clone(), file_type };
            r.insert(f.name.clone(), e);
            proof {
                assert(executable_map(&r) =~= executable_map(&before).insert(f.name@, e@));
            }
        }
        i += 1;
    }
    proof {
        assert(v.take(i as int) =~= v);
    }
    r
}

// ---------------------------------------------------------------------------
// Data indexing
// ---------------------------------------------------------------------------

/// An entry of a directory.
pub struct DirItem {
    pub name: String,
    pub is_file: bool,
    pub is_dir: bool,
}

/// The model of an entry of a directory.
pub struct ItemView {
    pub name: Seq<char>,
    pub is_file: bool,
    pub is_dir: bool,
}

impl DirItem {
    pub open spec fn view(self) -> ItemView {
        ItemView { name: self.name@, is_file: self.is_file, is_dir: self.is_dir }
    }
}

pub open spec fn item_views(list: Seq<DirItem>) -> Seq<ItemView> {
    list.map_values(|e: DirItem| e.view())
}

/// The text behind the last dot of a file name is `ext`, and something stands
/// before that dot.
pub open spec fn has_extension(name: Seq<char>, ext: Seq<char>) -> bool {
    ("."@ + ext).is_suffix_of(name) && name.len() > ext.len() + 1
}

/// Which entries of a directory are listed.
#[derive(Clone, Copy, PartialEq, Eq, Structural, Debug)]
pub enum Wanted {
    /// Files with the extension `xml`.
    XmlFiles,
    /// Entries with the extension `typelib`.
    Typelibs,
    /// Files with the extension `so`.
    SoFiles,
    /// Directories.
    Directories,
    /// Directories whose names do not begin with two underscores.
    Modules,
    /// Entries whose names end in `.so`.
    Plugins,
}

/// Whether an entry is listed.
pub open spec fn is_wanted(wanted: Wanted, e: ItemView) -> bool {
    match wanted {
        Wanted::XmlFiles => e.is_file && has_extension(e.name, "xml"@),
        Wanted::Typelibs => has_extension(e.name, "typelib"@),
        Wanted::SoFiles => e.is_file && has_extension(e.name, "so"@),
        Wanted::Directories => e.is_dir,
        Wanted::Modules => e.is_dir && !"__"@.is_prefix_of(e.name),
        Wanted::Plugins => ".so"@.is_suffix_of(e.name),
    }
}

/// The names of the entries that are listed.
pub open spec fn wanted_names(wanted: Wanted, items: Seq<ItemView>) -> Seq<Seq<char>>
    decreases items.len(),
{
    if items.len() == 0 {
        seq![]
    } else {
        let before = wanted_names(wanted, items.drop_last());
        if is_wanted(wanted, items.last()) {
            before.push(items.last().name)
        } else {
            before
        }
    }
}

/// Whether the text behind the last dot of a file name is `ext`.
fn name_has_extension(name: &str, ext: &str) -> (r: bool)
    ensures
        r == has_extension(name@, ext@),
{
    let suffix: String = glue(".", ext);
    proof {
        reveal_strlit(".");
        if suffix@.is_suffix_of(name@) && name@.len() == suffix@.len() {
            assert(name@ =~= suffix@);
        }
    }
    ends_with(name, &suffix) && !same_text(name, &suffix)
}

fn wants(wanted: Wanted, e: &DirItem) -> (r: bool)
    ensures
        r == is_wanted(wanted, e@),
{
    match wanted {
        Wanted::XmlFiles => e.is_file && name_has_extension(&e.name, "xml"),
        Wanted::Typelibs => name_has_extension(&e.name, "typelib"),
        Wanted::SoFiles => e.is_file && name_has_extension(&e.name, "so"),
        Wanted::Directories => e.is_dir,
        Wanted::Modules => e.is_dir && !starts_with(&e.name, "__"),
        Wanted::Plugins => ends_with(&e.name, ".so"),
    }
}

fn select_names(wanted: Wanted, items: &Vec<DirItem>) -> (r: Vec<String>)
    ensures
        views(r@) == wanted_names(wanted, item_views(items@)),
{
    let ghost v = item_views(items@);
    let mut r: Vec<String> = Vec::new();
    let mut i: usize = 0;
    proof {
        assert(views(r@) =~= wanted_names(wanted, v.take(0)));
    }
    while i < items.len()
        invariant
            i <= items@.len(),
            v == item_views(items@),
            views(r@) == wanted_names(wanted, v.take(i as int)),
        decreases items@.len() - i,
    {
        let name: String = items[i].name.clone();
        proof {
            let t = v.take(i as int + 1);
            assert(t.drop_last() =~= v.take(i as int));
            assert(t.last() == items@[i as int]@);
            lemma_views_push(r@, name);
        }
        if wants(wanted, &items[i]) {
            r.push(name);
        }
        i += 1;
    }
    proof {
        assert(v.take(i as int) =~= v);
    }
    r
}

/// A directory of Python.
pub struct PythonDir {
    pub name: String,
    pub items: Vec<DirItem>,
}

/// What a runtime has in its data directories. A directory that is not there, or
/// could not be read, is `None`.
pub struct DataFound {
    pub schemas: Option<Vec<DirItem>>,
    pub typelibs: Option<Vec<DirItem>>,
    pub locales: Option<Vec<DirItem>>,
    pub icons: Option<Vec<DirItem>>,
    pub mime: bool,
    pub python: Option<PythonDir>,
    pub qt_plugins: Option<Vec<DirItem>>,
    pub gst_plugins: Option<Vec<DirItem>>,
}

/// The Python of a runtime.
pub struct Python {
    pub version: String,
    pub modules: Vec<String>,
}

/// The data of a runtime.
pub struct DataIndex {
    pub schemas: Option<Vec<String>>,
    pub typelibs: Option<Vec<String>>,
    pub locales: Option<Vec<String>>,
    pub icons: Option<Vec<String>>,
    pub mime: bool,
    pub python: Option<Python>,
    pub qt_plugins: Option<Vec<String>>,
    pub gst_plugins: Option<Vec<String>>,
}

/// The model of the data of a runtime.
pub struct DataView {
    pub schemas: Option<Seq<Seq<char>>>,
    pub typelibs: Option<Seq<Seq<char>>>,
    pub locales: Option<Seq<Seq<char>>>,
    pub icons: Option<Seq<Seq<char>>>,
    pub mime: bool,
    pub python: Option<(Seq<char>, Seq<Seq<char>>)>,
    pub qt_plugins: Option<Seq<Seq<char>>>,
    pub gst_plugins: Option<Seq<Seq<char>>>,
}

/// The texts of an optional list.
pub open spec fn optional_views(list: Option<Vec<String>>) -> Option<Seq<Seq<char>>> {
    match list {
        Some(l) => Some(views(l@)),
        None => None,
    }
}

impl DataIndex {
    pub open spec fn view(self) -> DataView {
        DataView {
            schemas: optional_views(self.schemas),
            typelibs: optional_views(self.typelibs),
            locales: optional_views(self.locales),
            icons: optional_views(self.icons),
            mime: self.mime,
            python: match self.python {
                Some(p) => Some((p.version@, views(p.modules@))),
                None => None,
            },
            qt_plugins: optional_views(self.qt_plugins),
            gst_plugins: optional_views(self.gst_plugins),
        }
    }
}

/// The names that are listed of a directory, in order and each once.
pub open spec fn listing(wanted: Wanted, items: Option<Vec<DirItem>>) -> Option<Seq<Seq<char>>> {
    match items {
        Some(list) => Some(sorted(distinct(wanted_names(wanted, item_views(list@))))),
        None => None,
    }
}

/// What is listed of the data directories of a runtime.
pub open spec fn data_listed(found: DataFound) -> DataView {
    DataView {
        schemas: listing(Wanted::XmlFiles, found.schemas),
        typelibs: listing(Wanted::Typelibs, found.typelibs),
        locales: listing(Wanted::Directories, found.locales),
        icons: listing(Wanted::Directories, found.icons),
        mime: found.mime,
        python: match found.python {
            Some(p) => Some(
                (
                    replace(p.name@, "python"@, ""@),
                    sorted(wanted_names(Wanted::Modules, item_views(p.items@))),
                ),
            ),
            None => None,
        },
        qt_plugins: listing(Wanted::Plugins, found.qt_plugins),
        gst_plugins: listing(Wanted::SoFiles, found.gst_plugins),
    }
}

fn list_names(wanted: Wanted, items: &Option<Vec<DirItem>>) -> (r: Option<Vec<String>>)
    ensures
        optional_views(r) == listing(wanted, *items),
{
    match items {
        Some(list) => Some(sort_texts(&unique(&select_names(wanted, list)))),
        None => None,
    }
}

/// What is listed of the data directories of a runtime.
pub fn index_data(found: &DataFound) -> (r: DataIndex)
    ensures
        r@ == data_listed(*found),
{
    let python: Option<Python> = match &found.python {
        Some(dir) => Some(
            Python {
                version: replace_text(&dir.name, "python", ""),
                modules: sort_texts(&select_names(Wanted::Modules, &dir.items)),
            },
        ),
        None => None,
    };
    DataIndex {
        schemas: list_names(Wanted::XmlFiles, &found.schemas),
        typelibs: list_names(Wanted::Typelibs, &found.typelibs),
        locales: list_names(Wanted::Directories, &found.locales),
        icons: list_names(Wanted::Directories, &found.icons),
        mime: found.mime,
        python,
        qt_plugins: list_names(Wanted::Plugins, &found.qt_plugins),
        gst_plugins: list_names(Wanted::SoFiles, &found.gst_plugins),
    }
}

// ---------------------------------------------------------------------------
// Finding directories
// ---------------------------------------------------------------------------

/// A step from directories to directories below them.
pub enum GlobStep {
    /// To the directories and all directories below them.
    AllBelow,
    /// To the directories in them whose names match a pattern.
    Matching(String),
    /// To what has that name in them.
    Child(String),
}

/// The model of a step.
pub enum StepView {
    AllBelow,
    Matching(Seq<char>),
    Child(Seq<char>),
}

impl GlobStep {
    pub open spec fn view(self) -> StepView {
        match self {
            GlobStep::AllBelow => StepView::AllBelow,
            GlobStep::Matching(p) => StepView::Matching(p@),
            GlobStep::Child(name) => StepView::Child(name@),
        }
    }
}

pub open spec fn step_views(list: Seq<GlobStep>) -> Seq<StepView> {
    list.map_values(|s: GlobStep| s.view())
}

/// The regular expression for a name with stars, which stand for any text.
pub open spec fn star_pattern(part: Seq<char>) -> Seq<char> {
    "^"@ + replace(replace(part, "."@, r"\."@), "*"@, ".*"@) + "$"@
}

/// The step for a part of a pattern.
pub open spec fn step_of(part: Seq<char>) -> StepView {
    if part == "**"@ {
        StepView::AllBelow
    } else if has_infix(part, "*"@) {
        StepView::Matching(star_pattern(part))
    } else {
        StepView::Child(part)
    }
}

/// Simple glob for `base/pattern` — supports one `**` and one `*`: the steps that
/// lead from the base to the directories.
pub fn glob_dirs(pattern: &str) -> (r: Vec<GlobStep>)
    ensures
        step_views(r@) == split(pattern@, "/"@).map_values(|part: Seq<char>| step_of(part)),
{
    proof {
        reveal_strlit("/");
    }
    let parts: Vec<String> = split_text(pattern, "/");
    let ghost v = views(parts@);
    let mut r: Vec<GlobStep> = Vec::new();
    let mut i: usize = 0;
    while i < parts.len()
        invariant
            i <= parts@.len(),
            v == views(parts@),
            r@.len() == i,
            forall|k: int| 0 <= k < i ==> (#[trigger] r@[k])@ == step_of(v[k]),
        decreases parts@.len() - i,
    {
        let part: &String = &parts[i];
        proof {
            assert(v[i as int] == part@);
        }
        let step: GlobStep = if same_text(part, "**") {
            GlobStep::AllBelow
        } else if contains(part, "*") {
            let escaped: String = replace_text(part, ".", r"\.");
            GlobStep::Matching(glue3("^", &replace_text(&escaped, "*", ".*"), "$"))
        } else {
            GlobStep::Child(part.clone())
        };
        r.push(step);
        i += 1;
    }
    proof {
        assert(step_views(r@) =~= v.map_values(|part: Seq<char>| step_of(part)));
    }
    r
}

/// Whether a name matches the pattern of a step.
pub fn name_matches(pattern: &str, name: &str) -> (r: bool)
    ensures
        r == regex_is_match(pattern@, name@),
{
    is_match(pattern, name)
}

// ---------------------------------------------------------------------------
// Version extraction
// ---------------------------------------------------------------------------

/// Bytes as text, with replacement characters for what is not UTF-8.
pub uninterp spec fn utf8_lossy(data: Seq<u8>) -> Seq<char>;

/// Trusted: `String::from_utf8_lossy`. The result depends on the bytes alone. Bytes
/// that are UTF-8 give the text that they encode.
#[verifier::external_body]
fn lossy_text(data: &[u8]) -> (r: String)
    ensures
        r@ == utf8_lossy(data@),
        valid_utf8(data@) ==> r@ == decode_utf8(data@),
{
    String::from_utf8_lossy(data).to_string()
}

/// A version with two numbers.
pub struct TwoNumbers {
    pub major: nat,
    pub minor: nat,
}

/// The version in the groups of a match, where both numbers fit.
pub open spec fn two_numbers(groups: Seq<Option<Seq<char>>>) -> Option<TwoNumbers> {
    match (
        number_of(group_text(groups, 1), u32::MAX as nat),
        number_of(group_text(groups, 2), u32::MAX as nat),
    ) {
        (Some(major), Some(minor)) => Some(TwoNumbers { major, minor }),
        _ => None,
    }
}

/// The later of two versions.
pub open spec fn later_of(a: TwoNumbers, b: TwoNumbers) -> TwoNumbers {
    if b.major > a.major || (b.major == a.major && b.minor > a.minor) {
        b
    } else {
        a
    }
}

/// The latest of the versions in matches, and 0.0 where there is none. Where the
/// numbers of one do not fit there is no result.
pub open spec fn latest(matches: Seq<Seq<Option<Seq<char>>>>) -> Option<TwoNumbers>
    decreases matches.len(),
{
    if matches.len() == 0 {
        Some(TwoNumbers { major: 0, minor: 0 })
    } else {
        match (latest(matches.drop_last()), two_numbers(matches.last())) {
            (Some(a), Some(b)) => Some(later_of(a, b)),
            _ => None,
        }
    }
}

/// A version as text.
pub open spec fn two_numbers_text(v: TwoNumbers) -> Seq<char> {
    decimal_text(v.major) + "."@ + decimal_text(v.minor)
}

/// The latest of the versions in matches as text. 0.0 is none.
pub open spec fn latest_text(matches: Seq<Seq<Option<Seq<char>>>>) -> Option<Seq<char>> {
    match latest(matches) {
        Some(v) => if v.major == 0 && v.minor == 0 {
            None
        } else {
            Some(two_numbers_text(v))
        },
        None => None,
    }
}

proof fn lemma_latest_fails(matches: Seq<Seq<Option<Seq<char>>>>, k: int)
    requires
        0 <= k < matches.len(),
        two_numbers(matches[k]) is None,
    ensures
        latest(matches) is None,
    decreases matches.len(),
{
    if k < matches.len() - 1 {
        lemma_latest_fails(matches.drop_last(), k);
    }
}

/// The latest version of matches is no earlier than any of them.
pub proof fn law_latest_is_latest(matches: Seq<Seq<Option<Seq<char>>>>, k: int)
    requires
        0 <= k < matches.len(),
        latest(matches) is Some,
    ensures
        two_numbers(matches[k]) is Some,
        later_of(latest(matches)->Some_0, two_numbers(matches[k])->Some_0) == latest(
            matches,
        )->Some_0,
    decreases matches.len(),
{
    if k < matches.len() - 1 {
        law_latest_is_latest(matches.drop_last(), k);
    }
}

/// Reading a version that was written as text gives its two numbers back.
pub proof fn law_version_text_round_trip(v: TwoNumbers)
    requires
        v.major <= u32::MAX,
        v.minor <= u32::MAX,
    ensures
        version_of(two_numbers_text(v)) == seq![v.major as u32, v.minor as u32],
{
    reveal_strlit(".");
    assert("."@ =~= seq!['.']);
    let a = decimal_text(v.major);
    let b = decimal_text(v.minor);
    lemma_decimal_text(v.major);
    lemma_decimal_text(v.minor);
    let pieces = seq![a, b];
    assert(pieces.drop_last() =~= seq![a]);
    assert(join(pieces.drop_last(), "."@) == a);
    assert(join(pieces, "."@) == a + "."@ + b);
    assert forall|i: int| 0 <= i < pieces.len() implies !(#[trigger] pieces[i]).contains('.') by {
        if pieces[i].contains('.') {
            let k = pieces[i].index_of('.');
            assert(is_digit(pieces[i][k]));
        }
    }
    lemma_split_of_join(pieces, '.');
    assert(a[0] != '+') by {
        assert(is_digit(a[0]));
    }
    assert(b[0] != '+') by {
        assert(is_digit(b[0]));
    }
    assert(number_of(a, u32::MAX as nat) == Some(v.major));
    assert(number_of(b, u32::MAX as nat) == Some(v.minor));
    assert(numbers(seq![a].drop_last()) =~= seq![]) by {
        assert(seq![a].drop_last() =~= seq![]);
    }
    assert(numbers(seq![a]) =~= seq![v.major as u32]);
    assert(numbers(pieces) =~= seq![v.major as u32, v.minor as u32]);
}

/// The latest of the versions in matches as text.
pub fn latest_version(matches: &Vec<Vec<Option<String>>>) -> (r: Option<String>)
    ensures
        opt_view(r) == latest_text(match_views(matches@)),
{
    let ghost v = match_views(matches@);
    let mut major: u64 = 0;
    let mut minor: u64 = 0;
    let mut i: usize = 0;
    while i < matches.len()
        invariant
            i <= matches@.len(),
            v == match_views(matches@),
            latest(v.take(i as int)) == Some(
                TwoNumbers { major: major as nat, minor: minor as nat },
            ),
        decreases matches@.len() - i,
    {
        let groups: &Vec<Option<String>> = &matches[i];
        proof {
            let t = v.take(i as int + 1);
            assert(t.drop_last() =~= v.take(i as int));
            assert(t.last() == group_views(groups@));
            assert(v[i as int] == group_views(groups@));
        }
        let a: Option<u64> = parse_number(&group(groups, 1), u32::MAX as u64);
        let b: Option<u64> = parse_number(&group(groups, 2), u32::MAX as u64);
        match (a, b) {
            (Some(a), Some(b)) => {
                if a > major || (a == major && b > minor) {
                    major = a;
                    minor = b;
                }
            },
            _ => {
                proof {
                    lemma_latest_fails(v, i as int);
                }
                return None;
            },
        }
        i += 1;
    }
    proof {
        assert(v.take(i as int) =~= v);
    }
    if major == 0 && minor == 0 {
        None
    } else {
        Some(glue3(&number_text(major), ".", &number_text(minor)))
    }
}

/// Extract glibc version from libc.so.6 by scanning for GLIBC_x.y version strings.
pub fn extract_glibc_version(data: &[u8]) -> (r: Option<String>)
    ensures
        opt_view(r) == latest_text(regex_captures_iter(GLIBC_PATTERN@, utf8_lossy(data@))),
        valid_utf8(data@) ==> opt_view(r) == latest_text(
            regex_captures_iter(GLIBC_PATTERN@, decode_utf8(data@)),
        ),
{
    latest_version(&captures_iter(GLIBC_PATTERN, &lossy_text(data)))
}

/// The versions of a runtime.
pub struct Versions {
    pub glibc: Option<String>,
    pub libstdcxx: Option<String>,
    pub qt: Option<String>,
}

/// The model of the versions of a runtime.
pub struct VersionsView {
    pub glibc: Option<Seq<char>>,
    pub libstdcxx: Option<Seq<char>>,
    pub qt: Option<Seq<char>>,
}

impl Versions {
    pub open spec fn view(self) -> VersionsView {
        VersionsView {
            glibc: opt_view(self.glibc),
            libstdcxx: opt_view(self.libstdcxx),
            qt: opt_view(self.qt),
        }
    }
}

/// The text of the first group of a match, where there is one.
pub open spec fn first_group(groups: Option<Seq<Option<Seq<char>>>>) -> Option<Seq<char>> {
    match groups {
        Some(g) => Some(group_text(g, 1)),
        None => None,
    }
}

/// The version in the path of a library.
pub open spec fn path_version(
    sonames: Map<Seq<char>, Seq<char>>,
    soname: Seq<char>,
    pattern: Seq<char>,
) -> Option<Seq<char>> {
    if sonames.contains_key(soname) {
        first_group(regex_captures(pattern, sonames[soname]))
    } else {
        None
    }
}

/// The versions of a runtime, from the paths of its libraries and the bytes of its
/// libc.
pub open spec fn versions_of(
    sonames: Map<Seq<char>, Seq<char>>,
    libc: Option<Seq<u8>>,
) -> VersionsView {
    VersionsView {
        glibc: match libc {
            Some(data) => if sonames.contains_key("libc.so.6"@) {
                latest_text(regex_captures_iter(GLIBC_PATTERN@, utf8_lossy(data)))
            } else {
                None
            },
            None => None,
        },
        libstdcxx: path_version(sonames, "libstdc++.so.6"@, LIBSTDCXX_PATTERN@),
        qt: path_version(sonames, "libQt6Core.so.6"@, QT_PATTERN@),
    }
}

/// The text of the first group of a match, where there is one.
pub fn captured_version(groups: &Option<Vec<Option<String>>>) -> (r: Option<String>)
    ensures
        opt_view(r) == first_group(optional_groups(*groups)),
{
    match groups {
        Some(g) => Some(group(g, 1)),
        None => None,
    }
}

fn version_in_path(sonames: &Table<String>, soname: &str, pattern: &str) -> (r: Option<String>)
    requires
        sonames.wf(),
    ensures
        opt_view(r) == path_version(string_map(sonames), soname@, pattern@),
{
    proof {
        assert(string_map(sonames).contains_key(soname@) <==> sonames.has(soname@));
    }
    match sonames.get(soname) {
        Some(path) => {
            proof {
                assert(string_map(sonames)[soname@] == path@);
            }
            captured_version(&captures(pattern, path))
        },
        None => None,
    }
}

/// Extract versions for ABI-critical libraries. `libc` is what the file of
/// libc.so.6 holds, where it could be read.
pub fn extract_key_versions(sonames: &Table<String>, libc: Option<&[u8]>) -> (r: Versions)
    requires
        sonames.wf(),
    ensures
        r@ == versions_of(
            string_map(sonames),
            match libc {
                Some(data) => Some(data@),
                None => None,
            },
        ),
{
    proof {
        assert(string_map(sonames).contains_key("libc.so.6"@) <==> sonames.has("libc.so.6"@));
    }
    let glibc: Option<String> = match libc {
        Some(data) => if sonames.contains("libc.so.6") {
            extract_glibc_version(data)
        } else {
            None
        },
        None => None,
    };
    Versions {
        glibc,
        libstdcxx: version_in_path(sonames, "libstdc++.so.6", LIBSTDCXX_PATTERN),
        qt: version_in_path(sonames, "libQt6Core.so.6", QT_PATTERN),
    }
}

} // verus!
