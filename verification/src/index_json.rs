//! The index of a runtime as JSON.
use vstd::prelude::*;

use crate::classify::{runtime_executable, runtime_executable_path, runtime_lists, runtime_soname};
use crate::index::{
    optional_views, DataIndex, DataView, Executable, FileType, Versions, VersionsView,
};
use crate::json::{
    keyed_record, lemma_keyed_record, lemma_lookup, lemma_lookup_concat, lemma_lookup_none,
    lemma_optional_member, lemma_view, lists_text, lookup, member, member_views,
    optional_member, text_list, text_member, Json, JsonView, Member,
};
use crate::metadata::{product_views, sections_wf, Product};
use crate::order::{lemma_sorted, sort_texts, sorted};
use crate::plan::runtime_name;
use crate::table::Table;
use crate::text::{lemma_views_push, opt_view, views};
use crate::version::runtime_version;

verus! {

// ---------------------------------------------------------------------------
// Model
// ---------------------------------------------------------------------------

/// The index of a runtime.
pub struct RuntimeIndex {
    /// The paths of libraries by their SONAMEs.
    pub sonames: Table<String>,
    pub executables: Table<Executable>,
    pub data: DataIndex,
    pub versions: Versions,
    pub metadata: Option<Table<Table<String>>>,
    pub manifest: Option<Vec<Product>>,
}

impl RuntimeIndex {
    /// The tables are well-formed.
    pub open spec fn wf(&self) -> bool {
        &&& self.sonames.wf()
        &&& self.executables.wf()
        &&& self.metadata matches Some(t) ==> sections_wf(&t)
    }
}

/// Where a library is.
pub open spec fn library_json(path: Seq<char>) -> JsonView {
    JsonView::Record(seq![("path"@, JsonView::Text(path))])
}

/// Where an executable is, and what kind of program.
pub open spec fn executable_json(e: (Seq<char>, FileType)) -> JsonView {
    JsonView::Record(
        seq![("path"@, JsonView::Text(e.0)), ("type"@, JsonView::Text(e.1@))],
    )
}

/// Libraries by their SONAMEs.
pub open spec fn sonames_json(t: &Table<String>) -> JsonView {
    keyed_record(t.key_list(), |k: Seq<char>| library_json(t.at(k)@))
}

/// Executables by their names.
pub open spec fn executables_json(t: &Table<Executable>) -> JsonView {
    keyed_record(t.key_list(), |k: Seq<char>| executable_json(t.at(k)@))
}

/// A list of names that may be there.
pub open spec fn optional_list(names: Option<Seq<Seq<char>>>) -> Option<JsonView> {
    match names {
        Some(list) => Some(text_list(list)),
        None => None,
    }
}

/// A text that may be there.
pub open spec fn optional_text(text: Option<Seq<char>>) -> Option<JsonView> {
    match text {
        Some(s) => Some(JsonView::Text(s)),
        None => None,
    }
}

/// The Python of a runtime.
pub open spec fn python_json(p: (Seq<char>, Seq<Seq<char>>)) -> JsonView {
    JsonView::Record(seq![("modules"@, text_list(p.1)), ("version"@, JsonView::Text(p.0))])
}

/// The members for the data of a runtime.
pub open spec fn data_members(d: DataView) -> Seq<(Seq<char>, JsonView)> {
    optional_member("glib-schemas"@, optional_list(d.schemas)) + optional_member(
        "gstreamer-plugins"@,
        optional_list(d.gst_plugins),
    ) + optional_member("icon-themes"@, optional_list(d.icons)) + optional_member(
        "locale"@,
        optional_list(d.locales),
    ) + seq![("mime"@, JsonView::Bool(d.mime))] + optional_member(
        "python"@,
        match d.python {
            Some(p) => Some(python_json(p)),
            None => None,
        },
    ) + optional_member("qt-plugins"@, optional_list(d.qt_plugins)) + optional_member(
        "typelibs"@,
        optional_list(d.typelibs),
    )
}

/// The members for the versions of a runtime.
pub open spec fn version_members(v: VersionsView) -> Seq<(Seq<char>, JsonView)> {
    optional_member("glibc"@, optional_text(v.glibc)) + optional_member(
        "libstdcxx"@,
        optional_text(v.libstdcxx),
    ) + optional_member("qt"@, optional_text(v.qt))
}

/// The versions of a runtime, where there are any.
pub open spec fn versions_json(v: VersionsView) -> Option<JsonView> {
    if version_members(v).len() > 0 {
        Some(JsonView::Record(version_members(v)))
    } else {
        None
    }
}

/// A section of the metadata.
pub open spec fn section_json(t: &Table<String>) -> JsonView {
    keyed_record(t.key_list(), |k: Seq<char>| JsonView::Text(t.at(k)@))
}

/// The metadata of a runtime, where there is any.
pub open spec fn metadata_json(m: Option<Table<Table<String>>>) -> Option<JsonView> {
    match m {
        Some(t) => Some(keyed_record(t.key_list(), |k: Seq<char>| section_json(&t.at(k)))),
        None => None,
    }
}

/// A product.
pub open spec fn product_json(p: (Seq<char>, Seq<char>)) -> JsonView {
    JsonView::Record(seq![("name"@, JsonView::Text(p.0)), ("version"@, JsonView::Text(p.1))])
}

/// The products of a runtime, where there are any.
pub open spec fn manifest_json(m: Option<Vec<Product>>) -> Option<JsonView> {
    match m {
        Some(list) => Some(
            JsonView::List(
                product_views(list@).map_values(|p: (Seq<char>, Seq<char>)| product_json(p)),
            ),
        ),
        None => None,
    }
}

/// The members of the index of a runtime, in the order of their keys.
pub open spec fn index_members(i: &RuntimeIndex) -> Seq<(Seq<char>, JsonView)> {
    seq![
        ("data"@, JsonView::Record(data_members(i.data@))),
        ("executables"@, executables_json(&i.executables)),
    ] + optional_member("manifest"@, manifest_json(i.manifest)) + optional_member(
        "metadata"@,
        metadata_json(i.metadata),
    ) + seq![("sonames"@, sonames_json(&i.sonames))] + optional_member(
        "versions"@,
        versions_json(i.versions@),
    )
}

/// The index of a runtime as JSON.
pub open spec fn index_json(i: &RuntimeIndex) -> JsonView {
    JsonView::Record(index_members(i))
}

// ---------------------------------------------------------------------------
// Writing
// ---------------------------------------------------------------------------

fn add_member(members: &mut Vec<Member>, m: Member)
    ensures
        member_views(final(members)@) == member_views(old(members)@).push((m.key@, m.value@)),
{
    members.push(m);
    proof {
        assert(member_views(members@) =~= member_views(old(members)@).push((m.key@, m.value@)));
    }
}

fn add_list(members: &mut Vec<Member>, key: &str, names: &Option<Vec<String>>)
    ensures
        member_views(final(members)@) == member_views(old(members)@) + optional_member(
            key@,
            optional_list(optional_views(*names)),
        ),
{
    match names {
        Some(list) => {
            add_member(members, member(key, Json::from_texts(list)));
        },
        None => {},
    }
    proof {
        assert(member_views(members@) =~= member_views(old(members)@) + optional_member(
            key@,
            optional_list(optional_views(*names)),
        ));
    }
}

fn add_text(members: &mut Vec<Member>, key: &str, text: &Option<String>)
    ensures
        member_views(final(members)@) == member_views(old(members)@) + optional_member(
            key@,
            optional_text(opt_view(*text)),
        ),
{
    match text {
        Some(s) => {
            add_member(members, text_member(key, s));
        },
        None => {},
    }
    proof {
        assert(member_views(members@) =~= member_views(old(members)@) + optional_member(
            key@,
            optional_text(opt_view(*text)),
        ));
    }
}

/// The keys of a table, in order.
fn sorted_keys<V>(t: &Table<V>) -> (r: Vec<String>)
    requires
        t.wf(),
    ensures
        views(r@) == sorted(t.key_list()),
        forall|i: int| 0 <= i < r@.len() ==> t.has(#[trigger] views(r@)[i]),
{
    let n: usize = t.len();
    let mut keys: Vec<String> = Vec::new();
    let mut i: usize = 0;
    while i < n
        invariant
            i <= n,
            t.wf(),
            n == t.key_list().len(),
            views(keys@) == t.key_list().take(i as int),
        decreases n - i,
    {
        let key: String = t.key(i).clone();
        proof {
            lemma_views_push(keys@, key);
            assert(t.key_list().take(i as int + 1) =~= t.key_list().take(i as int).push(key@));
        }
        keys.push(key);
        i += 1;
    }
    proof {
        assert(t.key_list().take(i as int) =~= t.key_list());
        lemma_sorted(t.key_list());
    }
    let r: Vec<String> = sort_texts(&keys);
    proof {
        assert forall|i: int| 0 <= i < r@.len() implies t.has(#[trigger] views(r@)[i]) by {
            assert(sorted(t.key_list()).contains(views(r@)[i]));
        }
    }
    r
}

fn write_sonames(t: &Table<String>) -> (r: Json)
    requires
        t.wf(),
    ensures
        r@ == sonames_json(t),
{
    let keys: Vec<String> = sorted_keys(t);
    let ghost v = views(keys@);
    let mut members: Vec<Member> = Vec::new();
    let mut i: usize = 0;
    while i < keys.len()
        invariant
            i <= keys@.len(),
            t.wf(),
            v == views(keys@),
            forall|k: int| 0 <= k < v.len() ==> t.has(#[trigger] v[k]),
            members@.len() == i,
            forall|k: int|
                0 <= k < i ==> ((#[trigger] members@[k]).key@, members@[k].value@) == (
                    v[k],
                    library_json(t.at(v[k])@),
                ),
        decreases keys@.len() - i,
    {
        let key: &String = &keys[i];
        proof {
            assert(v[i as int] == key@);
        }
        match t.get(key) {
            Some(path) => {
                let value: Json = Json::Record(vec![text_member("path", path)]);
                proof {
                    lemma_view(value);
                    assert(value@->Record_0 =~= library_json(path@)->Record_0);
                }
                members.push(member(key, value));
            },
            None => {
                proof {
                    assert(false);
                }
            },
        }
        i += 1;
    }
    let r: Json = Json::Record(members);
    proof {
        lemma_view(r);
        assert(r@->Record_0 =~= sonames_json(t)->Record_0);
    }
    r
}

fn write_executables(t: &Table<Executable>) -> (r: Json)
    requires
        t.wf(),
    ensures
        r@ == executables_json(t),
{
    let keys: Vec<String> = sorted_keys(t);
    let ghost v = views(keys@);
    let mut members: Vec<Member> = Vec::new();
    let mut i: usize = 0;
    while i < keys.len()
        invariant
            i <= keys@.len(),
            t.wf(),
            v == views(keys@),
            forall|k: int| 0 <= k < v.len() ==> t.has(#[trigger] v[k]),
            members@.len() == i,
            forall|k: int|
                0 <= k < i ==> ((#[trigger] members@[k]).key@, members@[k].value@) == (
                    v[k],
                    executable_json(t.at(v[k])@),
                ),
        decreases keys@.len() - i,
    {
        let key: &String = &keys[i];
        proof {
            assert(v[i as int] == key@);
        }
        match t.get(key) {
            Some(e) => {
                let value: Json = Json::Record(
                    vec![text_member("path", &e.path), text_member("type", e.file_type.text())],
                );
                proof {
                    lemma_view(value);
                    assert(value@->Record_0 =~= executable_json(e@)->Record_0);
                }
                members.push(member(key, value));
            },
            None => {
                proof {
                    assert(false);
                }
            },
        }
        i += 1;
    }
    let r: Json = Json::Record(members);
    proof {
        lemma_view(r);
        assert(r@->Record_0 =~= executables_json(t)->Record_0);
    }
    r
}

fn write_section(t: &Table<String>) -> (r: Json)
    requires
        t.wf(),
    ensures
        r@ == section_json(t),
{
    let keys: Vec<String> = sorted_keys(t);
    let ghost v = views(keys@);
    let mut members: Vec<Member> = Vec::new();
    let mut i: usize = 0;
    while i < keys.len()
        invariant
            i <= keys@.len(),
            t.wf(),
            v == views(keys@),
            forall|k: int| 0 <= k < v.len() ==> t.has(#[trigger] v[k]),
            members@.len() == i,
            forall|k: int|
                0 <= k < i ==> ((#[trigger] members@[k]).key@, members@[k].value@) == (
                    v[k],
                    JsonView::Text(t.at(v[k])@),
                ),
        decreases keys@.len() - i,
    {
        let key: &String = &keys[i];
        proof {
            assert(v[i as int] == key@);
        }
        match t.get(key) {
            Some(value) => {
                members.push(text_member(key, value));
            },
            None => {
                proof {
                    assert(false);
                }
            },
        }
        i += 1;
    }
    let r: Json = Json::Record(members);
    proof {
        lemma_view(r);
        assert(r@->Record_0 =~= section_json(t)->Record_0);
    }
    r
}

fn write_sections(t: &Table<Table<String>>) -> (r: Json)
    requires
        sections_wf(t),
    ensures
        r@ == keyed_record(t.key_list(), |k: Seq<char>| section_json(&t.at(k))),
{
    let keys: Vec<String> = sorted_keys(t);
    let ghost v = views(keys@);
    let mut members: Vec<Member> = Vec::new();
    let mut i: usize = 0;
    while i < keys.len()
        invariant
            i <= keys@.len(),
            sections_wf(t),
            v == views(keys@),
            forall|k: int| 0 <= k < v.len() ==> t.has(#[trigger] v[k]),
            members@.len() == i,
            forall|k: int|
                0 <= k < i ==> ((#[trigger] members@[k]).key@, members@[k].value@) == (
                    v[k],
                    section_json(&t.at(v[k])),
                ),
        decreases keys@.len() - i,
    {
        let key: &String = &keys[i];
        proof {
            assert(v[i as int] == key@);
        }
        match t.get(key) {
            Some(section) => {
                members.push(member(key, write_section(section)));
            },
            None => {
                proof {
                    assert(false);
                }
            },
        }
        i += 1;
    }
    let r: Json = Json::Record(members);
    proof {
        lemma_view(r);
        assert(r@->Record_0 =~= keyed_record(
            t.key_list(),
            |k: Seq<char>| section_json(&t.at(k)),
        )->Record_0);
    }
    r
}

fn write_products(list: &Vec<Product>) -> (r: Json)
    ensures
        r@ == JsonView::List(
            product_views(list@).map_values(|p: (Seq<char>, Seq<char>)| product_json(p)),
        ),
{
    let mut items: Vec<Json> = Vec::new();
    let mut i: usize = 0;
    while i < list.len()
        invariant
            i <= list@.len(),
            items@.len() == i,
            forall|k: int| 0 <= k < i ==> (#[trigger] items@[k])@ == product_json(list@[k]@),
        decreases list@.len() - i,
    {
        let value: Json = Json::Record(
            vec![text_member("name", &list[i].name), text_member("version", &list[i].version)],
        );
        proof {
            lemma_view(value);
            assert(value@->Record_0 =~= product_json(list@[i as int]@)->Record_0);
        }
        items.push(value);
        i += 1;
    }
    let r: Json = Json::List(items);
    proof {
        lemma_view(r);
        assert(r@->List_0 =~= product_views(list@).map_values(
            |p: (Seq<char>, Seq<char>)| product_json(p),
        ));
    }
    r
}

fn write_data(d: &DataIndex) -> (r: Json)
    ensures
        r@ == JsonView::Record(data_members(d@)),
{
    let mut members: Vec<Member> = Vec::new();
    proof {
        assert(member_views(members@) =~= Seq::empty());
    }
    add_list(&mut members, "glib-schemas", &d.schemas);
    add_list(&mut members, "gstreamer-plugins", &d.gst_plugins);
    add_list(&mut members, "icon-themes", &d.icons);
    add_list(&mut members, "locale", &d.locales);
    add_member(&mut members, member("mime", Json::Bool(d.mime)));
    let ghost before = member_views(members@);
    match &d.python {
        Some(p) => {
            let value: Json = Json::Record(
                vec![
                    member("modules", Json::from_texts(&p.modules)),
                    text_member("version", &p.version),
                ],
            );
            proof {
                lemma_view(value);
                assert(value@->Record_0 =~= python_json((p.version@, views(p.modules@)))->Record_0);
            }
            add_member(&mut members, member("python", value));
        },
        None => {},
    }
    proof {
        assert(member_views(members@) =~= before + optional_member(
            "python"@,
            match d@.python {
                Some(p) => Some(python_json(p)),
                None => None,
            },
        ));
    }
    add_list(&mut members, "qt-plugins", &d.qt_plugins);
    add_list(&mut members, "typelibs", &d.typelibs);
    let r: Json = Json::Record(members);
    proof {
        lemma_view(r);
        assert(r@->Record_0 =~= data_members(d@));
    }
    r
}

/// The index of a runtime as JSON.
pub fn write_index(index: &RuntimeIndex) -> (r: Json)
    requires
        index.wf(),
    ensures
        r@ == index_json(index),
{
    let mut members: Vec<Member> = Vec::new();
    proof {
        assert(member_views(members@) =~= Seq::empty());
    }
    add_member(&mut members, member("data", write_data(&index.data)));
    add_member(&mut members, member("executables", write_executables(&index.executables)));
    match &index.manifest {
        Some(list) => {
            add_member(&mut members, member("manifest", write_products(list)));
        },
        None => {},
    }
    match &index.metadata {
        Some(t) => {
            add_member(&mut members, member("metadata", write_sections(t)));
        },
        None => {},
    }
    add_member(&mut members, member("sonames", write_sonames(&index.sonames)));
    let mut versions: Vec<Member> = Vec::new();
    proof {
        assert(member_views(versions@) =~= Seq::empty());
    }
    add_text(&mut versions, "glibc", &index.versions.glibc);
    add_text(&mut versions, "libstdcxx", &index.versions.libstdcxx);
    add_text(&mut versions, "qt", &index.versions.qt);
    proof {
        assert(member_views(versions@) =~= version_members(index.versions@));
        assert(member_views(versions@).len() == versions@.len());
    }
    if versions.len() > 0 {
        let value: Json = Json::Record(versions);
        proof {
            lemma_view(value);
        }
        add_member(&mut members, member("versions", value));
    }
    let r: Json = Json::Record(members);
    proof {
        lemma_view(r);
        assert(r@->Record_0 =~= index_members(index));
    }
    r
}

// ---------------------------------------------------------------------------
// Laws
// ---------------------------------------------------------------------------

/// What stands in an index under a key.
pub proof fn lemma_index_lookup(i: &RuntimeIndex, key: Seq<char>)
    ensures
        index_json(i).get(key) == (if key == "data"@ {
            Some(JsonView::Record(data_members(i.data@)))
        } else if key == "executables"@ {
            Some(executables_json(&i.executables))
        } else if key == "manifest"@ {
            manifest_json(i.manifest)
        } else if key == "metadata"@ {
            metadata_json(i.metadata)
        } else if key == "sonames"@ {
            Some(sonames_json(&i.sonames))
        } else if key == "versions"@ {
            versions_json(i.versions@)
        } else {
            None
        }),
{
    reveal_strlit("data");
    reveal_strlit("executables");
    reveal_strlit("manifest");
    reveal_strlit("metadata");
    reveal_strlit("sonames");
    reveal_strlit("versions");
    assert("manifest"@[1] != "metadata"@[1]);
    assert("manifest"@[0] != "versions"@[0]);
    assert("metadata"@[0] != "versions"@[0]);
    assert("data"@.len() != "executables"@.len());
    assert("data"@.len() != "sonames"@.len());
    assert("executables"@.len() != "sonames"@.len());
    assert("sonames"@.len() != "versions"@.len());
    let first = seq![
        ("data"@, JsonView::Record(data_members(i.data@))),
        ("executables"@, executables_json(&i.executables)),
    ];
    let manifest = optional_member("manifest"@, manifest_json(i.manifest));
    let metadata = optional_member("metadata"@, metadata_json(i.metadata));
    let sonames = seq![("sonames"@, sonames_json(&i.sonames))];
    let versions = optional_member("versions"@, versions_json(i.versions@));
    lemma_lookup_concat(first, manifest, key);
    lemma_lookup_concat(first + manifest, metadata, key);
    lemma_lookup_concat(first + manifest + metadata, sonames, key);
    lemma_lookup_concat(first + manifest + metadata + sonames, versions, key);
    lemma_optional_member("manifest"@, manifest_json(i.manifest), key);
    lemma_optional_member("metadata"@, metadata_json(i.metadata), key);
    lemma_optional_member("versions"@, versions_json(i.versions@), key);
    if key == "data"@ {
        lemma_lookup(first, key, 0);
    } else if key == "executables"@ {
        lemma_lookup(first, key, 1);
    } else {
        lemma_lookup_none(first, key);
    }
    if key == "sonames"@ {
        lemma_lookup(sonames, key, 0);
    } else {
        lemma_lookup_none(sonames, key);
    }
}

proof fn lemma_data_lookup(d: DataView)
    ensures
        lookup(data_members(d), "glib-schemas"@) == optional_list(d.schemas),
        lookup(data_members(d), "typelibs"@) == optional_list(d.typelibs),
        lookup(data_members(d), "icon-themes"@) == optional_list(d.icons),
{
    reveal_strlit("glib-schemas");
    reveal_strlit("gstreamer-plugins");
    reveal_strlit("icon-themes");
    reveal_strlit("locale");
    reveal_strlit("mime");
    reveal_strlit("python");
    reveal_strlit("qt-plugins");
    reveal_strlit("typelibs");
    lemma_data_key(d, "glib-schemas"@);
    lemma_data_key(d, "typelibs"@);
    lemma_data_key(d, "icon-themes"@);
    assert("glib-schemas"@.len() != "gstreamer-plugins"@.len());
    assert("glib-schemas"@.len() != "icon-themes"@.len());
    assert("glib-schemas"@.len() != "typelibs"@.len());
    assert("icon-themes"@.len() != "gstreamer-plugins"@.len());
    assert("icon-themes"@.len() != "locale"@.len());
    assert("icon-themes"@.len() != "typelibs"@.len());
    assert("typelibs"@.len() != "gstreamer-plugins"@.len());
    assert("typelibs"@.len() != "locale"@.len());
    assert("typelibs"@.len() != "mime"@.len());
    assert("typelibs"@.len() != "python"@.len());
    assert("typelibs"@.len() != "qt-plugins"@.len());
}

/// A key is found in the first row of members that has it.
pub proof fn lemma_data_key(d: DataView, key: Seq<char>)
    ensures
        lookup(data_members(d), key) == (if key == "glib-schemas"@ && d.schemas is Some {
            optional_list(d.schemas)
        } else if key == "gstreamer-plugins"@ && d.gst_plugins is Some {
            optional_list(d.gst_plugins)
        } else if key == "icon-themes"@ && d.icons is Some {
            optional_list(d.icons)
        } else if key == "locale"@ && d.locales is Some {
            optional_list(d.locales)
        } else if key == "mime"@ {
            Some(JsonView::Bool(d.mime))
        } else if key == "python"@ && d.python is Some {
            Some(python_json(d.python->Some_0))
        } else if key == "qt-plugins"@ && d.qt_plugins is Some {
            optional_list(d.qt_plugins)
        } else if key == "typelibs"@ {
            optional_list(d.typelibs)
        } else {
            None
        }),
{
    let python = match d.python {
        Some(p) => Some(python_json(p)),
        None => None,
    };
    let a = optional_member("glib-schemas"@, optional_list(d.schemas));
    let b = optional_member("gstreamer-plugins"@, optional_list(d.gst_plugins));
    let c = optional_member("icon-themes"@, optional_list(d.icons));
    let e = optional_member("locale"@, optional_list(d.locales));
    let f = seq![("mime"@, JsonView::Bool(d.mime))];
    let g = optional_member("python"@, python);
    let h = optional_member("qt-plugins"@, optional_list(d.qt_plugins));
    let k = optional_member("typelibs"@, optional_list(d.typelibs));
    lemma_lookup_concat(a, b, key);
    lemma_lookup_concat(a + b, c, key);
    lemma_lookup_concat(a + b + c, e, key);
    lemma_lookup_concat(a + b + c + e, f, key);
    lemma_lookup_concat(a + b + c + e + f, g, key);
    lemma_lookup_concat(a + b + c + e + f + g, h, key);
    lemma_lookup_concat(a + b + c + e + f + g + h, k, key);
    lemma_optional_member("glib-schemas"@, optional_list(d.schemas), key);
    lemma_optional_member("gstreamer-plugins"@, optional_list(d.gst_plugins), key);
    lemma_optional_member("icon-themes"@, optional_list(d.icons), key);
    lemma_optional_member("locale"@, optional_list(d.locales), key);
    lemma_optional_member("python"@, python, key);
    lemma_optional_member("qt-plugins"@, optional_list(d.qt_plugins), key);
    lemma_optional_member("typelibs"@, optional_list(d.typelibs), key);
    if key == "mime"@ {
        lemma_lookup(f, key, 0);
    } else {
        lemma_lookup_none(f, key);
    }
}

pub proof fn lemma_version_lookup(v: VersionsView)
    ensures
        lookup(version_members(v), "glibc"@) == optional_text(v.glibc),
        lookup(version_members(v), "libstdcxx"@) == optional_text(v.libstdcxx),
        lookup(version_members(v), "qt"@) == optional_text(v.qt),
{
    reveal_strlit("glibc");
    reveal_strlit("libstdcxx");
    reveal_strlit("qt");
    assert("glibc"@.len() != "libstdcxx"@.len());
    assert("glibc"@.len() != "qt"@.len());
    assert("libstdcxx"@.len() != "qt"@.len());
    let a = optional_member("glibc"@, optional_text(v.glibc));
    let b = optional_member("libstdcxx"@, optional_text(v.libstdcxx));
    let c = optional_member("qt"@, optional_text(v.qt));
    lemma_version_key(a, b, c, v, "glibc"@);
    lemma_version_key(a, b, c, v, "libstdcxx"@);
    lemma_version_key(a, b, c, v, "qt"@);
}

proof fn lemma_version_key(
    a: Seq<(Seq<char>, JsonView)>,
    b: Seq<(Seq<char>, JsonView)>,
    c: Seq<(Seq<char>, JsonView)>,
    v: VersionsView,
    key: Seq<char>,
)
    requires
        a == optional_member("glibc"@, optional_text(v.glibc)),
        b == optional_member("libstdcxx"@, optional_text(v.libstdcxx)),
        c == optional_member("qt"@, optional_text(v.qt)),
    ensures
        lookup(a + b + c, key) == (if key == "glibc"@ && v.glibc is Some {
            optional_text(v.glibc)
        } else if key == "libstdcxx"@ && v.libstdcxx is Some {
            optional_text(v.libstdcxx)
        } else if key == "qt"@ {
            optional_text(v.qt)
        } else {
            None
        }),
{
    lemma_lookup_concat(a, b, key);
    lemma_lookup_concat(a + b, c, key);
    lemma_optional_member("glibc"@, optional_text(v.glibc), key);
    lemma_optional_member("libstdcxx"@, optional_text(v.libstdcxx), key);
    lemma_optional_member("qt"@, optional_text(v.qt), key);
}

/// The libraries that a written index has are those of the runtime.
pub proof fn law_index_has_sonames(i: &RuntimeIndex, soname: Seq<char>)
    ensures
        runtime_soname(index_json(i), soname) <==> i.sonames.has(soname),
{
    lemma_index_lookup(i, "sonames"@);
    lemma_index_order();
    lemma_keyed_record(
        i.sonames.key_list(),
        |k: Seq<char>| library_json(i.sonames.at(k)@),
        soname,
    );
}

/// The keys of an index differ.
pub proof fn lemma_index_order()
    ensures
        "sonames"@ != "data"@,
        "sonames"@ != "executables"@,
        "sonames"@ != "manifest"@,
        "sonames"@ != "metadata"@,
        "executables"@ != "data"@,
        "versions"@ != "data"@,
        "versions"@ != "executables"@,
        "versions"@ != "manifest"@,
        "versions"@ != "metadata"@,
        "versions"@ != "sonames"@,
        "metadata"@ != "data"@,
        "metadata"@ != "executables"@,
        "metadata"@ != "manifest"@,
{
    reveal_strlit("data");
    reveal_strlit("executables");
    reveal_strlit("manifest");
    reveal_strlit("metadata");
    reveal_strlit("sonames");
    reveal_strlit("versions");
    assert("metadata"@[1] != "manifest"@[1]);
    assert("versions"@[0] != "manifest"@[0]);
    assert("versions"@[0] != "metadata"@[0]);
    assert("sonames"@.len() == 7 && "data"@.len() == 4 && "executables"@.len() == 11
        && "manifest"@.len() == 8 && "metadata"@.len() == 8 && "versions"@.len() == 8);
}

/// The executables that a written index has are those of the runtime, and each is
/// found where it is.
pub proof fn law_index_has_executables(i: &RuntimeIndex, name: Seq<char>)
    ensures
        runtime_executable(index_json(i), name) <==> i.executables.has(name),
        i.executables.has(name) ==> runtime_executable_path(index_json(i), name) == "/usr/"@
            + i.executables.at(name)@.0,
{
    lemma_index_lookup(i, "executables"@);
    lemma_index_order();
    let f = |k: Seq<char>| executable_json(i.executables.at(k)@);
    lemma_keyed_record(i.executables.key_list(), f, name);
    lemma_lookup(executable_json(i.executables.at(name)@)->Record_0, "path"@, 0);
}

/// A name stands in a list of texts.
proof fn lemma_listed(names: Seq<Seq<char>>, name: Seq<char>)
    ensures
        lists_text(text_list(names)->List_0, name) <==> names.contains(name),
{
    let list = text_list(names)->List_0;
    if names.contains(name) {
        let k = names.index_of(name);
        assert(list[k] == JsonView::Text(name));
    }
    if list.contains(JsonView::Text(name)) {
        let k = list.index_of(JsonView::Text(name));
        assert(names[k] == name);
    }
}

/// A list of names that may be there holds a name.
pub open spec fn has_name(names: Option<Seq<Seq<char>>>, name: Seq<char>) -> bool {
    names matches Some(list) && list.contains(name)
}

/// The schemas, typelibs and icon themes that a written index lists are those of
/// the runtime.
pub proof fn law_index_lists_data(i: &RuntimeIndex, name: Seq<char>)
    ensures
        runtime_lists(index_json(i), "glib-schemas"@, name) <==> has_name(i.data@.schemas, name),
        runtime_lists(index_json(i), "typelibs"@, name) <==> has_name(i.data@.typelibs, name),
        runtime_lists(index_json(i), "icon-themes"@, name) <==> has_name(i.data@.icons, name),
{
    lemma_index_lookup(i, "data"@);
    lemma_data_lookup(i.data@);
    match i.data@.schemas {
        Some(list) => lemma_listed(list, name),
        None => {},
    }
    match i.data@.typelibs {
        Some(list) => lemma_listed(list, name),
        None => {},
    }
    match i.data@.icons {
        Some(list) => lemma_listed(list, name),
        None => {},
    }
}

/// The versions in a written index are those of the runtime.
pub proof fn law_index_has_versions(i: &RuntimeIndex)
    ensures
        runtime_version(index_json(i), "glibc"@) == i.versions@.glibc,
        runtime_version(index_json(i), "libstdcxx"@) == i.versions@.libstdcxx,
        runtime_version(index_json(i), "qt"@) == i.versions@.qt,
{
    lemma_index_lookup(i, "versions"@);
    lemma_index_order();
    lemma_version_lookup(i.versions@);
    let m = version_members(i.versions@);
    if m.len() == 0 {
        assert(lookup(m, "glibc"@) is None);
        assert(lookup(m, "libstdcxx"@) is None);
        assert(lookup(m, "qt"@) is None);
    }
}

/// The name of the runtime in a written index is that of its metadata.
pub proof fn law_index_has_runtime_name(i: &RuntimeIndex)
    ensures
        runtime_name(index_json(i)) == (match i.metadata {
            Some(t) => if t.has("Runtime"@) && t.at("Runtime"@).has("name"@) {
                t.at("Runtime"@).at("name"@)@
            } else {
                "detected-from-index"@
            },
            None => "detected-from-index"@,
        }),
{
    lemma_index_lookup(i, "metadata"@);
    lemma_index_order();
    match i.metadata {
        Some(t) => {
            lemma_keyed_record(
                t.key_list(),
                |k: Seq<char>| section_json(&t.at(k)),
                "Runtime"@,
            );
            let section = t.at("Runtime"@);
            lemma_keyed_record(
                section.key_list(),
                |k: Seq<char>| JsonView::Text(section.at(k)@),
                "name"@,
            );
        },
        None => {},
    }
}

} // verus!
