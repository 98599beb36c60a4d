//! The index of a runtime as a file.
use vstd::prelude::*;

use crate::index_json::{
    executable_json, index_json, lemma_data_key, lemma_index_lookup, lemma_index_order,
    lemma_version_lookup, library_json, manifest_json, metadata_json, product_json, python_json,
    section_json, version_members, versions_json, RuntimeIndex,
};
use crate::json::{lemma_keyed_record, lemma_lookup, JsonView};

verus! {

/// A list of texts under a key, where there is one.
pub open spec fn is_listing(v: Option<JsonView>, names: Option<Seq<Seq<char>>>) -> bool {
    &&& v is Some <==> names is Some
    &&& v matches Some(json) ==> json is List && json->List_0.len() == names->Some_0.len() && (
    forall|i: int|
        0 <= i < json->List_0.len() ==> #[trigger] json->List_0[i] == JsonView::Text(
            names->Some_0[i],
        ))
}

/// A text under a key, where there is one.
pub open spec fn is_text(v: Option<JsonView>, text: Option<Seq<char>>) -> bool {
    &&& v is Some <==> text is Some
    &&& v matches Some(json) ==> json == JsonView::Text(text->Some_0)
}

/// The parts of an index, in order. The products, the metadata and the versions are there
/// where they are known.
pub proof fn law_index_keys(i: &RuntimeIndex)
    ensures
        index_json(i).keys() == Some(
            seq!["data"@, "executables"@] + (if i.manifest is Some {
                seq!["manifest"@]
            } else {
                seq![]
            }) + (if i.metadata is Some {
                seq!["metadata"@]
            } else {
                seq![]
            }) + seq!["sonames"@] + (if i.versions@.glibc is Some || i.versions@.libstdcxx is Some
                || i.versions@.qt is Some {
                seq!["versions"@]
            } else {
                seq![]
            }),
        ),
{
    let keys = seq!["data"@, "executables"@] + (if i.manifest is Some {
        seq!["manifest"@]
    } else {
        seq![]
    }) + (if i.metadata is Some {
        seq!["metadata"@]
    } else {
        seq![]
    }) + seq!["sonames"@] + (if i.versions@.glibc is Some || i.versions@.libstdcxx is Some
        || i.versions@.qt is Some {
        seq!["versions"@]
    } else {
        seq![]
    });
    assert(manifest_json(i.manifest) is Some <==> i.manifest is Some);
    assert(metadata_json(i.metadata) is Some <==> i.metadata is Some);
    assert(versions_json(i.versions@) is Some <==> i.versions@.glibc is Some
        || i.versions@.libstdcxx is Some || i.versions@.qt is Some);
    assert(index_json(i).keys()->Some_0 =~= keys);
}

/// Each library of the runtime stands under its SONAME with its path.
pub proof fn law_index_libraries(i: &RuntimeIndex, soname: Seq<char>)
    ensures
        ({
            let v = index_json(i).get2("sonames"@, soname);
            &&& v is Some <==> i.sonames.has(soname)
            &&& v matches Some(json) ==> json.keys() == Some(seq!["path"@]) && json.get("path"@)
                == Some(JsonView::Text(i.sonames.at(soname)@))
        }),
{
    lemma_index_lookup(i, "sonames"@);
    lemma_index_order();
    lemma_keyed_record(
        i.sonames.key_list(),
        |k: Seq<char>| library_json(i.sonames.at(k)@),
        soname,
    );
    let json = library_json(i.sonames.at(soname)@);
    lemma_lookup(json->Record_0, "path"@, 0);
    assert(json.keys()->Some_0 =~= seq!["path"@]);
}

/// Each executable of the runtime stands under its name with its path and its type.
pub proof fn law_index_executables(i: &RuntimeIndex, name: Seq<char>)
    ensures
        ({
            let v = index_json(i).get2("executables"@, name);
            &&& v is Some <==> i.executables.has(name)
            &&& v matches Some(json) ==> json.keys() == Some(seq!["path"@, "type"@]) && json.get(
                "path"@,
            ) == Some(JsonView::Text(i.executables.at(name)@.0)) && json.get("type"@) == Some(
                JsonView::Text(i.executables.at(name)@.1@),
            )
        }),
{
    lemma_index_lookup(i, "executables"@);
    lemma_index_order();
    reveal_strlit("path");
    reveal_strlit("type");
    assert("path"@.len() == 4);
    assert("type"@.len() == 4);
    assert("path"@[0] != "type"@[0]);
    lemma_keyed_record(
        i.executables.key_list(),
        |k: Seq<char>| executable_json(i.executables.at(k)@),
        name,
    );
    let json = executable_json(i.executables.at(name)@);
    lemma_lookup(json->Record_0, "path"@, 0);
    lemma_lookup(json->Record_0, "type"@, 1);
    assert(json.keys()->Some_0 =~= seq!["path"@, "type"@]);
}

/// Each listing of data stands under its key, where its directory is there.
pub proof fn law_index_data(i: &RuntimeIndex)
    ensures
        is_listing(index_json(i).get2("data"@, "glib-schemas"@), i.data@.schemas),
        is_listing(index_json(i).get2("data"@, "gstreamer-plugins"@), i.data@.gst_plugins),
        is_listing(index_json(i).get2("data"@, "icon-themes"@), i.data@.icons),
        is_listing(index_json(i).get2("data"@, "locale"@), i.data@.locales),
        is_listing(index_json(i).get2("data"@, "qt-plugins"@), i.data@.qt_plugins),
        is_listing(index_json(i).get2("data"@, "typelibs"@), i.data@.typelibs),
        index_json(i).get2("data"@, "mime"@) == Some(JsonView::Bool(i.data@.mime)),
        index_json(i).get2("data"@, "python"@) is Some <==> i.data@.python is Some,
        i.data@.python matches Some(p) ==> {
            let v = index_json(i).get2("data"@, "python"@)->Some_0;
            &&& v.keys() == Some(seq!["modules"@, "version"@])
            &&& is_listing(v.get("modules"@), Some(p.1))
            &&& is_text(v.get("version"@), Some(p.0))
        },
{
    lemma_index_lookup(i, "data"@);
    let d = i.data@;
    reveal_strlit("glib-schemas");
    reveal_strlit("gstreamer-plugins");
    reveal_strlit("icon-themes");
    reveal_strlit("locale");
    reveal_strlit("mime");
    reveal_strlit("python");
    reveal_strlit("qt-plugins");
    reveal_strlit("typelibs");
    assert("glib-schemas"@.len() == 12);
    assert("gstreamer-plugins"@.len() == 17);
    assert("icon-themes"@.len() == 11);
    assert("locale"@.len() == 6);
    assert("mime"@.len() == 4);
    assert("python"@.len() == 6);
    assert("qt-plugins"@.len() == 10);
    assert("typelibs"@.len() == 8);
    assert("locale"@[0] != "python"@[0]);
    lemma_data_key(d, "glib-schemas"@);
    lemma_data_key(d, "gstreamer-plugins"@);
    lemma_data_key(d, "icon-themes"@);
    lemma_data_key(d, "locale"@);
    lemma_data_key(d, "mime"@);
    lemma_data_key(d, "python"@);
    lemma_data_key(d, "qt-plugins"@);
    lemma_data_key(d, "typelibs"@);
    reveal_strlit("modules");
    reveal_strlit("version");
    assert("modules"@.len() == 7);
    assert("version"@.len() == 7);
    assert("modules"@[0] != "version"@[0]);
    if d.python is Some {
        let json = python_json(d.python->Some_0);
        lemma_lookup(json->Record_0, "modules"@, 0);
        lemma_lookup(json->Record_0, "version"@, 1);
        assert(json.keys()->Some_0 =~= seq!["modules"@, "version"@]);
    }
}

/// Each version stands under its key, where it is known.
pub proof fn law_index_versions(i: &RuntimeIndex)
    ensures
        is_text(index_json(i).get2("versions"@, "glibc"@), i.versions@.glibc),
        is_text(index_json(i).get2("versions"@, "libstdcxx"@), i.versions@.libstdcxx),
        is_text(index_json(i).get2("versions"@, "qt"@), i.versions@.qt),
{
    lemma_index_lookup(i, "versions"@);
    lemma_index_order();
    lemma_version_lookup(i.versions@);
    let m = version_members(i.versions@);
    if m.len() == 0 {
        assert(crate::json::lookup(m, "glibc"@) is None);
        assert(crate::json::lookup(m, "libstdcxx"@) is None);
        assert(crate::json::lookup(m, "qt"@) is None);
    }
}

/// Each entry of the metadata stands under its section and its key.
pub proof fn law_index_metadata(i: &RuntimeIndex, section: Seq<char>, key: Seq<char>)
    ensures
        i.metadata is None ==> index_json(i).get("metadata"@) is None,
        i.metadata matches Some(t) ==> {
            let v = index_json(i).get2("metadata"@, section);
            &&& v is Some <==> t.has(section)
            &&& t.has(section) ==> (v->Some_0.get(key) is Some <==> t.at(section).has(key))
            &&& t.has(section) && t.at(section).has(key) ==> v->Some_0.get(key) == Some(
                JsonView::Text(t.at(section).at(key)@),
            )
        },
{
    lemma_index_lookup(i, "metadata"@);
    lemma_index_order();
    match i.metadata {
        Some(t) => {
            lemma_keyed_record(t.key_list(), |k: Seq<char>| section_json(&t.at(k)), section);
            let inner = t.at(section);
            lemma_keyed_record(
                inner.key_list(),
                |k: Seq<char>| JsonView::Text(inner.at(k)@),
                key,
            );
        },
        None => {},
    }
}

/// Each product stands in the list of products with its name and its version.
pub proof fn law_index_manifest(i: &RuntimeIndex, k: int)
    ensures
        i.manifest is None ==> index_json(i).get("manifest"@) is None,
        i.manifest matches Some(list) ==> {
            let v = index_json(i).get("manifest"@);
            &&& v is Some && v->Some_0 is List && v->Some_0->List_0.len() == list@.len()
            &&& 0 <= k < list@.len() ==> {
                let json = v->Some_0->List_0[k];
                &&& json.keys() == Some(seq!["name"@, "version"@])
                &&& json.get("name"@) == Some(JsonView::Text(list@[k].name@))
                &&& json.get("version"@) == Some(JsonView::Text(list@[k].version@))
            }
        },
{
    lemma_index_lookup(i, "manifest"@);
    lemma_index_order();
    reveal_strlit("name");
    reveal_strlit("version");
    reveal_strlit("manifest");
    reveal_strlit("data");
    reveal_strlit("executables");
    assert("name"@.len() == 4);
    assert("version"@.len() == 7);
    assert("manifest"@.len() == 8);
    assert("data"@.len() == 4);
    assert("executables"@.len() == 11);
    assert("manifest"@.len() != "data"@.len());
    assert("manifest"@.len() != "executables"@.len());
    assert("name"@.len() != "version"@.len());
    match i.manifest {
        Some(list) => {
            if 0 <= k < list@.len() {
                let json = product_json((list@[k].name@, list@[k].version@));
                lemma_lookup(json->Record_0, "name"@, 0);
                lemma_lookup(json->Record_0, "version"@, 1);
                assert(json.keys()->Some_0 =~= seq!["name"@, "version"@]);
                assert(index_json(i).get("manifest"@)->Some_0->List_0[k] == json);
            }
        },
        None => {},
    }
}

} // verus!
