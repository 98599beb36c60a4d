use nix2flatpak::classify::{classify_store_path, Classification, FileInfo};
use nix2flatpak::index::{
    captured_version, extract_glibc_version, extract_key_versions, glob_dirs, index_data,
    index_executables, index_libraries, latest_version, library_candidate, name_matches,
    DataFound, DataIndex, DirItem, Executable, FileType, GlobStep, LibraryFile, ProgramFile,
    PythonDir, Versions,
};
use nix2flatpak::index_json::{write_index, RuntimeIndex};
use nix2flatpak::json::{member, text_member, Json};
use nix2flatpak::json_text::parse_json;
use nix2flatpak::metadata::{parse_manifest, parse_manifest_text, parse_metadata};
use nix2flatpak::places::{data_places, dir_positions, program_dirs, python_dir};
use nix2flatpak::plan::{make_plan, Lists, Stats};
use nix2flatpak::table::{NameSet, Table};
use nix2flatpak::version::version_in_index;

fn strings(list: &[&str]) -> Vec<String> {
    list.iter().map(|s| s.to_string()).collect()
}

fn some(s: &str) -> Option<String> {
    Some(s.to_string())
}

fn library(rel_path: &str, soname: Option<&str>) -> LibraryFile {
    LibraryFile {
        fname: rel_path.rsplit('/').next().unwrap().to_string(),
        links_elsewhere: false,
        is_file: true,
        soname: soname.map(|s| s.to_string()),
        rel_path: rel_path.to_string(),
    }
}

fn item(name: &str, is_file: bool, is_dir: bool) -> DirItem {
    DirItem { name: name.to_string(), is_file, is_dir }
}

fn groups(list: &[&str]) -> Vec<Option<String>> {
    list.iter().map(|s| Some(s.to_string())).collect()
}

fn nothing_found() -> DataFound {
    DataFound {
        schemas: None,
        typelibs: None,
        locales: None,
        icons: None,
        mime: false,
        python: None,
        qt_plugins: None,
        gst_plugins: None,
    }
}

fn no_data() -> DataIndex {
    index_data(&nothing_found())
}

#[test]
fn libraries_by_their_sonames() {
    let mut link = library("lib/libb.so", Some("libb.so.1"));
    link.links_elsewhere = true;
    let mut dir = library("lib/libd.so", Some("libd.so.1"));
    dir.is_file = false;
    let files = vec![
        link,
        library("lib/libb.so.1.2", Some("libb.so.1")),
        library("lib/other/libb.so.1", Some("libb.so.1")),
        library("lib/liba.so.1", Some("liba.so.1")),
        library("lib/none.so", None),
        library("lib/text", Some("x")),
        dir,
    ];
    let t = index_libraries(&files);
    assert_eq!(t.len(), 2);
    assert_eq!(t.get("libb.so.1").unwrap(), "lib/libb.so.1.2");
    assert_eq!(t.get("liba.so.1").unwrap(), "lib/liba.so.1");
    assert!(library_candidate("libx.so.1", false, true));
    assert!(!library_candidate("libx.so.1", true, true));
    assert!(!library_candidate("libx.so.1", false, false));
    assert!(!library_candidate("libx.a", false, true));
}

fn program(name: &str, dir: &str, mode: Option<u32>, head: &[u8]) -> ProgramFile {
    ProgramFile {
        name: name.to_string(),
        rel_path: format!("{dir}/{name}"),
        is_file: true,
        mode,
        head: head.to_vec(),
    }
}

#[test]
fn executables_by_their_names() {
    let mut dir = program("dir", "bin", Some(0o755), b"");
    dir.is_file = false;
    let files = vec![
        program("bash", "bin", Some(0o755), b"\x7fELF"),
        program("script", "bin", Some(0o555), b"#!/bin/sh"),
        program("data", "bin", Some(0o644), b"#!/bin/sh"),
        program("odd", "bin", None, b"x"),
        dir,
        program("bash", "sbin", Some(0o755), b"#!"),
    ];
    let t = index_executables(&files);
    assert_eq!(t.len(), 3);
    assert_eq!(t.get("bash").unwrap().path, "sbin/bash");
    assert_eq!(t.get("bash").unwrap().file_type, FileType::Script);
    assert_eq!(t.get("script").unwrap().file_type.text(), "script");
    assert_eq!(t.get("odd").unwrap().file_type.text(), "other");
    assert_eq!(FileType::Elf.text(), "elf");
}

#[test]
fn data_of_a_runtime() {
    let found = DataFound {
        schemas: Some(vec![
            item("b.xml", true, false),
            item("a.gschema.xml", true, false),
            item("gschemas.compiled", true, false),
            item(".xml", true, false),
            item("dir.xml", false, true),
        ]),
        typelibs: Some(vec![item("Gtk.typelib", false, false), item("Gtk.typelib", true, false)]),
        locales: Some(vec![item("de", false, true), item("locale.alias", true, false)]),
        icons: Some(vec![item("hicolor", false, true), item("Adwaita", false, true)]),
        mime: true,
        python: Some(PythonDir {
            name: "python3.12".to_string(),
            items: vec![
                item("json", false, true),
                item("asyncio", false, true),
                item("__pycache__", false, true),
                item("abc.py", true, false),
            ],
        }),
        qt_plugins: Some(vec![item("libq.so", true, false), item("libq.so.1", true, false)]),
        gst_plugins: Some(vec![item("libgst.so", true, false), item("dir.so", false, true)]),
    };
    let d = index_data(&found);
    assert_eq!(d.schemas, Some(strings(&["a.gschema.xml", "b.xml"])));
    assert_eq!(d.typelibs, Some(strings(&["Gtk.typelib"])));
    assert_eq!(d.locales, Some(strings(&["de"])));
    assert_eq!(d.icons, Some(strings(&["Adwaita", "hicolor"])));
    assert!(d.mime);
    let python = d.python.unwrap();
    assert_eq!(python.version, "3.12");
    assert_eq!(python.modules, strings(&["asyncio", "json"]));
    assert_eq!(d.qt_plugins, Some(strings(&["libq.so"])));
    assert_eq!(d.gst_plugins, Some(strings(&["libgst.so"])));
    let d = no_data();
    assert!(d.schemas.is_none() && d.python.is_none() && !d.mime);
}

#[test]
fn patterns_for_directories() {
    let steps = glob_dirs("lib/**/python3.*");
    assert_eq!(steps.len(), 3);
    assert!(matches!(&steps[0], GlobStep::Child(s) if s == "lib"));
    assert!(matches!(&steps[1], GlobStep::AllBelow));
    let GlobStep::Matching(pattern) = &steps[2] else { panic!("no pattern") };
    assert_eq!(pattern, r"^python3\..*$");
    assert!(name_matches(pattern, "python3.12"));
    assert!(!name_matches(pattern, "python3x12"));
    assert!(!name_matches(pattern, "xpython3.12"));
    let steps = glob_dirs("lib/*/x");
    assert!(matches!(&steps[1], GlobStep::Matching(s) if s == "^.*$"));
}

#[test]
fn metadata_files() {
    let text = "stray=1\n# comment\n; comment\n[Runtime]\nname = org.gnome.Platform \n\
                sdk=a=b\nnothing\n\n[Empty]\n[Runtime2]\n=x\n";
    let t = parse_metadata(text).unwrap();
    assert_eq!(t.len(), 3);
    let runtime = t.get("Runtime").unwrap();
    assert_eq!(runtime.len(), 2);
    assert_eq!(runtime.get("name").unwrap(), "org.gnome.Platform");
    assert_eq!(runtime.get("sdk").unwrap(), "a=b");
    assert_eq!(t.get("Empty").unwrap().len(), 0);
    assert_eq!(t.get("Runtime2").unwrap().get("").unwrap(), "x");
    assert!(parse_metadata("a=b\n").is_none());
    assert!(parse_metadata("").is_none());
    let t = parse_metadata("[a]\nx=1\n[b]\n[a]\ny=2").unwrap();
    assert_eq!(t.get("a").unwrap().len(), 1);
    assert_eq!(t.get("a").unwrap().get("y").unwrap(), "2");
}

#[test]
fn manifests() {
    let plain = Json::Record(vec![text_member("name", "zlib"), text_member("version", "1.3")]);
    let cpe = Json::Record(vec![
        text_member("name", "module"),
        member(
            "x-cpe",
            Json::Record(vec![text_member("product", "glib"), text_member("version", "2.80")]),
        ),
    ]);
    let nameless = Json::Record(vec![
        text_member("name", "module"),
        member("x-cpe", Json::Record(vec![])),
    ]);
    let odd = Json::Record(vec![text_member("name", "odd"), member("x-cpe", Json::Null)]);
    let empty = Json::Record(vec![text_member("version", "1")]);
    let raw = Json::Record(vec![
        member("components", Json::List(vec![])),
        member("modules", Json::List(vec![plain, cpe, nameless, odd, empty, Json::Null])),
    ]);
    let list = parse_manifest(&raw).unwrap();
    let r: Vec<(&str, &str)> =
        list.iter().map(|p| (p.name.as_str(), p.version.as_str())).collect();
    assert_eq!(r, vec![("zlib", "1.3"), ("glib", "2.80"), ("module", ""), ("odd", "")]);
    let item = || Json::Record(vec![text_member("name", "x")]);
    assert_eq!(parse_manifest(&Json::List(vec![item()])).unwrap().len(), 1);
    let raw = Json::Record(vec![
        member("components", Json::List(vec![item()])),
        member("modules", Json::Null),
    ]);
    assert_eq!(parse_manifest(&raw).unwrap()[0].name, "x");
    assert!(parse_manifest(&Json::Null).is_none());
    assert!(parse_manifest(&Json::List(vec![])).is_none());
}

#[test]
fn products_in_the_text_of_a_manifest() {
    let text = r#"{"modules": [
        {"name": "zlib", "version": "1.3"},
        {"name": "m", "x-cpe": {"product": "glib", "version": "2.80"}},
        {"version": "1"}, 3
    ]}"#;
    let list = parse_manifest_text(text).unwrap();
    let r: Vec<(&str, &str)> =
        list.iter().map(|p| (p.name.as_str(), p.version.as_str())).collect();
    assert_eq!(r, vec![("zlib", "1.3"), ("glib", "2.80")]);
    assert_eq!(parse_manifest_text(r#"[{"name": "x"}]"#).unwrap()[0].name, "x");
    assert!(parse_manifest_text(r#"{"modules": []}"#).is_none());
    assert!(parse_manifest_text("{").is_none());
    assert!(parse_manifest_text("").is_none());
}

#[test]
fn values_in_the_text_of_json() {
    let text = r#" {"b": [null, true, 7, -1, 0.5, "x\u0041\n"], "a": {}, "b2": 1, "a": "last"} "#;
    let json = match parse_json(text) {
        Ok(json) => json,
        Err(_) => panic!("no JSON"),
    };
    assert_eq!(json.keys().unwrap(), strings(&["a", "b", "b2"]));
    assert_eq!(json.text_at("a").unwrap(), "last");
    let list = json.list_at("b").unwrap();
    assert_eq!(list.len(), 6);
    assert!(matches!(list[0], Json::Null));
    assert!(matches!(list[1], Json::Bool(true)));
    assert!(matches!(list[2], Json::Number(7)));
    assert!(matches!(list[3], Json::Other));
    assert!(matches!(list[4], Json::Other));
    assert_eq!(list[5].text().unwrap(), "xA\n");
    assert!(matches!(json.get("b2").unwrap(), Json::Number(1)));
    match parse_json("[1,]") {
        Ok(_) => panic!("no JSON"),
        Err(e) => assert!(e.source.is_syntax()),
    }
    assert!(parse_json("1 2").is_err());
}

fn path(text: &str) -> Vec<Vec<u8>> {
    text.split('/').filter(|c| !c.is_empty()).map(|c| c.as_bytes().to_vec()).collect()
}

#[test]
fn places_of_programs_and_data() {
    assert_eq!(program_dirs(), strings(&["bin", "libexec", "sbin"]));
    let places = data_places();
    assert_eq!(places.schemas, "share/glib-2.0/schemas");
    assert_eq!(places.locales, "share/locale");
    assert_eq!(places.icons, "share/icons");
    assert_eq!(places.mime, "share/mime");
    assert_eq!(places.typelibs, "lib/**/girepository-1.0");
    assert_eq!(places.qt_plugins, "lib/**/qt6/plugins");
    assert_eq!(places.gst_plugins, "lib/**/gstreamer-1.0");
    assert_eq!(places.python, "lib/python3.*");
    assert_eq!(places.nested_python, "lib/*/python3.*");
    assert_eq!(python_dir(vec![1, 2], vec![3]), Some(1));
    assert_eq!(python_dir(vec![], vec![3, 4]), Some(3));
    assert_eq!(python_dir::<u8>(vec![], vec![]), None);
}

#[test]
fn directories_are_in_order() {
    // by components: what is below `a` comes before `a-b`
    let dirs = vec![path("lib/a-b"), path("lib/a/z"), path("lib"), path("lib/a"), path("lib/a/")];
    assert_eq!(dir_positions(&dirs), vec![2, 3, 4, 1, 0]);
    assert_eq!(dir_positions(&vec![path("python3.9"), path("python3.12")]), vec![1, 0]);
    assert!(dir_positions(&vec![]).is_empty());
}

#[test]
fn versions_of_glibc() {
    let data = b"\x7fELF\0GLIBC_2.2.5\0GLIBC_2.40\0\xff\xfeGLIBC_2.9\0GLIBC_PRIVATE\0";
    assert_eq!(extract_glibc_version(data), some("2.40"));
    assert_eq!(extract_glibc_version(b"nothing"), None);
    assert_eq!(extract_glibc_version(b"GLIBC_0.0"), None);
    assert_eq!(extract_glibc_version(b"GLIBC_2.40 GLIBC_2.99999999999"), None);
    assert_eq!(extract_glibc_version("GLIBC_2.٤".as_bytes()), None);
    let matches = vec![groups(&["", "2", "9"]), groups(&["", "2", "10"]), groups(&["", "1", "99"])];
    assert_eq!(latest_version(&matches), some("2.10"));
    assert_eq!(latest_version(&vec![]), None);
    assert_eq!(latest_version(&vec![groups(&["", "2", "x"])]), None);
}

#[test]
fn invalid_bytes_are_replaced() {
    // the replacement character keeps the two halves apart
    assert_eq!(extract_glibc_version(b"GLIBC_\xff2.40"), None);
    assert_eq!(extract_glibc_version(b"GLIBC_2.4\xff0"), some("2.4"));
}

#[test]
fn versions_of_libraries() {
    let mut sonames = Table::new();
    sonames.insert("libstdc++.so.6".to_string(), "lib/libstdc++.so.6.0.34".to_string());
    sonames.insert("libQt6Core.so.6".to_string(), "lib/libQt6Core.so.6.10.0".to_string());
    let v = extract_key_versions(&sonames, Some(b"GLIBC_2.42"));
    assert_eq!(v.glibc, None);
    assert_eq!(v.libstdcxx, some("6.0.34"));
    assert_eq!(v.qt, some("6.10.0"));
    let mut sonames = Table::new();
    sonames.insert("libc.so.6".to_string(), "lib/libc.so.6".to_string());
    sonames.insert("libstdc++.so.6".to_string(), "lib/libstdc++.so.6".to_string());
    let v = extract_key_versions(&sonames, Some(b"GLIBC_2.42"));
    assert_eq!(v.glibc, some("2.42"));
    assert_eq!(v.libstdcxx, None);
    assert_eq!(v.qt, None);
    assert_eq!(extract_key_versions(&sonames, None).glibc, None);
    assert_eq!(captured_version(&Some(groups(&["a", "b"]))), some("b"));
    assert_eq!(captured_version(&None), None);
}

fn runtime() -> RuntimeIndex {
    let mut sonames = Table::new();
    sonames.insert("libz.so.1".to_string(), "lib/libz.so.1.3".to_string());
    sonames.insert("libc.so.6".to_string(), "lib/libc.so.6".to_string());
    let mut executables = Table::new();
    executables.insert(
        "bash".to_string(),
        Executable { path: "bin/bash".to_string(), file_type: FileType::Elf },
    );
    let mut found = nothing_found();
    found.icons = Some(vec![item("hicolor", false, true)]);
    found.schemas = Some(vec![item("org.gtk.xml", true, false)]);
    found.typelibs = Some(vec![item("Gtk.typelib", true, false)]);
    RuntimeIndex {
        sonames,
        executables,
        data: index_data(&found),
        versions: Versions { glibc: some("2.40"), libstdcxx: None, qt: some("6.10.0") },
        metadata: parse_metadata("[Runtime]\nname=org.kde.Platform\n"),
        manifest: parse_manifest(&Json::List(vec![Json::Record(vec![text_member("name", "zlib")])])),
    }
}

#[test]
fn an_index_as_json() {
    let json = write_index(&runtime());
    assert_eq!(
        json.keys().unwrap(),
        strings(&["data", "executables", "manifest", "metadata", "sonames", "versions"])
    );
    assert_eq!(json.get("sonames").unwrap().keys().unwrap(), strings(&["libc.so.6", "libz.so.1"]));
    assert_eq!(
        json.get("data").unwrap().keys().unwrap(),
        strings(&["glib-schemas", "icon-themes", "mime", "typelibs"])
    );
    assert_eq!(json.get("versions").unwrap().keys().unwrap(), strings(&["glibc", "qt"]));
    let bash = json.get2("executables", "bash").unwrap();
    assert_eq!(bash.text_at("path").unwrap(), "bin/bash");
    assert_eq!(bash.text_at("type").unwrap(), "elf");
    let zlib = &json.list_at("manifest").unwrap()[0];
    assert_eq!(zlib.text_at("name").unwrap(), "zlib");
    assert_eq!(zlib.text_at("version").unwrap(), "");
    let mut bare = runtime();
    bare.versions = Versions { glibc: None, libstdcxx: None, qt: None };
    bare.metadata = None;
    bare.manifest = None;
    bare.data = no_data();
    let json = write_index(&bare);
    assert_eq!(json.keys().unwrap(), strings(&["data", "executables", "sonames"]));
    assert_eq!(json.get("data").unwrap().keys().unwrap(), strings(&["mime"]));
}

#[test]
fn a_written_index_is_read_back() {
    let json = write_index(&runtime());
    let file = |rel_path: &str, soname: Option<&str>| FileInfo {
        filepath: format!("/nix/store/h-x/{rel_path}"),
        fname: rel_path.rsplit('/').next().unwrap().to_string(),
        rel_path: rel_path.to_string(),
        soname: soname.map(|s| s.to_string()),
        is_symlink: false,
    };
    let files = vec![
        file("lib/libz.so.1", Some("libz.so.1")),
        file("lib/libown.so.1", Some("libown.so.1")),
        file("bin/bash", None),
        file("share/icons/hicolor/x.png", None),
        file("share/glib-2.0/schemas/org.gtk.xml", None),
        file("lib/girepository-1.0/Gtk.typelib", None),
    ];
    let r = classify_store_path("/nix/store/h-x", Some(&files), &json, "/t", &NameSet::new());
    assert_eq!(r.classification, Classification::Partial);
    assert_eq!(r.kept_files, strings(&["lib/libown.so.1"]));
    assert_eq!(r.matched_sonames, strings(&["libz.so.1"]));
    assert_eq!(r.rewrites[0].to, "/usr/bin/bash");
    assert_eq!(version_in_index(&json, "glibc"), some("2.40"));
    assert_eq!(version_in_index(&json, "libstdcxx"), None);
    assert_eq!(version_in_index(&json, "qt"), some("6.10.0"));
    let stats = Stats {
        closure_paths: 0,
        closure_size: 0,
        kept_size: 0,
        dedup_ratio: "0.0%".to_string(),
    };
    let p = make_plan(Lists::new(), vec![], &json, "p", stats);
    assert_eq!(p.runtime, "org.kde.Platform");
}
