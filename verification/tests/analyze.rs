use nix2flatpak::classify::{
    classify_files, classify_store_path, file_fate, is_build_or_dev_artifact, is_content,
    is_executable_path, is_library_name, is_plugin_so, Classification, ClassifyResult, FileFate,
    FileInfo, Reason,
};
use nix2flatpak::closure::{
    collect_references, compute_reverse_refs, essential_deps, parse_closure, parse_references,
    parse_requisites,
};
use nix2flatpak::json::{member, text_member, Json};
use nix2flatpak::orphans::{drop_orphaned_paths, DropEntry, KeepEntry, PartialEntry};
use nix2flatpak::rewrites::RewriteKind;
use nix2flatpak::scan::Scanner;
use nix2flatpak::table::{NameSet, Table};

fn strings(list: &[&str]) -> Vec<String> {
    list.iter().map(|s| s.to_string()).collect()
}

fn index() -> Json {
    let entry = |path: &str| Json::Record(vec![text_member("path", path)]);
    Json::Record(vec![
        member(
            "data",
            Json::Record(vec![
                member("glib-schemas", Json::from_texts(&strings(&["org.gtk.xml"]))),
                member("icon-themes", Json::from_texts(&strings(&["hicolor"]))),
                member("typelibs", Json::from_texts(&strings(&["Gtk-4.0.typelib"]))),
            ]),
        ),
        member(
            "executables",
            Json::Record(vec![
                member("bash", entry("bin/bash")),
                member("odd", Json::Record(vec![])),
            ]),
        ),
        member(
            "sonames",
            Json::Record(vec![
                member("libc.so.6", entry("lib/libc.so.6")),
                member("libplain.so", entry("lib/libplain.so")),
            ]),
        ),
    ])
}

const STORE: &str = "/nix/store/hash-pkg";

fn file(rel_path: &str, soname: Option<&str>, is_symlink: bool) -> FileInfo {
    FileInfo {
        filepath: format!("{STORE}/{rel_path}"),
        fname: rel_path.rsplit('/').next().unwrap().to_string(),
        rel_path: rel_path.to_string(),
        soname: soname.map(|s| s.to_string()),
        is_symlink,
    }
}

fn classify(files: Vec<FileInfo>, target: &str, essential: &[&str]) -> ClassifyResult {
    classify_store_path(
        STORE,
        Some(&files),
        &index(),
        target,
        &NameSet::from_list(&strings(essential)),
    )
}

#[test]
fn build_artifacts() {
    for path in [
        "include/zlib.h",
        "lib/pkgconfig/zlib.pc",
        "share/man/man1/ls.1",
        "share/doc/x/README",
        "lib/libz.a",
        "lib/libz.la",
        "nix-support/propagated-build-inputs",
        "share/cmake/x",
        "include",
        "x.gir",
        "share/bash-completion/completions/git",
    ] {
        assert!(is_build_or_dev_artifact(path), "{path}");
    }
    for path in ["lib/libz.so.1", "bin/ls", "share/manual/x", "includes/x", "", "lib/x.pcm"] {
        assert!(!is_build_or_dev_artifact(path), "{path}");
    }
}

#[test]
fn plugins() {
    assert!(is_plugin_so("lib/gtk-4.0/x.so"));
    assert!(is_plugin_so("lib/libnss_dns.so.2"));
    assert!(!is_plugin_so("lib/libnss_dns.so"));
    assert!(!is_plugin_so("lib/libc.so.6"));
    assert!(!is_plugin_so("share/x/y.so"));
    assert!(!is_plugin_so("lib"));
    assert!(!is_plugin_so(""));
}

#[test]
fn executable_paths() {
    for path in ["bin/x", "sbin/x", "libexec/x", "share/x/bin/y", "a/sbin/b", "a/libexec/b"] {
        assert!(is_executable_path(path), "{path}");
    }
    for path in ["binary/x", "bin", "lib/x", "share/sbin"] {
        assert!(!is_executable_path(path), "{path}");
    }
    assert!(is_library_name("libx.so.1"));
    assert!(!is_library_name("x.so.py"));
    assert!(!is_library_name("x.txt"));
}

#[test]
fn content_of_store_paths() {
    assert!(is_content(true, false, true));
    assert!(is_content(false, true, true));
    assert!(!is_content(false, true, false));
    assert!(!is_content(false, false, true));
}

#[test]
fn a_store_path_that_is_not_there() {
    let r = classify_store_path("/nix/store/x", None, &index(), "/t", &NameSet::new());
    assert_eq!(r.classification, Classification::Drop);
    assert_eq!(r.reason, Reason::NotFound);
    assert_eq!(r.reason.text(), "not-found");
    assert_eq!(r.store_path, "/nix/store/x");
}

#[test]
fn an_empty_store_path() {
    let r = classify(vec![], "/t", &[]);
    assert_eq!(r.classification, Classification::Drop);
    assert_eq!(r.reason.text(), "empty");
    let r = classify(vec![], STORE, &[]);
    assert_eq!(r.classification, Classification::Drop);
}

#[test]
fn the_package_itself_is_kept_whole() {
    let files = vec![
        file("include/x.h", None, false),
        file("lib/libc.so.6", Some("libc.so.6"), false),
        file("bin/bash", None, false),
        file("share/icons/hicolor/x.svg", None, false),
        file("share/locale/de/x.mo", None, false),
    ];
    let r = classify(files, STORE, &[]);
    assert_eq!(r.classification, Classification::Keep);
    assert_eq!(r.reason.text(), "target-package");
    assert!(r.dropped_files.is_empty());
    assert!(r.rewrites.is_empty());
    assert_eq!(
        r.kept_files,
        strings(&[
            "bin/bash",
            "share/icons/hicolor/x.svg",
            "include/x.h",
            "lib/libc.so.6",
            "share/locale/de/x.mo"
        ])
    );
}

#[test]
fn libraries_of_the_runtime_are_dropped() {
    let files = vec![
        file("lib/libc.so.6", Some("libc.so.6"), false),
        file("lib/libc.so", None, false),
        file("lib/gconv/X.so", Some("X.so"), false),
        file("bin/ldd", None, false),
        file("share/misc", None, false),
    ];
    let r = classify(files, "/t", &[STORE]);
    assert_eq!(r.classification, Classification::Drop);
    assert_eq!(r.reason.text(), "all-content-in-runtime");
    assert_eq!(r.matched_sonames, strings(&["libc.so.6"]));
    assert_eq!(
        r.dropped_files,
        strings(&["lib/libc.so.6", "lib/libc.so", "lib/gconv/X.so", "bin/ldd", "share/misc"])
    );
    assert!(r.kept_files.is_empty());
}

#[test]
fn libraries_beside_those_of_the_runtime_are_kept() {
    let files = vec![
        file("lib/libc.so.6", Some("libc.so.6"), false),
        file("lib/libother.so.1", Some("libother.so.1"), false),
        file("lib/libother.so", None, true),
    ];
    let r = classify(files, "/t", &[]);
    assert_eq!(r.classification, Classification::Partial);
    assert_eq!(r.reason.text(), "");
    assert_eq!(r.kept_files, strings(&["lib/libother.so.1"]));
    assert_eq!(r.dropped_files, strings(&["lib/libc.so.6", "lib/libother.so"]));
}

#[test]
fn a_soname_without_version_drops_no_plugins() {
    let files = vec![
        file("lib/libplain.so", Some("libplain.so"), false),
        file("lib/x/y.so", Some("y.so"), false),
        file("lib/z.so", None, false),
    ];
    let r = classify(files, "/t", &[]);
    assert_eq!(r.kept_files, strings(&["lib/x/y.so"]));
    assert_eq!(r.dropped_files, strings(&["lib/libplain.so", "lib/z.so"]));
}

#[test]
fn executables_of_the_runtime_are_rewritten() {
    let files = vec![file("bin/bash", None, false), file("bin/odd", None, false)];
    let r = classify(files, "/t", &[STORE]);
    assert_eq!(r.classification, Classification::Drop);
    assert_eq!(r.rewrites.len(), 2);
    assert_eq!(r.rewrites[0].from, format!("{STORE}/bin/bash"));
    assert_eq!(r.rewrites[0].to, "/usr/bin/bash");
    assert_eq!(r.rewrites[0].kind, RewriteKind::Executable);
    assert_eq!(r.rewrites[0].kind.text(), "executable");
    assert_eq!(r.rewrites[0].referenced_by, None);
    assert_eq!(r.rewrites[1].to, "/usr/");
}

#[test]
fn executables_of_essential_dependencies_are_kept() {
    let files = || vec![file("bin/tool", None, false)];
    let r = classify(files(), "/t", &[STORE]);
    assert_eq!(r.classification, Classification::Keep);
    assert_eq!(r.reason.text(), "no-runtime-match");
    let r = classify(files(), "/t", &[]);
    assert_eq!(r.classification, Classification::Drop);
}

#[test]
fn data_of_the_runtime_is_dropped() {
    let files = vec![
        file("share/glib-2.0/schemas/org.gtk.xml", None, false),
        file("share/glib-2.0/schemas/org.own.xml", None, false),
        file("lib/girepository-1.0/Gtk-4.0.typelib", None, false),
        file("share/locale/de/x.mo", None, false),
        file("share/icons/hicolor/x.svg", None, false),
        file("share/icons/own/x.svg", None, false),
        file("share/x/share/icons/", None, false),
    ];
    let r = classify(files, "/t", &[]);
    assert_eq!(
        r.kept_files,
        strings(&[
            "share/glib-2.0/schemas/org.own.xml",
            "share/icons/own/x.svg",
            "share/x/share/icons/"
        ])
    );
    assert_eq!(r.classification, Classification::Partial);
}

#[test]
fn the_fate_of_files() {
    let i = index();
    let fate = |f: &FileInfo, versioned: bool| file_fate(f, &i, false, false, versioned, false);
    assert!(matches!(fate(&file("lib/a.h", None, false), false), FileFate::Drop));
    assert!(matches!(
        fate(&file("lib/libc.so.6", Some("libc.so.6"), false), false),
        FileFate::Matched(s) if s == "libc.so.6"
    ));
    assert!(matches!(fate(&file("lib/x/y.so", Some("y"), false), true), FileFate::Drop));
    assert!(matches!(fate(&file("lib/x/y.so", Some("y"), false), false), FileFate::Keep));
    assert!(matches!(
        fate(&file("bin/bash", None, false), false),
        FileFate::Replaced(s) if s == "/usr/bin/bash"
    ));
}

#[test]
fn each_file_is_kept_or_dropped() {
    let files = vec![
        file("include/x.h", None, false),
        file("lib/libc.so.6", Some("libc.so.6"), false),
        file("bin/tool", None, false),
        file("share/x", None, false),
    ];
    for versioned in [false, true] {
        let r = classify_files(STORE, &files, &index(), false, true, versioned, false);
        let mut all = r.kept_files.clone();
        all.extend(r.dropped_files.clone());
        all.sort();
        assert_eq!(all, strings(&["bin/tool", "include/x.h", "lib/libc.so.6", "share/x"]));
    }
}

#[test]
fn closure_files() {
    let text = "/nix/store/b\n/nix/store/b.drv\n2\n/nix/store/b\n/nix/store/a\n\
                /nix/store/a\n\n0\n";
    let (paths, refs) = parse_closure(text);
    assert_eq!(paths, strings(&["/nix/store/a", "/nix/store/b"]));
    assert_eq!(*refs.get("/nix/store/b").unwrap(), strings(&["/nix/store/b", "/nix/store/a"]));
    assert!(refs.get("/nix/store/a").unwrap().is_empty());
    assert_eq!(refs.len(), 2);
}

#[test]
fn closure_files_with_gaps() {
    // no number of references
    let (paths, refs) = parse_closure("/nix/store/a\n\nx\n/nix/store/b");
    assert_eq!(paths, strings(&["/nix/store/a", "/nix/store/b"]));
    assert_eq!(refs.len(), 0);
    // more references than lines, and lines that are none
    let (paths, refs) = parse_closure("/nix/store/a\n\n9\nother\n /nix/store/c \n");
    assert_eq!(paths, strings(&["/nix/store/a"]));
    assert_eq!(*refs.get("/nix/store/a").unwrap(), strings(&["/nix/store/c"]));
    // the first line must be a store path
    let (paths, refs) = parse_closure("other\n/nix/store/a\n\n0\n");
    assert!(paths.is_empty());
    assert_eq!(refs.len(), 0);
    let (paths, _) = parse_closure("");
    assert!(paths.is_empty());
    // the last record of a store path counts
    let (paths, refs) =
        parse_closure("/nix/store/a\n\n1\n/nix/store/x\n/nix/store/a\n\n1\n/nix/store/y\n");
    assert_eq!(paths, strings(&["/nix/store/a"]));
    assert_eq!(*refs.get("/nix/store/a").unwrap(), strings(&["/nix/store/y"]));
}

#[test]
fn closures_from_queries() {
    let paths = parse_requisites("/nix/store/b\n/nix/store/a\n");
    assert_eq!(paths, strings(&["/nix/store/a", "/nix/store/b"]));
    assert_eq!(
        parse_references("/nix/store/a\n\n/nix/store/b\n", "/nix/store/b"),
        strings(&["/nix/store/a"])
    );
    let refs = collect_references(&paths, &vec![None, Some("/nix/store/a\n".to_string())]);
    assert!(refs.get("/nix/store/a").unwrap().is_empty());
    assert_eq!(*refs.get("/nix/store/b").unwrap(), strings(&["/nix/store/a"]));
}

fn references(list: &[(&str, &[&str])]) -> Table<Vec<String>> {
    let mut refs = Table::new();
    for (from, to) in list {
        refs.insert(from.to_string(), strings(to));
    }
    refs
}

#[test]
fn reverse_references() {
    let refs = references(&[("a", &["b", "c", "a", "b"]), ("b", &["c"]), ("c", &[])]);
    let reverse = compute_reverse_refs(&refs);
    assert!(reverse.get("a").is_none());
    assert_eq!(*reverse.get("b").unwrap(), strings(&["a"]));
    assert_eq!(*reverse.get("c").unwrap(), strings(&["a", "b"]));
}

#[test]
fn essential_dependencies_are_two_levels_deep() {
    let refs = references(&[("a", &["b"]), ("b", &["c"]), ("c", &["d"])]);
    let deps = essential_deps(&refs, "a");
    assert!(deps.contains("b"));
    assert!(deps.contains("c"));
    assert!(!deps.contains("d"));
    assert!(!deps.contains("a"));
    assert!(!essential_deps(&refs, "x").contains("b"));
}

fn keep(path: &str) -> KeepEntry {
    KeepEntry { store_path: path.to_string(), reason: Reason::NoRuntimeMatch }
}

fn dropped(path: &str) -> DropEntry {
    DropEntry {
        store_path: path.to_string(),
        reason: Reason::AllContentInRuntime,
        matched_sonames: vec![],
    }
}

fn partial(path: &str) -> PartialEntry {
    PartialEntry { store_path: path.to_string(), keep_files: vec![], drop_files: vec![] }
}

#[test]
fn orphans_are_dropped() {
    // app -> lib (dropped) -> deep -> deeper, and app -> shared <- lib
    let refs = references(&[
        ("app", &["lib", "shared"]),
        ("lib", &["deep", "shared"]),
        ("deep", &["deeper", "deep"]),
        ("deeper", &[]),
        ("shared", &[]),
    ]);
    let mut keep_list = vec![keep("deeper"), keep("app"), keep("shared")];
    let mut drop_list = vec![dropped("lib")];
    let mut partial_list = vec![partial("deep"), partial("lonely")];
    let n = drop_orphaned_paths(&mut keep_list, &mut drop_list, &mut partial_list, &refs, "app");
    assert_eq!(n, 2);
    let kept: Vec<&str> = keep_list.iter().map(|e| e.store_path.as_str()).collect();
    assert_eq!(kept, vec!["app", "shared"]);
    let parts: Vec<&str> = partial_list.iter().map(|e| e.store_path.as_str()).collect();
    assert_eq!(parts, vec!["lonely"]);
    let drops: Vec<(&str, &str)> =
        drop_list.iter().map(|e| (e.store_path.as_str(), e.reason.text())).collect();
    assert_eq!(
        drops,
        vec![
            ("lib", "all-content-in-runtime"),
            ("deep", "orphaned-transitive"),
            ("deeper", "orphaned-transitive"),
        ]
    );
    // a second time there is nothing to drop
    let n = drop_orphaned_paths(&mut keep_list, &mut drop_list, &mut partial_list, &refs, "app");
    assert_eq!(n, 0);
    assert_eq!(drop_list.len(), 3);
}

#[test]
fn orphans_are_counted_in_each_list() {
    let refs = references(&[("lib", &["both", "gone", "lib2"])]);
    let mut keep_list = vec![keep("both"), keep("gone"), keep("both")];
    let mut drop_list = vec![dropped("lib"), dropped("gone")];
    let mut partial_list = vec![partial("both")];
    let n = drop_orphaned_paths(&mut keep_list, &mut drop_list, &mut partial_list, &refs, "app");
    // `both` is kept whole and in part, and `gone` was dropped before
    assert_eq!(n, 3);
    assert!(keep_list.is_empty() && partial_list.is_empty());
    let drops: Vec<&str> = drop_list.iter().map(|e| e.store_path.as_str()).collect();
    assert_eq!(drops, vec!["lib", "gone", "both"]);
}

#[test]
fn the_package_is_no_orphan() {
    let refs = references(&[("lib", &["app"])]);
    let mut keep_list = vec![keep("app")];
    let mut drop_list = vec![dropped("lib")];
    let n = drop_orphaned_paths(&mut keep_list, &mut drop_list, &mut vec![], &refs, "app");
    assert_eq!(n, 0);
    assert_eq!(keep_list.len(), 1);
    let n = drop_orphaned_paths(&mut keep_list, &mut drop_list, &mut vec![], &refs, "other");
    assert_eq!(n, 1);
    assert!(keep_list.is_empty());
}

#[test]
fn references_to_dropped_paths() {
    let a = "/nix/store/aaaaaaaaaaaaaaaaaaaaaaaaaaaaaaaa-a";
    let b = "/nix/store/bbbbbbbbbbbbbbbbbbbbbbbbbbbbbbbb-b";
    let mut scanner = Scanner::new(&vec![dropped(a), dropped(b), dropped("/nix/store/short-x")]);
    scanner.scan_file("/out/none", b"/nix/store/cccccccccccccccccccccccccccccccc-c");
    scanner.scan_file("/out/one", format!("\0\0{b}\0/nix/store/short-x").as_bytes());
    scanner.scan_file("/out/two", format!("{b} /nix/store/{a}").as_bytes());
    scanner.scan_file("/out/cut", &a.as_bytes()[..42]);
    let r = scanner.finish();
    assert_eq!(r.len(), 2);
    assert_eq!(r[0].from, b);
    assert_eq!(r[0].to, format!("/app{b}"));
    assert_eq!(r[0].kind.text(), "store-path-reference");
    assert_eq!(r[0].referenced_by, Some("/out/one".to_string()));
    assert_eq!(r[1].from, a);
    assert_eq!(r[1].referenced_by, Some("/out/two".to_string()));
}

#[test]
fn a_mention_needs_the_whole_hash() {
    let a = "/nix/store/aaaaaaaaaaaaaaaaaaaaaaaaaaaaaaaa-a";
    let mut scanner = Scanner::new(&vec![dropped(a)]);
    scanner.scan_file("f", &a.as_bytes()[..42]);
    assert!(scanner.finish().is_empty());
    let mut scanner = Scanner::new(&vec![dropped(a)]);
    scanner.scan_file("f", &a.as_bytes()[..43]);
    assert_eq!(scanner.finish().len(), 1);
    // of two dropped paths with one hash the last counts
    let a2 = "/nix/store/aaaaaaaaaaaaaaaaaaaaaaaaaaaaaaaa-a2";
    let mut scanner = Scanner::new(&vec![dropped(a), dropped(a2)]);
    scanner.scan_file("f", a.as_bytes());
    assert_eq!(scanner.finish()[0].from, a2);
    // a hash that is not of 32 bytes is never found
    let mut scanner = Scanner::new(&vec![dropped("/nix/store/short-x")]);
    scanner.scan_file("f", b"/nix/store/short-x and some more text behind it, long enough");
    assert!(scanner.finish().is_empty());
}
