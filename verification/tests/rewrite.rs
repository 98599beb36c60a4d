use nix2flatpak::compat::{create_runtime_compat_symlinks, links_between};
use nix2flatpak::json::{member, Json};
use nix2flatpak::table::{NameSet, Table};
use nix2flatpak::text_files::{
    line_command, rejoin_lines, remaining_references, replace_command, rewrite_dbus_service,
    rewrite_desktop_file, rewrite_text, rewrite_text_file, select_dropped, sorted_rewrites,
    text_kind, TextKind,
};
use nix2flatpak::wrapper::{
    apply_first, find_place, parse_wrapper_docstring, read_entries, relocate_entry,
    relocate_part, rename_var, replace_nix_wrapper, script_in_bundle, write_script, Place,
    WrapperEntry,
};

const KEPT: &str = "/nix/store/kkkkkkkkkkkkkkkkkkkkkkkkkkkkkkkk-kept";
const GONE: &str = "/nix/store/dddddddddddddddddddddddddddddddd-gone";

fn strings(list: &[&str]) -> Vec<String> {
    list.iter().map(|s| s.to_string()).collect()
}

fn table(list: &[(&str, &str)]) -> Table<String> {
    let mut t = Table::new();
    for (from, to) in list {
        t.insert(from.to_string(), to.to_string());
    }
    t
}

fn dropped() -> NameSet {
    NameSet::from_list(&strings(&["dddddddddddddddddddddddddddddddd"]))
}

fn groups(list: &[&str]) -> Vec<Option<String>> {
    list.iter().map(|s| Some(s.to_string())).collect()
}

fn entry(action: &str, var: &str, sep: &str, value: &str) -> WrapperEntry {
    WrapperEntry {
        action: action.to_string(),
        var: var.to_string(),
        sep: sep.to_string(),
        value: value.to_string(),
    }
}

#[test]
fn kinds_of_text_files() {
    assert_eq!(text_kind("x.desktop", "/out/x.desktop"), TextKind::Desktop);
    assert_eq!(text_kind("x.service", "/out/dbus-1/x.service"), TextKind::DbusService);
    assert_eq!(text_kind("x.service", "/out/systemd/x.service"), TextKind::Plain);
    assert_eq!(text_kind("x.txt", "/dbus"), TextKind::Plain);
}

#[test]
fn long_paths_come_first() {
    let t = table(&[("/a", "1"), ("/abc", "2"), ("/b", "3"), ("/ß", "4"), ("/abd", "5")]);
    let r: Vec<String> = sorted_rewrites(&t).iter().map(|p| p.from.clone()).collect();
    assert_eq!(r, strings(&["/abc", "/abd", "/ß", "/a", "/b"]));
}

#[test]
fn texts_are_rewritten() {
    let t = table(&[
        (GONE, "/app/x"),
        (&format!("{GONE}/bin/sh"), "/usr/bin/sh"),
        (KEPT, &format!("/app{KEPT}")),
    ]);
    assert_eq!(
        rewrite_text(&format!("#!{GONE}/bin/sh\n{KEPT}/lib {GONE}/y"), &t),
        format!("#!/usr/bin/sh\n/app{KEPT}/lib /app/x/y")
    );
    assert_eq!(rewrite_text_file("no store paths", &t), None);
    assert_eq!(rewrite_text_file("/nix/store/other", &t), None);
    assert_eq!(rewrite_text_file(KEPT, &t), Some(format!("/app{KEPT}")));
    // a text that does not mention the store is left alone, whatever the rewrites
    assert_eq!(rewrite_text_file("a", &table(&[("a", "b")])), None);
}

#[test]
fn each_occurrence_is_rewritten() {
    let text = format!("{KEPT}{KEPT} x {KEPT}");
    let new = rewrite_text(&text, &table(&[(KEPT, "/k")]));
    assert_eq!(new, "/k/k x /k");
    assert_eq!(new, text.split(KEPT).collect::<Vec<_>>().join("/k"));
}

#[test]
fn remaining_references_are_found() {
    let text = format!("{GONE} {KEPT} {GONE}/x /nix/store/short-x");
    let hash = "dddddddddddddddddddddddddddddddd";
    assert_eq!(remaining_references(&text, &dropped()), strings(&[hash, hash]));
    assert!(remaining_references(KEPT, &dropped()).is_empty());
    let matches = vec![groups(&["x", hash]), groups(&["y", "other"]), vec![]];
    assert_eq!(select_dropped(&matches, &dropped()), strings(&[hash]));
}

#[test]
fn desktop_files() {
    let text = format!("[Desktop Entry]\nExec={KEPT}/bin/app %U\nTryExec=/app{KEPT}/bin/app\nIcon={KEPT}/bin/x");
    assert_eq!(
        rewrite_desktop_file(&text),
        Some(format!("[Desktop Entry]\nExec=app %U\nTryExec=/appapp\nIcon={KEPT}/bin/x"))
    );
    assert_eq!(rewrite_desktop_file("Exec=app\nName=x"), None);
    // lines are joined without a line feed at the end
    assert_eq!(rewrite_desktop_file("Exec=app\n"), Some("Exec=app".to_string()));
}

#[test]
fn dbus_services() {
    let text = format!("[D-BUS Service]\nExec={KEPT}/bin/app --x\nTryExec={KEPT}/bin/app");
    assert_eq!(
        rewrite_dbus_service(&text),
        Some(format!("[D-BUS Service]\nExec=/app/bin/app --x\nTryExec={KEPT}/bin/app"))
    );
    assert_eq!(rewrite_dbus_service("Name=x"), None);
}

#[test]
fn commands_of_lines() {
    assert_eq!(line_command("Exec=a b", true), "a b");
    assert_eq!(line_command("TryExec=a", true), "a");
    assert_eq!(line_command("TryExec=a", false), "");
    assert_eq!(line_command("Name=a", true), "");
    assert_eq!(replace_command("Exec=a b", false, "c"), "Exec=c");
    assert_eq!(replace_command("TryExec=a", true, "c"), "TryExec=c");
    assert_eq!(replace_command("TryExec=a", false, "c"), "TryExec=a");
    assert_eq!(rejoin_lines("a\nb", &strings(&["a", "b"])), None);
    assert_eq!(rejoin_lines("a\nb\n", &strings(&["a", "b"])), Some("a\nb".to_string()));
}

const DOCSTRING: &str = "\x7fELF\0\0junk\x01# makeCWrapper '/nix/store/kkkkkkkkkkkkkkkkkkkkkkkkkkkkkkkk-kept/bin/.app-wrapped' \\\n\
    #     --inherit-argv0 \\\n\
    #     --prefix 'PATH' ':' '/nix/store/dddddddddddddddddddddddddddddddd-gone/bin:/opt' \\\n\
    #     --suffix 'PATH' ':' '/nix/store/kkkkkkkkkkkkkkkkkkkkkkkkkkkkkkkk-kept/bin' \\\n\
    #     --prefix 'NIXPKGS_QT6_QML_IMPORT_PATH' ':' '/nix/store/dddddddddddddddddddddddddddddddd-gone/lib/qt-6/qml'\n\
    # (Use `nix-shell -p makeBinaryWrapper` to edit)\0set_env_prefix\n";

#[test]
fn wrappers_describe_themselves() {
    let (target, entries) = parse_wrapper_docstring(DOCSTRING.as_bytes());
    assert_eq!(target, format!("{KEPT}/bin/.app-wrapped"));
    assert_eq!(entries.len(), 3);
    assert_eq!(entries[0].action, "prefix");
    assert_eq!(entries[0].var, "PATH");
    assert_eq!(entries[0].sep, ":");
    assert_eq!(entries[0].value, format!("{GONE}/bin:/opt"));
    assert_eq!(entries[1].action, "suffix");
    assert_eq!(entries[2].var, "NIXPKGS_QT6_QML_IMPORT_PATH");
    let (target, entries) = parse_wrapper_docstring(b"makeCWrapper set_env_prefix");
    assert_eq!(target, "");
    assert!(entries.is_empty());
    let mut set = groups(&["m", "", "", "", "", "set", "V", "x"]);
    for i in 1..5 {
        set[i] = None;
    }
    let list = read_entries(&vec![groups(&["m", "suffix", "V", "=", "x"]), set, groups(&["m"])]);
    assert_eq!((list[0].action.as_str(), list[0].sep.as_str()), ("suffix", "="));
    assert_eq!(list[0].value, "x");
    assert_eq!((list[1].action.as_str(), list[1].var.as_str()), ("set", "V"));
    assert_eq!((list[1].sep.as_str(), list[1].value.as_str()), ("", "x"));
    assert_eq!((list[2].action.as_str(), list[2].value.as_str()), ("", ""));
}

#[test]
fn wrappers_become_scripts() {
    let map = table(&[("/nix", "/wrong"), (KEPT, &format!("/app{KEPT}"))]);
    let script = replace_nix_wrapper(DOCSTRING.as_bytes(), &map, &dropped()).unwrap();
    assert_eq!(
        script,
        format!(
            "#!/bin/sh\n\
             export PATH=\"/usr/bin:/opt:${{PATH:-}}:/app{KEPT}/bin\"\n\
             export QML_IMPORT_PATH=\"/usr/lib/qml:${{QML_IMPORT_PATH:-}}\"\n\
             exec \"/app{KEPT}/bin/.app-wrapped\" \"$@\"\n"
        )
    );
    assert_eq!(replace_nix_wrapper(b"\x7fELF", &map, &dropped()), None);
}

#[test]
fn wrappers_set_variables() {
    let data = b"makeCWrapper '/x/.app' --set 'FOO' 'bar' # (Use";
    assert_eq!(
        replace_nix_wrapper(data, &table(&[]), &dropped()),
        Some("#!/bin/sh\nexport FOO=\"bar\"\nexec \"/x/.app\" \"$@\"\n".to_string())
    );
    let data = format!(
        "makeCWrapper '/x/.app' \\\n\
         #     --set 'A' '{GONE}/share:{GONE}/lib' \\\n\
         #     --set-default 'B' 'b' \\\n\
         #     --set 'C' '' \\\n\
         #     --prefix 'D' ':' 'd' \\\n\
         #     --set 'A' '{KEPT}/share'\n\
         # (Use"
    );
    let (_, entries) = parse_wrapper_docstring(data.as_bytes());
    let actions: Vec<&str> = entries.iter().map(|e| e.action.as_str()).collect();
    assert_eq!(actions, ["set", "set", "prefix", "set"]);
    let separators: Vec<&str> = entries.iter().map(|e| e.sep.as_str()).collect();
    assert_eq!(separators, ["", "", ":", ""]);
    // A value without a separator has one part
    assert_eq!(relocate_entry(&entries[0], &dropped()).value, format!("/usr/share:{GONE}/lib"));
    assert_eq!(
        replace_nix_wrapper(data.as_bytes(), &table(&[]), &dropped()),
        Some(format!(
            "#!/bin/sh\n\
             export A=\"/app{KEPT}/share\"\n\
             export C=\"\"\n\
             export D=\"d:${{D:-}}\"\n\
             exec \"/x/.app\" \"$@\"\n"
        ))
    );
}

#[test]
fn scripts_set_each_variable_once() {
    let entries = vec![
        entry("prefix", "A", ":", "1"),
        entry("set", "B", "=", "x"),
        entry("prefix", "A", ":", "2"),
        entry("prefix", "A", ":", "1"),
        entry("set", "B", "=", "y"),
        entry("suffix", "C", ";", "3"),
        entry("other", "D", ";", "4"),
        entry("suffix", "A", "-", "2"),
    ];
    assert_eq!(
        write_script("/t", &entries),
        "#!/bin/sh\n\
         export A=\"1:2:${A:-}\"\n\
         export B=\"y\"\n\
         export C=\"${C:-};3\"\n\
         exec \"/t\" \"$@\"\n"
    );
    assert_eq!(write_script("/t", &vec![]), "#!/bin/sh\nexec \"/t\" \"$@\"\n");
    assert_eq!(
        script_in_bundle("/k/x", &vec![], &table(&[("/k", "/app/k")]), &dropped()),
        Some("#!/bin/sh\nexec \"/app/k/x\" \"$@\"\n".to_string())
    );
    assert_eq!(script_in_bundle("", &entries, &table(&[]), &dropped()), None);
}

#[test]
fn paths_of_the_environment() {
    let d = dropped();
    assert_eq!(relocate_part(&format!("{GONE}/share"), &d), "/usr/share");
    assert_eq!(relocate_part(&format!("{GONE}/lib/qt-6/plugins"), &d), "/usr/lib/plugins");
    assert_eq!(relocate_part(&format!("{KEPT}/share"), &d), format!("/app{KEPT}/share"));
    assert_eq!(relocate_part("/opt/x", &d), "/opt/x");
    assert_eq!(relocate_part(&format!("x{GONE}"), &d), format!("x{GONE}"));
    // without anything behind the store path nothing is cut off
    assert_eq!(relocate_part(GONE, &d), format!("/usr/{GONE}"));
    let hash = "dddddddddddddddddddddddddddddddd";
    assert_eq!(find_place(&Some(groups(&["x", hash])), &d), Place::Runtime);
    assert_eq!(find_place(&Some(groups(&["x", "other"])), &d), Place::App);
    assert_eq!(find_place(&None, &d), Place::Same);
}

#[test]
fn changes_to_the_environment() {
    let d = dropped();
    let e = relocate_entry(&entry("prefix", "X", "::", &format!("{GONE}/a::b:{KEPT}::")), &d);
    assert_eq!(e.value, format!("/usr/a::b:{KEPT}::"));
    let e = relocate_entry(&entry("set", "NIXPKGS_QT5_QML_IMPORT_PATH", "", "a:b"), &d);
    assert_eq!(e.var, "QML2_IMPORT_PATH");
    assert_eq!(e.value, "a:b");
    assert_eq!(rename_var("NIXPKGS_GST_PLUGIN_SYSTEM_PATH_1_0"), "GST_PLUGIN_SYSTEM_PATH_1_0");
    assert_eq!(rename_var("PATH"), "PATH");
    assert_eq!(apply_first("/a/b", &sorted_rewrites(&table(&[("/a", "1"), ("/a/", "2")]))), "2b");
    assert_eq!(apply_first("/c", &sorted_rewrites(&table(&[("/a", "1")]))), "/c");
}

#[test]
fn links_for_unversioned_libraries() {
    let sonames = Json::Record(vec![
        member("libfoo.so.1", Json::Null),
        member("libfoo.so.2", Json::Null),
        member("libbar.so.3", Json::Null),
        member("libbar.so", Json::Null),
        member("plain", Json::Null),
    ]);
    let index = Json::Record(vec![member("sonames", sonames)]);
    let needed = strings(&["libfoo.so", "libbar.so", "libother.so", "libfoo.so"]);
    let links = create_runtime_compat_symlinks(&index, &needed, "x86_64-linux-gnu");
    assert_eq!(links.len(), 1);
    assert_eq!(links[0].name, "libfoo.so");
    assert_eq!(links[0].target, "/usr/lib/x86_64-linux-gnu/libfoo.so.2");
    assert!(create_runtime_compat_symlinks(&Json::Null, &needed, "x").is_empty());
    let links = links_between(
        &strings(&["b.1", "a.1"]),
        &strings(&["b", "a"]),
        &strings(&["b", "a", "c"]),
        "z",
    );
    let r: Vec<(&str, &str)> =
        links.iter().map(|l| (l.name.as_str(), l.target.as_str())).collect();
    assert_eq!(r, vec![("a", "/usr/lib/z/a.1"), ("b", "/usr/lib/z/b.1")]);
}
