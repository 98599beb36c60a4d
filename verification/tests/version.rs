use nix2flatpak::json::{member, text_member, Json};
use nix2flatpak::version::{
    check_glibc_compat, check_libstdcxx_compat, check_qt_compat, compare_abi, compare_qt,
    find_libstdcxx_file_version, find_nix_package_version, first_result, is_later,
    may_hold_libstdcxx, package_version_part, parse_version, version_in_index, AbiCheck, QtCheck,
};

const HASH: &str = "0123456789abcdfghijklmnpqrsvwxyz";

fn path(name: &str) -> String {
    format!("/nix/store/{HASH}-{name}")
}

fn index(versions: &[(&str, &str)]) -> Json {
    let list = versions.iter().map(|(k, v)| text_member(k, v)).collect();
    Json::Record(vec![member("versions", Json::Record(list))])
}

fn some(s: &str) -> Option<String> {
    Some(s.to_string())
}

#[test]
fn versions_are_parsed() {
    assert_eq!(parse_version("2.40"), vec![2, 40]);
    assert_eq!(parse_version("6.0.34"), vec![6, 0, 34]);
    assert_eq!(parse_version("2.40-pre.1"), vec![2, 1]);
    assert_eq!(parse_version("1..4294967296.2"), vec![1, 2]);
    assert!(parse_version("").is_empty());
}

#[test]
fn versions_are_ordered() {
    let later = |a: &str, b: &str| is_later(&parse_version(a), &parse_version(b));
    assert!(later("2.41", "2.40"));
    assert!(later("2.10", "2.9"));
    assert!(later("2.40.1", "2.40"));
    assert!(later("3", "2.99"));
    assert!(!later("2.40", "2.40"));
    assert!(!later("2.40", "2.40.1"));
    assert!(!later("", "0"));
    assert!(later("0", ""));
}

#[test]
fn packages_are_found_in_a_closure() {
    let closure = vec![
        path("bash-5.2"),
        "/nix/store/short-glibc-9.9".to_string(),
        path("glibc-locales-2.39"),
        path("glibc-2.40-66"),
        path("glibc-2.41"),
    ];
    assert_eq!(find_nix_package_version(&closure, "glibc"), some("2.40"));
    assert_eq!(find_nix_package_version(&closure, "bash"), some("5.2"));
    assert_eq!(find_nix_package_version(&closure, "qtbase"), None);
    assert_eq!(find_nix_package_version(&vec![path("foo-1.2.3.4x")], "foo"), some("1.2.3.4"));
    assert_eq!(find_nix_package_version(&vec![path("foo-1")], "foo"), None);
    assert_eq!(package_version_part(&path("glibc-2.40-66"), "glibc"), some("2.40-66"));
    assert_eq!(package_version_part(&path("glibc-2.40-66"), "libc"), None);
    assert_eq!(first_result(&vec![None, some("a"), some("b")]), some("a"));
    assert_eq!(first_result(&vec![None]), None);
}

#[test]
fn libstdcxx_is_found_in_a_closure() {
    let closure = vec![path("foo-1.0"), path("gcc-libs-13"), path("gcc-unwrapped-14")];
    let listings = vec![
        vec!["libstdc++.so.6.0.1".to_string()],
        vec!["libgcc_s.so.1".to_string(), "libstdc++.so.6.0.33-gdb.py".to_string()],
        vec!["libstdc++.so.6".to_string(), "libstdc++.so.6.0.34".to_string()],
    ];
    assert_eq!(find_libstdcxx_file_version(&closure, &listings), some("6.0.34"));
    assert_eq!(find_libstdcxx_file_version(&closure, &vec![]), None);
    assert!(may_hold_libstdcxx(&path("gcc-libs-13")));
    assert!(!may_hold_libstdcxx(&path("gcc-13")));
    assert!(!may_hold_libstdcxx("/nix/store/x-gcc-libs-13"));
}

#[test]
fn a_newer_glibc_is_an_error() {
    let closure = vec![path("glibc-2.41")];
    let check = check_glibc_compat(&closure, &index(&[("glibc", "2.40")]), true);
    assert!(check.is_fatal());
    assert!(matches!(check, AbiCheck::Newer { nix, runtime, .. } if nix == "2.41" && runtime == "2.40"));
    let check = check_glibc_compat(&closure, &index(&[("glibc", "2.40")]), false);
    assert!(matches!(&check, AbiCheck::Newer { .. }));
    assert!(!check.is_fatal());
}

#[test]
fn an_older_glibc_is_compatible() {
    let closure = vec![path("glibc-2.40")];
    let check = check_glibc_compat(&closure, &index(&[("glibc", "2.40")]), true);
    assert!(!check.is_fatal());
    assert!(matches!(check, AbiCheck::Compatible { .. }));
    let check = check_glibc_compat(&closure, &index(&[]), true);
    assert!(matches!(check, AbiCheck::NoRuntimeVersion));
    let check = check_glibc_compat(&vec![], &index(&[("glibc", "2.40")]), true);
    assert!(matches!(check, AbiCheck::NotInClosure));
    let check = check_glibc_compat(&closure, &Json::Null, true);
    assert!(matches!(check, AbiCheck::NoRuntimeVersion));
}

#[test]
fn libstdcxx_is_checked() {
    let closure = vec![path("gcc-libs-14")];
    let listings = vec![vec!["libstdc++.so.6.0.34".to_string()]];
    let check =
        check_libstdcxx_compat(&closure, &listings, &index(&[("libstdcxx", "6.0.33")]), true);
    assert!(check.is_fatal());
    let check =
        check_libstdcxx_compat(&closure, &listings, &index(&[("libstdcxx", "6.0.34")]), true);
    assert!(matches!(check, AbiCheck::Compatible { nix, .. } if nix == "6.0.34"));
    let check = check_libstdcxx_compat(&closure, &vec![], &index(&[("libstdcxx", "6.0.34")]), true);
    assert!(matches!(check, AbiCheck::NotInClosure));
}

#[test]
fn qt_must_agree_in_major_and_minor() {
    let closure = vec![path("qtbase-6.10.1")];
    let check = check_qt_compat(&closure, &index(&[("qt", "6.10.0")]));
    assert!(matches!(check, QtCheck::Same { .. }));
    let check = check_qt_compat(&closure, &index(&[("qt", "6.9.1")]));
    assert!(matches!(check, QtCheck::Differs { nix, runtime } if nix == "6.10.1" && runtime == "6.9.1"));
    assert!(matches!(check_qt_compat(&closure, &index(&[])), QtCheck::Skipped));
    assert!(matches!(check_qt_compat(&vec![], &index(&[("qt", "6.9.1")])), QtCheck::Skipped));
    assert!(matches!(compare_qt(some("6"), some("6.1")), QtCheck::Differs { .. }));
    assert!(matches!(compare_qt(some("6"), some("6")), QtCheck::Same { .. }));
}

#[test]
fn versions_in_an_index() {
    let json = index(&[("glibc", "2.40")]);
    assert_eq!(version_in_index(&json, "glibc"), some("2.40"));
    assert_eq!(version_in_index(&json, "qt"), None);
    assert!(matches!(compare_abi(some("1"), some("2"), true), AbiCheck::Newer { fatal: true, .. }));
    assert!(matches!(compare_abi(None, some("2"), true), AbiCheck::NoRuntimeVersion));
    assert!(matches!(compare_abi(some("1"), None, true), AbiCheck::NotInClosure));
}
