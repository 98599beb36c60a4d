use nix2flatpak::elf::{
    check_nix_compiled_wrapper, extract_needed, extract_soname, extract_soname_from_bytes,
    file_kind, is_elf, is_script, is_text_file, needed_of, soname_of, ElfInfo, FileKind,
    TEXT_PROBE,
};
use nix2flatpak::elf_paths::{new_interpreter, new_rpath};
use nix2flatpak::table::NameSet;

fn strings(list: &[&str]) -> Vec<String> {
    list.iter().map(|s| s.to_string()).collect()
}

/// A shared library for x86-64 with a SONAME and needed libraries.
fn library(soname: Option<&str>, needed: &[&str]) -> Vec<u8> {
    let mut names = vec![0u8];
    let mut entries: Vec<(u64, u64)> = Vec::new();
    for name in needed {
        entries.push((1, names.len() as u64));
        names.extend(name.as_bytes());
        names.push(0);
    }
    if let Some(name) = soname {
        entries.push((14, names.len() as u64));
        names.extend(name.as_bytes());
        names.push(0);
    }
    let dynamic_at: u64 = 64 + 2 * 56;
    let names_at: u64 = dynamic_at + 16 * (entries.len() as u64 + 3);
    entries.push((5, names_at));
    entries.push((10, names.len() as u64));
    entries.push((0, 0));
    let total = names_at + names.len() as u64;

    let mut data: Vec<u8> = Vec::new();
    data.extend([0x7f, b'E', b'L', b'F', 2, 1, 1, 0, 0, 0, 0, 0, 0, 0, 0, 0]);
    data.extend(3u16.to_le_bytes());
    data.extend(62u16.to_le_bytes());
    data.extend(1u32.to_le_bytes());
    data.extend(0u64.to_le_bytes());
    data.extend(64u64.to_le_bytes());
    data.extend(0u64.to_le_bytes());
    data.extend(0u32.to_le_bytes());
    for half in [64u16, 56, 2, 0, 0, 0] {
        data.extend(half.to_le_bytes());
    }
    for (kind, at, size) in [(1u32, 0u64, total), (2, dynamic_at, names_at - dynamic_at)] {
        data.extend(kind.to_le_bytes());
        data.extend(6u32.to_le_bytes());
        for word in [at, at, at, size, size, 8] {
            data.extend(word.to_le_bytes());
        }
    }
    for (tag, value) in entries {
        data.extend(tag.to_le_bytes());
        data.extend(value.to_le_bytes());
    }
    data.extend(names);
    data
}

#[test]
fn magic_bytes() {
    assert!(is_elf(b"\x7fELF\x02"));
    assert!(!is_elf(b"\x7fEL"));
    assert!(!is_elf(b"#!/bin/sh"));
    assert!(is_script(b"#!/bin/sh"));
    assert!(!is_script(b"#"));
    assert!(!is_script(b"\x7fELF"));
}

#[test]
fn text_files() {
    assert!(is_text_file(b""));
    assert!(is_text_file(b"plain text\n"));
    assert!(!is_text_file(b"with\0null"));
    let mut long = vec![b'a'; TEXT_PROBE];
    assert_eq!(long.len(), 8192);
    long.push(0);
    assert!(is_text_file(&long));
    long[TEXT_PROBE - 1] = 0;
    assert!(!is_text_file(&long));
}

#[test]
fn kinds_of_files() {
    assert_eq!(file_kind(b"\x7fELF\0"), FileKind::Elf);
    assert_eq!(file_kind(b"#!/bin/sh\n"), FileKind::Text);
    assert_eq!(file_kind(b"\x89PNG\0"), FileKind::Other);
}

#[test]
fn sonames_are_read_from_libraries() {
    let data = library(Some("libfoo.so.3"), &["libc.so.6", "libm.so.6"]);
    assert_eq!(extract_soname_from_bytes(&data), Some("libfoo.so.3".to_string()));
    assert_eq!(extract_soname(Some(&data)), Some("libfoo.so.3".to_string()));
    assert_eq!(extract_soname(None), None);
    assert_eq!(extract_soname_from_bytes(&library(None, &["libc.so.6"])), None);
    assert_eq!(extract_soname_from_bytes(b"no library"), None);
    assert_eq!(extract_soname_from_bytes(b"\x7fELF broken"), None);
}

#[test]
fn needed_libraries_are_read() {
    let data = library(Some("libfoo.so.3"), &["libc.so.6", "libm.so.6"]);
    assert_eq!(extract_needed(&data), strings(&["libc.so.6", "libm.so.6"]));
    assert!(extract_needed(&library(None, &[])).is_empty());
    assert!(extract_needed(b"text").is_empty());
    assert!(extract_needed(b"\x7fELF broken").is_empty());
}

#[test]
fn what_was_read_of_a_library() {
    let info = Some(ElfInfo {
        soname: Some("libx.so".to_string()),
        libraries: strings(&["liby.so"]),
    });
    assert_eq!(soname_of(&info), Some("libx.so".to_string()));
    assert_eq!(needed_of(&info), strings(&["liby.so"]));
    assert_eq!(soname_of(&None), None);
    assert!(needed_of(&None).is_empty());
}

#[test]
fn compiled_wrappers() {
    assert!(check_nix_compiled_wrapper(b"\x7fELF..makeCWrapper..set_env_prefix"));
    assert!(!check_nix_compiled_wrapper(b"\x7fELF..makeCWrapper.."));
    assert!(!check_nix_compiled_wrapper(b"\x7fELF..set_env_prefix.."));
    assert!(!check_nix_compiled_wrapper(b"makeCWrapper set_env_prefix"));
}

#[test]
fn interpreters() {
    assert_eq!(
        new_interpreter("/nix/store/h-glibc/lib/ld-linux-x86-64.so.2\n", "x86_64-linux-gnu"),
        Some("/usr/lib/x86_64-linux-gnu/ld-linux-x86-64.so.2".to_string())
    );
    assert_eq!(
        new_interpreter("/nix/store/h-glibc/lib/ld-linux-aarch64.so.1", "aarch64-linux-gnu"),
        Some("/usr/lib/aarch64-linux-gnu/ld-linux-aarch64.so.1".to_string())
    );
    assert_eq!(new_interpreter("/lib64/ld-linux-x86-64.so.2", "x86_64-linux-gnu"), None);
    assert_eq!(new_interpreter("", "x86_64-linux-gnu"), None);
}

#[test]
fn library_paths() {
    let mut dropped = NameSet::new();
    dropped.insert("aaaa".to_string());
    let arch = "x86_64-linux-gnu";
    assert_eq!(
        new_rpath(
            "/nix/store/aaaa-glibc/lib:/nix/store/bbbb-foo/lib::$ORIGIN:/nix/store/aaaa-x\n",
            &dropped,
            arch
        ),
        Some(
            "/usr/lib/x86_64-linux-gnu:/app/nix/store/bbbb-foo/lib:$ORIGIN:/app/lib".to_string()
        )
    );
    assert_eq!(
        new_rpath("/opt/lib", &dropped, arch),
        Some("/opt/lib:/usr/lib/x86_64-linux-gnu:/app/lib".to_string())
    );
    assert_eq!(new_rpath("", &dropped, arch), None);
    assert_eq!(new_rpath(" \n", &dropped, arch), None);
    assert_eq!(new_rpath("/usr/lib/x86_64-linux-gnu:/app/lib\n", &dropped, arch), None);
}

#[test]
fn library_paths_are_stable() {
    let mut dropped = NameSet::new();
    dropped.insert("aaaa".to_string());
    let old = "/nix/store/bbbb-foo/lib:/nix/store/aaaa-glibc/lib:/nix/store/bbbb-foo/lib";
    let new = new_rpath(old, &dropped, "x86_64-linux-gnu").unwrap();
    assert_eq!(new, "/app/nix/store/bbbb-foo/lib:/usr/lib/x86_64-linux-gnu:/app/lib");
    assert_eq!(new_rpath(&new, &dropped, "x86_64-linux-gnu"), None);
    // white space at the start is trimmed off when it is printed again
    let new = new_rpath(": :x", &dropped, "arch").unwrap();
    assert_eq!(new, " :x:/usr/lib/arch:/app/lib");
    let again = new_rpath(&new, &dropped, "arch").unwrap();
    assert_eq!(again, "x:/usr/lib/arch:/app/lib");
    assert_eq!(new_rpath(&again, &dropped, "arch"), None);
}
