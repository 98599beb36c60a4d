use nix2flatpak::store::{
    copy_tree, file_step, keep_step, keeps_dir_link, make_writable, owner_may_execute, pathdiff,
    store_path_hash, store_path_name, CopyStep, FileStep, KeepStep,
};

fn parts(path: &str) -> Vec<Vec<u8>> {
    let mut r = vec![b"/".to_vec()];
    r.extend(path.split('/').filter(|p| !p.is_empty()).map(|p| p.as_bytes().to_vec()));
    r
}

fn relative(target: &str, base: &str) -> String {
    let r: Vec<String> = pathdiff(&parts(target), &parts(base))
        .into_iter()
        .map(|p| String::from_utf8(p).unwrap())
        .collect();
    r.join("/")
}

#[test]
fn hash_of_a_store_path() {
    assert_eq!(store_path_hash("/nix/store/abc123-name"), "abc123");
    assert_eq!(store_path_hash("/nix/store/abc123-name-1.0"), "abc123");
    assert_eq!(store_path_hash("abc123-name"), "abc123");
    assert_eq!(store_path_hash("/nix/store/abc123"), "abc123");
    assert_eq!(store_path_hash("/nix/store/"), "");
    assert_eq!(store_path_hash(""), "");
    assert_eq!(store_path_hash("/nix/store/-x"), "");
}

#[test]
fn name_of_a_store_path() {
    let hash = "0123456789abcdfghijklmnpqrsvwxyz";
    let path = format!("/nix/store/{hash}-glibc-2.40");
    assert_eq!(store_path_name(&path), Some("glibc-2.40".to_string()));
    assert_eq!(store_path_name(&format!("/nix/store/{hash}-")), None);
    assert_eq!(store_path_name(&format!("/nix/store/{hash}-x")), Some("x".to_string()));
    assert_eq!(store_path_name(&format!("/nix/store/{hash}_x")), None);
    assert_eq!(store_path_name("/nix/store/short-glibc-2.40"), None);
    // the hash is counted in bytes
    let wide = "ßßßßßßßßßßßßßßßß";
    assert_eq!(store_path_name(&format!("/nix/store/{wide}-x")), Some("x".to_string()));
    assert_eq!(store_path_name(&format!("/nix/store/a{wide}-x")), None);
}

#[test]
fn writable_files() {
    assert_eq!(make_writable(0o444), 0o644);
    assert_eq!(make_writable(0o555), 0o755);
    assert_eq!(make_writable(0o644), 0o644);
    assert_eq!(make_writable(make_writable(0)), 0o200);
}

#[test]
fn executable_files() {
    assert!(owner_may_execute(0o755));
    assert!(owner_may_execute(0o100));
    assert!(!owner_may_execute(0o644));
    assert!(!owner_may_execute(0o011));
}

#[test]
fn entries_of_a_tree() {
    assert_eq!(copy_tree(true, false), CopyStep::Link);
    assert_eq!(copy_tree(true, true), CopyStep::Link);
    assert_eq!(copy_tree(false, true), CopyStep::Descend);
    assert_eq!(copy_tree(false, false), CopyStep::Copy);
}

#[test]
fn kept_store_paths_get_into_a_bundle() {
    assert_eq!(keep_step(false, false, false), KeepStep::Missing);
    assert_eq!(keep_step(true, true, true), KeepStep::Present);
    assert_eq!(keep_step(true, false, true), KeepStep::CopyTree);
    assert_eq!(keep_step(true, false, false), KeepStep::CopyFile);
    assert_eq!(file_step(false, Some(true)), FileStep::Skip);
    assert_eq!(file_step(true, None), FileStep::Skip);
    assert_eq!(file_step(true, Some(true)), FileStep::Relink);
    assert_eq!(file_step(true, Some(false)), FileStep::Copy);
    assert!(keeps_dir_link(true, true, false));
    assert!(!keeps_dir_link(true, true, true));
    assert!(!keeps_dir_link(false, true, false));
    assert!(!keeps_dir_link(true, false, false));
}

#[test]
fn relative_paths() {
    assert_eq!(relative("/out/nix/store/x/bin/app", "/out/bin"), "../nix/store/x/bin/app");
    assert_eq!(relative("/out/bin/app", "/out/bin"), "app");
    assert_eq!(relative("/out", "/out/bin"), "..");
    assert_eq!(relative("/out/bin", "/out/bin"), "");
    assert_eq!(relative("/a/b", "/c/d"), "../../a/b");
    assert_eq!(relative("/out/binary/app", "/out/bin"), "../binary/app");
}

#[test]
fn relative_paths_lead_to_the_target() {
    for (target, base) in [
        ("/out/nix/store/x/bin/app", "/out/bin"),
        ("/a", "/b/c/d"),
        ("/a/b/c", "/"),
        ("/", "/a/b"),
    ] {
        let mut at = parts(base);
        for part in pathdiff(&parts(target), &parts(base)) {
            if part == b".." {
                at.pop();
            } else {
                at.push(part);
            }
        }
        assert_eq!(at, parts(target));
    }
}
