use nix2flatpak::classify::{Classification, ClassifyResult, Reason};
use nix2flatpak::elf_paths::new_rpath;
use nix2flatpak::json::{member, text_member, Json, Member};
use nix2flatpak::plan::{make_plan, total_size, unique_rewrites, Lists, Plan, Stats};
use nix2flatpak::plan_json::{
    build_drop_hashes, build_rewrite_map, kept_store_paths, partial_store_paths, plan_package,
    write_plan,
};
use nix2flatpak::rewrites::{Rewrite, RewriteKind};
use nix2flatpak::table::{NameSet, Table};

fn strings(list: &[&str]) -> Vec<String> {
    list.iter().map(|s| s.to_string()).collect()
}

fn rewrite(from: &str, to: &str, by: Option<&str>) -> Rewrite {
    Rewrite {
        from: from.to_string(),
        to: to.to_string(),
        kind: if by.is_some() { RewriteKind::StorePathReference } else { RewriteKind::Executable },
        referenced_by: by.map(|s| s.to_string()),
    }
}

fn result(path: &str, classification: Classification, reason: Reason) -> ClassifyResult {
    ClassifyResult {
        store_path: path.to_string(),
        classification,
        reason,
        kept_files: strings(&["z", "a"]),
        dropped_files: strings(&["y", "b"]),
        matched_sonames: strings(&["libz.so.1", "liba.so.1"]),
        rewrites: vec![rewrite(&format!("{path}/bin/x"), "/usr/bin/x", None)],
    }
}

fn index() -> Json {
    let runtime = Json::Record(vec![text_member("name", "org.gnome.Platform")]);
    Json::Record(vec![member("metadata", Json::Record(vec![member("Runtime", runtime)]))])
}

fn stats() -> Stats {
    Stats {
        closure_paths: 5,
        closure_size: 100,
        kept_size: 25,
        dedup_ratio: "75.0%".to_string(),
    }
}

fn plan() -> Plan {
    let mut lists = Lists::new();
    lists.add(result("/nix/store/hd-d", Classification::Drop, Reason::AllContentInRuntime));
    lists.add(result("/nix/store/hp-p", Classification::Partial, Reason::Unstated));
    lists.add(result("/nix/store/hk2-k", Classification::Keep, Reason::NoRuntimeMatch));
    lists.add(result("/nix/store/hk1-k", Classification::Keep, Reason::TargetPackage));
    lists.add(result("/nix/store/hc-c", Classification::Drop, Reason::Empty));
    let references = vec![
        rewrite("/nix/store/hd-d", "/app/nix/store/hd-d", Some("/nix/store/hk1-k/x")),
        rewrite("/nix/store/hd-d/bin/x", "/elsewhere", Some("y")),
    ];
    make_plan(lists, references, &index(), "/nix/store/hk1-k", stats())
}

fn text(json: &Json) -> String {
    json.text().unwrap().clone()
}

fn members(json: &Json) -> Vec<String> {
    json.keys().unwrap()
}

#[test]
fn lists_of_a_plan() {
    let p = plan();
    assert_eq!(p.runtime, "org.gnome.Platform");
    assert_eq!(p.package, "/nix/store/hk1-k");
    let keep: Vec<&str> = p.lists.keep.iter().map(|e| e.store_path.as_str()).collect();
    assert_eq!(keep, vec!["/nix/store/hk1-k", "/nix/store/hk2-k"]);
    let drop: Vec<&str> = p.lists.drop.iter().map(|e| e.store_path.as_str()).collect();
    assert_eq!(drop, vec!["/nix/store/hc-c", "/nix/store/hd-d"]);
    assert_eq!(p.lists.drop[0].matched_sonames, strings(&["liba.so.1", "libz.so.1"]));
    assert_eq!(p.lists.partial[0].keep_files, strings(&["a", "z"]));
    assert_eq!(p.lists.partial[0].drop_files, strings(&["b", "y"]));
    let from: Vec<&str> = p.lists.rewrites.iter().map(|r| r.from.as_str()).collect();
    assert_eq!(
        from,
        vec![
            "/nix/store/hc-c/bin/x",
            "/nix/store/hd-d",
            "/nix/store/hd-d/bin/x",
            "/nix/store/hp-p/bin/x",
        ]
    );
    // the first rewrite of a path counts
    assert_eq!(p.lists.rewrites[2].to, "/usr/bin/x");
}

#[test]
fn sizes_are_summed() {
    assert_eq!(total_size(&vec![]), Some(0));
    assert_eq!(total_size(&vec![1, 2, 3]), Some(6));
    assert_eq!(total_size(&vec![u64::MAX, 0]), Some(u64::MAX));
    assert_eq!(total_size(&vec![u64::MAX, 1]), None);
}

#[test]
fn rewrites_of_one_path() {
    let list = vec![rewrite("a", "1", None), rewrite("b", "2", None), rewrite("a", "3", None)];
    let r = unique_rewrites(&list);
    assert_eq!(r.len(), 2);
    assert_eq!((r[0].from.as_str(), r[0].to.as_str()), ("a", "1"));
    assert_eq!((r[1].from.as_str(), r[1].to.as_str()), ("b", "2"));
}

#[test]
fn a_runtime_without_a_name() {
    let p = make_plan(Lists::new(), vec![], &Json::Null, "p", stats());
    assert_eq!(p.runtime, "detected-from-index");
    let section = Json::Record(vec![member("name", Json::Null)]);
    let metadata = Json::Record(vec![member("Runtime", section)]);
    let odd = Json::Record(vec![member("metadata", metadata)]);
    let p = make_plan(Lists::new(), vec![], &odd, "p", stats());
    assert_eq!(p.runtime, "detected-from-index");
}

#[test]
fn a_plan_as_json() {
    let json = write_plan(&plan());
    assert_eq!(
        members(&json),
        strings(&["drop", "keep", "package", "partial", "rewrites", "runtime", "stats"])
    );
    let drop = json.list_at("drop").unwrap();
    assert_eq!(members(&drop[0]), strings(&["matchedSonames", "reason", "storePath"]));
    assert_eq!(text(drop[0].get("reason").unwrap()), "empty");
    let keep = json.list_at("keep").unwrap();
    assert_eq!(members(&keep[0]), strings(&["reason", "storePath"]));
    assert_eq!(text(keep[0].get("reason").unwrap()), "target-package");
    let partial = json.list_at("partial").unwrap();
    assert_eq!(members(&partial[0]), strings(&["dropFiles", "keepFiles", "storePath"]));
    let rewrites = json.list_at("rewrites").unwrap();
    assert_eq!(members(&rewrites[0]), strings(&["from", "to", "type"]));
    assert_eq!(members(&rewrites[1]), strings(&["from", "referencedBy", "to", "type"]));
    assert_eq!(text(rewrites[1].get("type").unwrap()), "store-path-reference");
    let stats = json.get("stats").unwrap();
    assert!(matches!(stats.get("closurePaths"), Some(Json::Number(5))));
    assert!(matches!(stats.get("keptPaths"), Some(Json::Number(3))));
    assert!(matches!(stats.get("closureSizeBytes"), Some(Json::Number(100))));
    assert!(matches!(stats.get("keptSizeBytes"), Some(Json::Number(25))));
    assert_eq!(text(stats.get("dedupRatio").unwrap()), "75.0%");
}

#[test]
fn a_written_plan_is_read_back() {
    let json = write_plan(&plan());
    let map = build_rewrite_map(&json);
    let get = |k: &str| map.get(k).map(|s| s.as_str().to_string());
    assert_eq!(get("/nix/store/hk1-k"), Some("/app/nix/store/hk1-k".to_string()));
    assert_eq!(get("/nix/store/hp-p"), Some("/app/nix/store/hp-p".to_string()));
    assert_eq!(get("/nix/store/hd-d/bin/x"), Some("/usr/bin/x".to_string()));
    assert_eq!(get("/nix/store/hd-d"), Some("/app/nix/store/hd-d".to_string()));
    assert_eq!(get("/nix/store/hc-c"), None);
    assert_eq!(map.len(), 7);
    let hashes = build_drop_hashes(&json);
    assert!(hashes.contains("hd"));
    assert!(hashes.contains("hc"));
    assert!(!hashes.contains("hk1"));
    assert_eq!(kept_store_paths(&json), strings(&["/nix/store/hk1-k", "/nix/store/hk2-k"]));
    let partial = partial_store_paths(&json);
    assert_eq!(partial.len(), 1);
    assert_eq!(partial[0].store_path, "/nix/store/hp-p");
    assert_eq!(partial[0].keep_files, strings(&["a", "z"]));
    assert_eq!(plan_package(&json), Some("/nix/store/hk1-k".to_string()));
}

#[test]
fn library_dirs_follow_the_plan() {
    let hashes = build_drop_hashes(&write_plan(&plan()));
    assert_eq!(
        new_rpath("/nix/store/hd-d/lib:/nix/store/hk1-k/lib", &hashes, "x86_64-linux-gnu"),
        Some("/usr/lib/x86_64-linux-gnu:/app/nix/store/hk1-k/lib:/app/lib".to_string())
    );
}

#[test]
fn kept_paths_go_below_app() {
    let entry = |path: &str| Json::Record(vec![text_member("storePath", path)]);
    let pair = |from: &str, to: &str| {
        Json::Record(vec![text_member("from", from), text_member("to", to)])
    };
    let json = Json::Record(vec![
        member("keep", Json::List(vec![entry("/k"), Json::Null])),
        member("rewrites", Json::List(vec![pair("/k", "/other"), pair("/r", "/1"), pair("/r", "/2")])),
    ]);
    let map = build_rewrite_map(&json);
    assert_eq!(map.get("/k").unwrap(), "/app/k");
    assert_eq!(map.get("/r").unwrap(), "/2");
    assert_eq!(map.len(), 2);
}

#[test]
fn a_plan_with_gaps() {
    for json in [Json::Null, Json::Record(vec![]), Json::List(vec![])] {
        assert_eq!(build_rewrite_map(&json).len(), 0);
        assert!(kept_store_paths(&json).is_empty());
        assert!(partial_store_paths(&json).is_empty());
        assert_eq!(plan_package(&json), None);
    }
    let odd = Json::Record(vec![
        member("keep", Json::List(vec![Json::Number(1), Json::Record(vec![])])),
        member(
            "partial",
            Json::List(vec![Json::Record(vec![
                member("keepFiles", Json::List(vec![Json::Text("a".to_string()), Json::Null])),
                text_member("storePath", "/p"),
            ])]),
        ),
        member("rewrites", Json::List(vec![Json::Record(vec![text_member("from", "x")])])),
        member("drop", Json::Text("x".to_string())),
    ]);
    assert!(kept_store_paths(&odd).is_empty());
    assert_eq!(partial_store_paths(&odd)[0].keep_files, strings(&["a"]));
    assert_eq!(build_rewrite_map(&odd).len(), 1);
    assert!(!build_drop_hashes(&odd).contains("x"));
}

#[test]
fn json_members() {
    let first = Member { key: "a".to_string(), value: Json::Bool(true) };
    let json = Json::Record(vec![first, member("a", Json::Null), text_member("b", "x")]);
    assert!(matches!(json.get("a"), Some(Json::Bool(true))));
    assert_eq!(json.text_at("b").unwrap(), "x");
    assert!(json.text_at("a").is_none());
    assert!(json.get("c").is_none());
    assert!(json.list_at("a").is_none());
    assert!(Json::Other.keys().is_none());
    assert_eq!(json.keys().unwrap(), strings(&["a", "a", "b"]));
}

#[test]
fn tables_keep_the_order_of_their_keys() {
    let mut t: Table<u32> = Table::new();
    t.insert("b".to_string(), 1);
    t.insert("a".to_string(), 2);
    t.insert("b".to_string(), 3);
    assert_eq!(t.len(), 2);
    assert_eq!((t.key(0).as_str(), *t.value(0)), ("b", 3));
    assert_eq!((t.key(1).as_str(), *t.value(1)), ("a", 2));
    assert_eq!(t.place("a"), Some(1));
    assert_eq!(t.place("c"), None);
    *t.value_mut(1) = 7;
    assert_eq!(t.get("a"), Some(&7));
    assert!(t.contains("a") && !t.contains("c"));
    let mut s = NameSet::from_list(&strings(&["x", "y", "x"]));
    assert!(s.contains("x") && !s.contains("z"));
    assert!(s.insert("z".to_string()));
    assert!(!s.insert("z".to_string()));
}
