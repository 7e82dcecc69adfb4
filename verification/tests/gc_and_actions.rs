use syslua_lib::action::types::{Action, ActionCtx, ExecOpts};
use syslua_lib::gc::{
    collect_garbage, collect_live_hashes, extract_hash_from_cache_name, find_garbage, GcError, GcStats, SnapshotHashes, StoreEntry,
};
use syslua_lib::strmap::StrMap;

#[test]
fn test_extract_hash_from_cache_name() {
    assert_eq!(extract_hash_from_cache_name("myinput-abc123"), "abc123");
    assert_eq!(extract_hash_from_cache_name("complex-name-with-dashes-xyz789"), "xyz789");
    assert_eq!(extract_hash_from_cache_name("nohash"), "nohash");
}

#[test]
fn test_gc_stats_totals() {
    let stats = GcStats {
        builds_scanned: 10,
        builds_deleted: 3,
        builds_bytes_freed: 1000,
        inputs_scanned: 5,
        inputs_deleted: 2,
        inputs_bytes_freed: 500,
    };

    assert_eq!(stats.total_deleted(), 5);
    assert_eq!(stats.total_bytes_freed(), 1500);
}

fn entry(name: &str, complete: bool, size: u64) -> StoreEntry {
    StoreEntry { name: Some(name.to_string()), path: format!("/store/{}", name), complete, size }
}

fn live(hashes: &[&str]) -> StrMap<()> {
    let mut m = StrMap::new();
    for h in hashes {
        m.insert(h.to_string(), ());
    }
    m
}

#[test]
fn gc_keeps_live_complete_builds_only() {
    let builds = vec![entry("aaa", true, 10), entry("bbb", false, 20), entry("ccc", true, 30)];
    let inputs = vec![entry("pkgs-aaa", false, 5), entry("utils-zzz", false, 7)];
    let live = live(&["aaa", "bbb"]);

    assert_eq!(find_garbage(&builds, &live, true), vec![1, 2]);
    assert_eq!(find_garbage(&inputs, &live, false), vec![1]);

    let dry = collect_garbage(true, &live, &builds, &inputs, &vec![], &vec![]);
    assert_eq!(dry.stats.builds_scanned, 3);
    assert_eq!(dry.stats.builds_deleted, 2);
    assert_eq!(dry.stats.builds_bytes_freed, 50);
    assert_eq!(dry.stats.inputs_scanned, 2);
    assert_eq!(dry.stats.inputs_deleted, 1);
    assert_eq!(dry.stats.inputs_bytes_freed, 7);
    assert_eq!(dry.deleted_paths, vec!["/store/bbb", "/store/ccc", "/store/utils-zzz"]);

    // a real run counts only what could be removed
    let real = collect_garbage(false, &live, &builds, &inputs, &vec![true, false], &vec![true]);
    assert_eq!(real.stats.builds_deleted, 1);
    assert_eq!(real.stats.builds_bytes_freed, 20);
    assert_eq!(real.deleted_paths, vec!["/store/bbb", "/store/utils-zzz"]);
}

#[test]
fn gc_never_deletes_undecodable_names() {
    let builds = vec![StoreEntry { name: None, path: "/store/?".to_string(), complete: false, size: 1 }];
    let result = collect_garbage(true, &live(&[]), &builds, &vec![], &vec![], &vec![]);
    assert_eq!(result.stats.builds_scanned, 1);
    assert_eq!(result.stats.builds_deleted, 0);
}

#[test]
fn cmd_preserves_env_and_cwd() {
    let mut ctx = ActionCtx::new();
    let mut env = StrMap::new();
    env.insert("CC".to_string(), "clang".to_string());

    ctx.exec(ExecOpts::new("make").with_env(env.clone()).with_cwd("/build"));

    let actions = ctx.into_actions();
    assert_eq!(actions.len(), 1);

    match &actions[0] {
        Action::Exec(opts) => {
            assert_eq!(opts.bin, "make");
            assert_eq!(opts.env, Some(env));
            assert_eq!(opts.cwd, Some("/build".to_string()));
        }
        _ => panic!("Expected Cmd action"),
    }
}

#[test]
fn actions_get_numbered_placeholders() {
    let mut ctx = ActionCtx::new();
    assert_eq!(ctx.out(), "$${{out}}");
    let p0 = ctx.fetch_url("https://example.com/a.tar.gz", "00ff");
    let p1 = ctx.exec(ExecOpts::new("tar xf a.tar.gz"));
    assert_eq!(p0, "$${{action:0}}");
    assert_eq!(p1, "$${{action:1}}");
    assert_eq!(ctx.action_count(), 2);
    let actions = ctx.into_actions();
    assert_eq!(
        actions[0],
        Action::FetchUrl { url: "https://example.com/a.tar.gz".to_string(), sha256: "00ff".to_string() }
    );
}

#[test]
fn placeholders_count_past_ten() {
    let mut ctx = ActionCtx::new();
    let mut last = String::new();
    for _ in 0..12 {
        last = ctx.exec(ExecOpts::new("true"));
    }
    assert_eq!(last, "$${{action:11}}");
}

#[test]
fn live_hashes_come_from_loadable_snapshots() {
    let snaps = vec![
        Some(SnapshotHashes { builds: vec!["b1".to_string(), "b2".to_string()], bindings: vec!["k1".to_string()] }),
        None,
        Some(SnapshotHashes { builds: vec!["b2".to_string()], bindings: vec![] }),
    ];
    let live = collect_live_hashes(Ok(snaps)).unwrap();
    assert_eq!(live.len(), 3);
    assert!(live.contains_key("b1"));
    assert!(live.contains_key("b2"));
    assert!(live.contains_key("k1"));
}

#[test]
fn snapshot_listing_failure_is_an_error() {
    match collect_live_hashes(Err("no store".to_string())) {
        Err(GcError::ListSnapshots(m)) => assert_eq!(m, "no store"),
        other => panic!("unexpected {:?}", other.map(|s| s.len())),
    }
}

#[test]
fn recorded_actions_keep_call_order_and_distinct_placeholders() {
    let mut ctx = ActionCtx::new();
    let mut placeholders = Vec::new();
    placeholders.push(ctx.exec(ExecOpts::new("a")));
    placeholders.push(ctx.fetch_url("https://x/1", "11"));
    placeholders.push(ctx.exec(ExecOpts::new("b")));
    placeholders.push(ctx.fetch_url("https://x/2", "22"));
    for (i, p) in placeholders.iter().enumerate() {
        assert_eq!(*p, format!("$${{{{action:{}}}}}", i));
        for q in placeholders.iter().skip(i + 1) {
            assert_ne!(p, q);
        }
    }
    assert_eq!(ctx.action_count(), 4);
    let actions = ctx.into_actions();
    assert_eq!(
        actions,
        vec![
            Action::Exec(ExecOpts::new("a")),
            Action::FetchUrl { url: "https://x/1".to_string(), sha256: "11".to_string() },
            Action::Exec(ExecOpts::new("b")),
            Action::FetchUrl { url: "https://x/2".to_string(), sha256: "22".to_string() },
        ]
    );
}
