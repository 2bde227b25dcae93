use next_emit::emit::{emit_all_assets, emit_assets, emit_client_assets, OutputStore};
use next_emit::graph::{all_assets_from_entries, AssetGraph, OutputAsset};
use next_emit::path::{classify, rebase, FileSystemPath, Placement};

fn p(s: &str) -> FileSystemPath {
    FileSystemPath { fs: 0, path: s.as_bytes().to_vec() }
}

fn asset(path: &str, content: &str, references: Vec<usize>) -> OutputAsset {
    OutputAsset { path: p(path), content: content.as_bytes().to_vec(), references }
}

/// A -> C, B -> C, C -> nothing; A and C under the server root, B under the
/// client-relative root.
fn diamond() -> AssetGraph {
    AssetGraph {
        assets: vec![
            asset(".next/server/a.js", "a", vec![2]),
            asset(".next/client/chunks/b.js", "b", vec![2]),
            asset(".next/server/c.js", "c", vec![]),
        ],
    }
}

#[test]
fn inside_requires_separator_after_base() {
    assert!(p(".next/server/a.js").is_inside_ref(&p(".next/server")));
    assert!(!p(".next/serverless/a.js").is_inside_ref(&p(".next/server")));
    assert!(!p(".next/server").is_inside_ref(&p(".next/server")));
    assert!(p("a").is_inside_ref(&p("")));
    let other_fs = FileSystemPath { fs: 1, path: b".next/server/a.js".to_vec() };
    assert!(!other_fs.is_inside_ref(&p(".next/server")));
}

#[test]
fn rebase_replaces_prefix() {
    let r = rebase(&p(".next/client/chunks/b.js"), &p(".next/client"), &p("out")).unwrap();
    assert_eq!(r.path, b"out/chunks/b.js".to_vec());
    let r = rebase(&p(".next/client/chunks/b.js"), &p(".next/client"), &p("")).unwrap();
    assert_eq!(r.path, b"chunks/b.js".to_vec());
    let r = rebase(&p("x/y"), &p(""), &p("out")).unwrap();
    assert_eq!(r.path, b"out/x/y".to_vec());
    let to = FileSystemPath { fs: 7, path: b"out".to_vec() };
    assert_eq!(rebase(&p("x/y"), &p(""), &to).unwrap().fs, 7);
    assert!(rebase(&p("elsewhere/b.js"), &p(".next/client"), &p("out")).is_none());
}

#[test]
fn diamond_resolves_each_asset_once_dependencies_first() {
    let g = diamond();
    let all = all_assets_from_entries(&g, &vec![0, 1]);
    assert_eq!(all.len(), 3);
    for x in 0..3usize {
        assert_eq!(all.iter().filter(|&&y| y == x).count(), 1);
    }
    let pos = |x: usize| all.iter().position(|&y| y == x).unwrap();
    assert!(pos(2) < pos(0));
    assert!(pos(2) < pos(1));
    assert_eq!(all, vec![2, 0, 1]);
}

#[test]
fn cycle_terminates_with_each_asset_once() {
    let g = AssetGraph {
        assets: vec![asset("a", "a", vec![1]), asset("b", "b", vec![0, 1]), asset("c", "c", vec![])],
    };
    let mut all = all_assets_from_entries(&g, &vec![0, 0]);
    all.sort();
    assert_eq!(all, vec![0, 1]);
}

#[test]
fn empty_entries_resolve_to_nothing() {
    let g = diamond();
    assert!(all_assets_from_entries(&g, &vec![]).is_empty());
}

#[test]
fn scenario_first_run_writes_then_rerun_is_unchanged() {
    let g = diamond();
    let mut store = OutputStore::new();
    let changed = emit_all_assets(&g, &vec![0, 1], &p(".next/server"), &p(".next/client"), &p("out"), &mut store);
    assert!(changed);
    assert_eq!(store.read(&p(".next/server/a.js")), Some(b"a".to_vec()));
    assert_eq!(store.read(&p(".next/server/c.js")), Some(b"c".to_vec()));
    assert_eq!(store.read(&p("out/chunks/b.js")), Some(b"b".to_vec()));
    assert_eq!(store.read(&p(".next/client/chunks/b.js")), None);
    let changed = emit_all_assets(&g, &vec![0, 1], &p(".next/server"), &p(".next/client"), &p("out"), &mut store);
    assert!(!changed);
    assert_eq!(store.read(&p(".next/server/a.js")), Some(b"a".to_vec()));
    assert_eq!(store.read(&p(".next/server/c.js")), Some(b"c".to_vec()));
    assert_eq!(store.read(&p("out/chunks/b.js")), Some(b"b".to_vec()));
}

#[test]
fn emitting_twice_is_unchanged_the_second_time() {
    let g = diamond();
    let mut store = OutputStore::new();
    assert!(emit_assets(&g, &vec![0, 1, 2], &p(".next/server"), &p(".next/client"), &p("out"), &mut store));
    assert!(!emit_assets(&g, &vec![0, 1, 2], &p(".next/server"), &p(".next/client"), &p("out"), &mut store));
}

#[test]
fn changed_content_is_reported() {
    let mut g = diamond();
    let mut store = OutputStore::new();
    emit_assets(&g, &vec![0, 1, 2], &p(".next/server"), &p(".next/client"), &p("out"), &mut store);
    g.assets[2].content = b"c2".to_vec();
    assert!(emit_assets(&g, &vec![2], &p(".next/server"), &p(".next/client"), &p("out"), &mut store));
    assert_eq!(store.read(&p(".next/server/c.js")), Some(b"c2".to_vec()));
}

#[test]
fn empty_batch_is_unchanged() {
    let g = diamond();
    let mut store = OutputStore::new();
    assert!(!emit_assets(&g, &vec![], &p(".next/server"), &p(".next/client"), &p("out"), &mut store));
}

#[test]
fn asset_under_neither_root_is_not_written() {
    let g = AssetGraph { assets: vec![asset("elsewhere/x.js", "x", vec![])] };
    let mut store = OutputStore::new();
    assert!(!emit_assets(&g, &vec![0], &p(".next/server"), &p(".next/client"), &p("out"), &mut store));
    assert_eq!(store.read(&p("elsewhere/x.js")), None);
}

#[test]
fn client_emission_skips_server_assets() {
    let g = diamond();
    let mut store = OutputStore::new();
    assert!(emit_client_assets(&g, &vec![0, 1, 2], &p(".next/client"), &p("out"), &mut store));
    assert_eq!(store.read(&p("out/chunks/b.js")), Some(b"b".to_vec()));
    assert_eq!(store.read(&p(".next/server/a.js")), None);
    assert_eq!(store.read(&p(".next/server/c.js")), None);
}

#[test]
fn store_write_reports_change() {
    let mut store = OutputStore::new();
    assert!(store.write(&p("f"), b"1".to_vec()));
    assert!(!store.write(&p("f"), b"1".to_vec()));
    assert!(store.write(&p("f"), b"2".to_vec()));
    assert_eq!(store.read(&p("f")), Some(b"2".to_vec()));
}

#[test]
fn classify_tests_server_root_first() {
    assert_eq!(classify(&p(".next/server/a.js"), &p(".next/server"), &p(".next/client")), Placement::Server);
    assert_eq!(classify(&p(".next/client/b.js"), &p(".next/server"), &p(".next/client")), Placement::Client);
    assert_eq!(classify(&p("other/b.js"), &p(".next/server"), &p(".next/client")), Placement::Neither);
    assert_eq!(classify(&p(".next/b.js"), &p(".next"), &p(".next")), Placement::Server);
}
