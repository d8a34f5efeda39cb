use devcat::capture::{capture, project_manifest, FileContent};
use devcat::diff::diff;
use devcat::error::StoreError;
use devcat::history::{History, Snapshot, MAX_ID};
use devcat::manifest::Manifest;
use devcat::prune::{prune, reachable_digests};
use devcat::store::ObjectStore;

const HELLO_DIGEST: &str = "2cf24dba5fb0a30e26e83b2ac5b9e29e1b161e5c1fa7425e73043362938b9824";

fn file(path: &str, content: &str) -> FileContent {
    FileContent { path: path.to_string(), content: content.as_bytes().to_vec() }
}

fn sorted(mut v: Vec<String>) -> Vec<String> {
    v.sort();
    v
}

fn manifest_of(store: &ObjectStore, snap: &Snapshot) -> Manifest {
    let bytes = store.get(&snap.manifest_digest).unwrap();
    Manifest::from_bytes(bytes).unwrap()
}

#[test]
fn put_returns_sha256_hex() {
    let mut store = ObjectStore::new();
    let d = store.put(b"hello".to_vec());
    assert_eq!(d, HELLO_DIGEST);
    assert_eq!(store.get(&d).unwrap(), &b"hello".to_vec());
}

#[test]
fn put_twice_keeps_one_object() {
    let mut store = ObjectStore::new();
    let d1 = store.put(b"same bytes".to_vec());
    let d2 = store.put(b"same bytes".to_vec());
    let d3 = store.put(b"same bytes".to_vec());
    assert_eq!(d1, d2);
    assert_eq!(d2, d3);
    assert_eq!(store.digests(), vec![d1]);
}

#[test]
fn get_missing_is_not_found() {
    let store = ObjectStore::new();
    assert_eq!(store.get(&HELLO_DIGEST.to_string()).unwrap_err(), StoreError::NotFound);
    assert!(!store.contains(&HELLO_DIGEST.to_string()));
}

#[test]
fn delete_is_idempotent() {
    let mut store = ObjectStore::new();
    let d = store.put(b"hello".to_vec());
    let other = store.put(b"world".to_vec());
    store.delete(&d);
    store.delete(&d);
    assert!(!store.contains(&d));
    assert!(store.contains(&other));
    assert_eq!(store.digests(), vec![other]);
}

#[test]
fn manifest_bytes_ignore_insertion_order() {
    let mut a = Manifest::new();
    a.insert("b.txt".to_string(), "d2".to_string());
    a.insert("a.txt".to_string(), "d1".to_string());
    let mut b = Manifest::new();
    b.insert("a.txt".to_string(), "d1".to_string());
    b.insert("b.txt".to_string(), "d2".to_string());
    assert_eq!(a.to_bytes(), b.to_bytes());
    assert_eq!(a.to_bytes(), br#"{"a.txt":"d1","b.txt":"d2"}"#.to_vec());
}

#[test]
fn manifest_insert_replaces_digest() {
    let mut m = Manifest::new();
    m.insert("a.txt".to_string(), "d1".to_string());
    m.insert("a.txt".to_string(), "d2".to_string());
    assert_eq!(m.entries().len(), 1);
    assert_eq!(m.get(&"a.txt".to_string()), Some(&"d2".to_string()));
    assert_eq!(m.get(&"b.txt".to_string()), None);
    assert!(m.contains_path(&"a.txt".to_string()));
}

#[test]
fn manifest_round_trips_through_bytes() {
    let mut m = Manifest::new();
    m.insert("dir/x \"q\".txt".to_string(), "d1".to_string());
    m.insert("y.txt".to_string(), "d2".to_string());
    let back = Manifest::from_bytes(&m.to_bytes()).unwrap();
    assert_eq!(back.to_bytes(), m.to_bytes());
    assert_eq!(back.get(&"dir/x \"q\".txt".to_string()), Some(&"d1".to_string()));
}

#[test]
fn manifest_garbage_is_corrupt() {
    assert_eq!(Manifest::from_bytes(b"not json").err(), Some(StoreError::Corrupt));
    assert_eq!(Manifest::from_bytes(br#"{"a": 3}"#).err(), Some(StoreError::Corrupt));
}

#[test]
fn history_ids_start_at_one_and_increase() {
    let mut h = History::new();
    let s1 = h.append("m1".to_string(), 10);
    let s2 = h.append("m2".to_string(), 20);
    assert_eq!(s1.id, 1);
    assert_eq!(s2.id, 2);
    assert_eq!(s2.manifest_digest, "m2");
    assert_eq!(s2.created_at, 20);
    assert_eq!(h.all().len(), 2);
    assert_eq!(h.get_snapshot(2).unwrap().manifest_digest, "m2");
}

#[test]
fn history_append_uses_largest_id() {
    let loaded = vec![
        Snapshot { id: 3, manifest_digest: "a".to_string(), created_at: 1 },
        Snapshot { id: 7, manifest_digest: "b".to_string(), created_at: 2 },
    ];
    let mut h = History::from_snapshots(loaded).unwrap();
    assert_eq!(h.append("c".to_string(), 3).id, 8);
}

#[test]
fn history_missing_id_is_not_found() {
    let mut h = History::new();
    h.append("m1".to_string(), 10);
    assert_eq!(h.get_snapshot(5).err(), Some(StoreError::NotFound));
}

#[test]
fn history_out_of_order_is_corrupt() {
    let loaded = vec![
        Snapshot { id: 2, manifest_digest: "a".to_string(), created_at: 1 },
        Snapshot { id: 2, manifest_digest: "b".to_string(), created_at: 2 },
    ];
    assert_eq!(History::from_snapshots(loaded).err(), Some(StoreError::Corrupt));
    let zero = vec![Snapshot { id: 0, manifest_digest: "a".to_string(), created_at: 1 }];
    assert_eq!(History::from_snapshots(zero).err(), Some(StoreError::Corrupt));
}

#[test]
fn history_full_cannot_append() {
    let loaded = vec![Snapshot { id: MAX_ID, manifest_digest: "a".to_string(), created_at: 1 }];
    let h = History::from_snapshots(loaded).unwrap();
    assert!(!h.can_append());
    assert!(History::new().can_append());
}

#[test]
fn diff_classifies_every_path() {
    let mut a = Manifest::new();
    a.insert("same".to_string(), "d1".to_string());
    a.insert("changed".to_string(), "d2".to_string());
    a.insert("gone".to_string(), "d3".to_string());
    let mut b = Manifest::new();
    b.insert("same".to_string(), "d1".to_string());
    b.insert("changed".to_string(), "d9".to_string());
    b.insert("new".to_string(), "d4".to_string());
    let r = diff(&a, &b);
    assert_eq!(r.added, vec!["new".to_string()]);
    assert_eq!(r.removed, vec!["gone".to_string()]);
    assert_eq!(r.modified, vec!["changed".to_string()]);
    assert_eq!(r.unchanged, vec!["same".to_string()]);
}

#[test]
fn end_to_end_capture_diff_revert() {
    let mut store = ObjectStore::new();
    let mut history = History::new();
    let s1 = capture(&mut store, &mut history, vec![file("a.txt", "hello"), file("b.txt", "world")], 100);
    assert_eq!(s1.id, 1);
    let m1 = manifest_of(&store, &s1);
    assert_eq!(m1.get(&"a.txt".to_string()), Some(&HELLO_DIGEST.to_string()));
    let s2 = capture(&mut store, &mut history, vec![file("a.txt", "bye"), file("c.txt", "new")], 200);
    assert_eq!(s2.id, 2);
    let m2 = manifest_of(&store, &s2);
    let d = diff(&m1, &m2);
    assert_eq!(d.modified, vec!["a.txt".to_string()]);
    assert_eq!(d.removed, vec!["b.txt".to_string()]);
    assert_eq!(d.added, vec!["c.txt".to_string()]);
    assert!(d.unchanged.is_empty());

    let disk_files = vec!["a.txt".to_string(), "c.txt".to_string()];
    let plan = devcat::revert::run(&devcat::revert::RevertArgs { id: 1 }, &history, &store, &disk_files, &vec![]).unwrap();
    let mut writes: Vec<(String, Vec<u8>)> = plan.writes.into_iter().map(|w| (w.path, w.content)).collect();
    writes.sort();
    assert_eq!(writes, vec![("a.txt".to_string(), b"hello".to_vec()), ("b.txt".to_string(), b"world".to_vec())]);
    assert_eq!(plan.remove_files, vec!["c.txt".to_string()]);
}

#[test]
fn capture_into_empty_tree_reproduces_it() {
    let mut store = ObjectStore::new();
    let mut history = History::new();
    let tree = vec![file("src/main.rs", "fn main() {}"), file("README", "read me"), file("copy", "read me")];
    let s = capture(&mut store, &mut history, tree, 1);
    let plan = devcat::revert::run(&devcat::revert::RevertArgs { id: s.id }, &history, &store, &vec![], &vec![]).unwrap();
    let mut writes: Vec<(String, Vec<u8>)> = plan.writes.into_iter().map(|w| (w.path, w.content)).collect();
    writes.sort();
    assert_eq!(
        writes,
        vec![
            ("README".to_string(), b"read me".to_vec()),
            ("copy".to_string(), b"read me".to_vec()),
            ("src/main.rs".to_string(), b"fn main() {}".to_vec()),
        ]
    );
    assert!(plan.remove_files.is_empty());
    assert!(plan.remove_dirs.is_empty());
}

#[test]
fn revert_removes_extra_file() {
    let mut store = ObjectStore::new();
    let mut history = History::new();
    let s = capture(&mut store, &mut history, vec![file("keep.txt", "k")], 1);
    let disk = vec!["keep.txt".to_string(), "extra.txt".to_string()];
    let plan = devcat::revert::run(&devcat::revert::RevertArgs { id: s.id }, &history, &store, &disk, &vec![]).unwrap();
    assert_eq!(plan.remove_files, vec!["extra.txt".to_string()]);
    assert_eq!(plan.writes.len(), 1);
    assert_eq!(plan.writes[0].path, "keep.txt");
    assert_eq!(plan.writes[0].content, b"k".to_vec());
}

#[test]
fn revert_prunes_directories_deepest_first() {
    let mut store = ObjectStore::new();
    let mut history = History::new();
    let s = capture(&mut store, &mut history, vec![file("top.txt", "t")], 1);
    let dirs = vec!["a".to_string(), "a/b".to_string(), "a/b/c".to_string()];
    let files = vec!["a/b/c/f.txt".to_string(), "top.txt".to_string()];
    let plan = devcat::revert::run(&devcat::revert::RevertArgs { id: s.id }, &history, &store, &files, &dirs).unwrap();
    assert_eq!(plan.remove_dirs, vec!["a/b/c".to_string(), "a/b".to_string(), "a".to_string()]);
    assert_eq!(plan.remove_files, vec!["a/b/c/f.txt".to_string()]);
}

#[test]
fn revert_keeps_directory_with_tracked_file() {
    let mut store = ObjectStore::new();
    let mut history = History::new();
    let s = capture(&mut store, &mut history, vec![file("a/keep.txt", "t")], 1);
    let dirs = vec!["a".to_string(), "a/b".to_string(), "a/b/c".to_string(), "ab".to_string()];
    let files = vec!["a/b/c/f.txt".to_string(), "a/keep.txt".to_string()];
    let plan = devcat::revert::run(&devcat::revert::RevertArgs { id: s.id }, &history, &store, &files, &dirs).unwrap();
    assert_eq!(plan.remove_dirs, vec!["a/b/c".to_string(), "a/b".to_string(), "ab".to_string()]);
}

#[test]
fn revert_unknown_id_is_not_found() {
    let store = ObjectStore::new();
    let history = History::new();
    let r = devcat::revert::run(&devcat::revert::RevertArgs { id: 4 }, &history, &store, &vec![], &vec![]);
    assert_eq!(r.err(), Some(StoreError::NotFound));
}

#[test]
fn revert_missing_object_is_not_found() {
    let mut store = ObjectStore::new();
    let mut history = History::new();
    let s = capture(&mut store, &mut history, vec![file("x", "gone soon")], 1);
    let d = store.put(b"gone soon".to_vec());
    store.delete(&d);
    let r = devcat::revert::run(&devcat::revert::RevertArgs { id: s.id }, &history, &store, &vec![], &vec![]);
    assert_eq!(r.err(), Some(StoreError::NotFound));
}

#[test]
fn revert_unparsable_manifest_is_corrupt() {
    let mut store = ObjectStore::new();
    let mut history = History::new();
    let d = store.put(b"[1, 2]".to_vec());
    let s = history.append(d, 1);
    let r = devcat::revert::run(&devcat::revert::RevertArgs { id: s.id }, &history, &store, &vec![], &vec![]);
    assert_eq!(r.err(), Some(StoreError::Corrupt));
}

#[test]
fn prune_keeps_all_reachable_versions() {
    let mut store = ObjectStore::new();
    let mut history = History::new();
    let s1 = capture(&mut store, &mut history, vec![file("x", "one")], 1);
    let s2 = capture(&mut store, &mut history, vec![file("x", "two")], 2);
    let orphan = store.put(b"crashed before append".to_vec());
    let d1 = store.put(b"one".to_vec());
    let d2 = store.put(b"two".to_vec());
    let removed = prune(&mut store, &history).unwrap();
    assert_eq!(removed, vec![orphan.clone()]);
    assert!(store.contains(&d1));
    assert!(store.contains(&d2));
    assert!(store.contains(&s1.manifest_digest));
    assert!(store.contains(&s2.manifest_digest));
    assert!(!store.contains(&orphan));
    assert_eq!(sorted(reachable_digests(&history, &store).unwrap()).len(), 4);
}

#[test]
fn prune_aborts_on_missing_manifest() {
    let mut store = ObjectStore::new();
    let mut history = History::new();
    let kept = store.put(b"data".to_vec());
    history.append("0".repeat(64), 1);
    assert_eq!(prune(&mut store, &history).err(), Some(StoreError::Corrupt));
    assert!(store.contains(&kept));
}

#[test]
fn projection_matches_capture_without_storing() {
    let tree = vec![file("a.txt", "hello"), file("b.txt", "world")];
    let projected = project_manifest(&tree);
    assert_eq!(projected.get(&"a.txt".to_string()), Some(&HELLO_DIGEST.to_string()));
    let mut store = ObjectStore::new();
    let mut history = History::new();
    let s = capture(&mut store, &mut history, tree, 1);
    assert_eq!(manifest_of(&store, &s).to_bytes(), projected.to_bytes());
    let d = diff(&manifest_of(&store, &s), &projected);
    assert_eq!(d.unchanged.len(), 2);
}

#[test]
fn identical_files_share_one_object() {
    let mut store = ObjectStore::new();
    let mut history = History::new();
    let s = capture(&mut store, &mut history, vec![file("p1", "same"), file("p2", "same")], 1);
    let m = manifest_of(&store, &s);
    let d = store.put(b"same".to_vec());
    assert_eq!(m.get(&"p1".to_string()), Some(&d));
    assert_eq!(m.get(&"p2".to_string()), Some(&d));
    assert_eq!(store.digests().len(), 2);
    assert_eq!(
        devcat::cat::render_manifest(&m, &store),
        "--- START FILE: p1 ---\nsame\n--- END FILE: p1 ---\n\n--- START FILE: p2 ---\nsame\n--- END FILE: p2 ---\n\n"
    );
}

#[test]
fn snapshots_read_back_after_prune() {
    let mut store = ObjectStore::new();
    let mut history = History::new();
    let s1 = capture(&mut store, &mut history, vec![file("x", "one")], 1);
    let s2 = capture(&mut store, &mut history, vec![file("x", "two")], 2);
    store.put(b"orphan".to_vec());
    prune(&mut store, &history).unwrap();
    let t1 = devcat::cat::render_manifest(&manifest_of(&store, &s1), &store);
    let t2 = devcat::cat::render_manifest(&manifest_of(&store, &s2), &store);
    assert_eq!(t1, "--- START FILE: x ---\none\n--- END FILE: x ---\n\n");
    assert_eq!(t2, "--- START FILE: x ---\ntwo\n--- END FILE: x ---\n\n");
}
