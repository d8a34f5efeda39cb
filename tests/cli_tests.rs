use devcat::capture::FileContent;
use devcat::cat::{render_manifest, render_tree, run, CatArgs, CatSource};
use devcat::manifest::Manifest;
use devcat::store::ObjectStore;
use devcat::text::{path_less, starts_with};
use devcat::error::StoreError;
use devcat::filter::{has_output_signature, is_store_path, walk_admits, ExcludeMatcher};
use devcat::module::ModuleArgs;
use devcat::options::{merge_excludes, ExcludeArgs, OutputArgs};

fn strings(v: &[&str]) -> Vec<String> {
    v.iter().map(|s| s.to_string()).collect()
}

#[test]
fn cat_with_id_reads_snapshot() {
    let args = CatArgs {
        path: None,
        id: Some(3),
        exclude_args: ExcludeArgs { exclude: vec![] },
        output_args: OutputArgs { output: Some("out.txt".to_string()) },
    };
    let r = run(args, vec![]);
    assert!(matches!(r.source, CatSource::Snapshot { id: 3 }));
    assert_eq!(r.output, Some("out.txt".to_string()));
}

#[test]
fn cat_without_id_walks_current_directory() {
    let args = CatArgs {
        path: None,
        id: None,
        exclude_args: ExcludeArgs { exclude: strings(&["*.log"]) },
        output_args: OutputArgs { output: None },
    };
    match run(args, strings(&["target"])).source {
        CatSource::Workdir { path, excludes } => {
            assert_eq!(path, ".");
            assert_eq!(excludes, strings(&["*.log", "target"]));
        }
        CatSource::Snapshot { .. } => panic!("expected a directory"),
    }
}

#[test]
fn module_merges_excludes() {
    let args = ModuleArgs {
        path: "src/core".to_string(),
        exclude_args: ExcludeArgs { exclude: strings(&["a", "b"]) },
        output_args: OutputArgs { output: None },
    };
    let r = devcat::module::run(args, strings(&["c"]));
    assert_eq!(r.path, "src/core");
    assert_eq!(r.excludes, strings(&["a", "b", "c"]));
    assert_eq!(merge_excludes(&vec![], &vec![]), Vec::<String>::new());
}

#[test]
fn render_tree_writes_blocks() {
    let files = vec![
        FileContent { path: "a.txt".to_string(), content: b"hello".to_vec() },
        FileContent { path: "bin".to_string(), content: vec![0xff, 0xfe] },
    ];
    assert_eq!(
        render_tree(files),
        "--- START FILE: a.txt ---\nhello\n--- END FILE: a.txt ---\n\n--- START FILE: bin ---\n[Could not read object as text]\n--- END FILE: bin ---\n\n"
    );
}

#[test]
fn render_manifest_lists_paths_in_order() {
    let mut store = ObjectStore::new();
    let da = store.put(b"hello".to_vec());
    let db = store.put(b"world".to_vec());
    let mut m = Manifest::new();
    m.insert("b.txt".to_string(), db);
    m.insert("a.txt".to_string(), da);
    assert_eq!(
        render_manifest(&m, &store),
        "--- START FILE: a.txt ---\nhello\n--- END FILE: a.txt ---\n\n--- START FILE: b.txt ---\nworld\n--- END FILE: b.txt ---\n\n"
    );
}

#[test]
fn render_manifest_marks_missing_and_binary_objects() {
    let mut store = ObjectStore::new();
    let bin = store.put(vec![0xc3, 0x28]);
    let mut m = Manifest::new();
    m.insert("gone".to_string(), "0".repeat(64));
    m.insert("bin".to_string(), bin);
    assert_eq!(
        render_manifest(&m, &store),
        "--- START FILE: bin ---\n[Could not read object as text]\n--- END FILE: bin ---\n\n--- START FILE: gone ---\n[Could not read object as text]\n--- END FILE: gone ---\n\n"
    );
}

#[test]
fn manifest_entries_ascend_by_path() {
    let mut m = Manifest::new();
    for p in ["z", "a/b", "a", "ab", "B", "a/b"] {
        m.insert(p.to_string(), "d".to_string());
    }
    let paths: Vec<String> = m.entries().iter().map(|e| e.path.clone()).collect();
    assert_eq!(paths, strings(&["B", "a", "a/b", "ab", "z"]));
    let back = Manifest::from_bytes(&m.to_bytes()).unwrap();
    let back_paths: Vec<String> = back.entries().iter().map(|e| e.path.clone()).collect();
    assert_eq!(back_paths, paths);
}

#[test]
fn text_helpers_compare_paths() {
    assert!(path_less("a", "b"));
    assert!(path_less("a", "a/b"));
    assert!(!path_less("a", "a"));
    assert!(!path_less("b", "a"));
    assert!(starts_with("a/b/c", "a/b"));
    assert!(!starts_with("a", "a/b"));
    assert!(starts_with("x", ""));
}

#[test]
fn error_messages_differ() {
    let all = [StoreError::NotFound, StoreError::Corrupt, StoreError::IoError, StoreError::InvalidPattern];
    for (i, a) in all.iter().enumerate() {
        for b in all.iter().skip(i + 1) {
            assert_ne!(a.message(), b.message());
        }
    }
}

#[test]
fn exclude_patterns_match_at_any_depth() {
    let m = ExcludeMatcher::new(&strings(&["*.log", "target"])).unwrap();
    assert!(m.is_excluded("./a/b/run.log"));
    assert!(m.is_excluded("run.log"));
    assert!(m.is_excluded("./target"));
    assert!(!m.is_excluded("./src/main.rs"));
    let none = ExcludeMatcher::new(&vec![]).unwrap();
    assert!(!none.is_excluded(""));
    assert!(!none.is_excluded("./anything"));
}

#[test]
fn malformed_pattern_is_invalid() {
    assert_eq!(ExcludeMatcher::new(&strings(&["a[b"])).err(), Some(StoreError::InvalidPattern));
}

#[test]
fn store_directory_is_recognised() {
    assert!(is_store_path(".devcat"));
    assert!(is_store_path(".devcat/objects/ab"));
    assert!(!is_store_path(".devcats"));
    assert!(!is_store_path("src/.devcat"));
    assert!(!is_store_path(""));
}

#[test]
fn output_signature_is_detected() {
    assert!(has_output_signature(b"--- START FILE: a.txt ---\n"));
    assert!(has_output_signature(b"--- START FILE: "));
    assert!(!has_output_signature(b"--- START FILE:"));
    assert!(!has_output_signature(b"fn main() {}"));
}

#[test]
fn walk_leaves_out_store_and_excluded_paths() {
    let m = ExcludeMatcher::new(&strings(&["*.tmp"])).unwrap();
    assert!(walk_admits(&m, "src/lib.rs", "./src/lib.rs"));
    assert!(!walk_admits(&m, ".devcat/history.json", "./.devcat/history.json"));
    assert!(!walk_admits(&m, "x/y.tmp", "./x/y.tmp"));
}
