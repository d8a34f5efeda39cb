use vstd::prelude::*;
use crate::digest::{digest_bytes, sha256_hex};
use crate::history::{History, Snapshot, next_id, MAX_ID};
use crate::manifest::{manifest_json, manifest_of_json, Manifest, PathMap};
use crate::store::{ObjectStore, stored_after_put};

verus! {

/// A file of the working tree: its normalized relative path and its bytes.
pub struct FileContent {
    pub path: String,
    pub content: Vec<u8>,
}

/// The tree that a list of files describes: path to content, a later file
/// replacing an earlier one with the same path.
pub open spec fn tree_files(files: Seq<FileContent>) -> Map<Seq<char>, Seq<u8>>
    decreases files.len(),
{
    if files.len() == 0 {
        Map::empty()
    } else {
        tree_files(files.drop_last()).insert(files.last().path@, files.last().content@)
    }
}

/// The manifest of a list of files: path to the digest of its content, a
/// later file replacing an earlier one with the same path.
pub open spec fn tree_manifest(files: Seq<FileContent>) -> PathMap
    decreases files.len(),
{
    if files.len() == 0 {
        Map::empty()
    } else {
        tree_manifest(files.drop_last()).insert(
            files.last().path@,
            sha256_hex(files.last().content@),
        )
    }
}

/// The store after putting the content of each file in turn.
pub open spec fn store_after_files(m: Map<Seq<char>, Seq<u8>>, files: Seq<FileContent>) -> Map<
    Seq<char>,
    Seq<u8>,
>
    decreases files.len(),
{
    if files.len() == 0 {
        m
    } else {
        stored_after_put(store_after_files(m, files.drop_last()), files.last().content@)
    }
}

/// A manifest depends on the tree alone: it maps each path of the tree to the
/// digest of that path's content.
pub proof fn lemma_manifest_of_tree(files: Seq<FileContent>)
    ensures
        tree_manifest(files) == tree_files(files).map_values(|c: Seq<u8>| sha256_hex(c)),
    decreases files.len(),
{
    if files.len() > 0 {
        lemma_manifest_of_tree(files.drop_last());
        assert(tree_manifest(files) =~= tree_files(files).map_values(|c: Seq<u8>| sha256_hex(c)));
    } else {
        assert(tree_manifest(files) =~= tree_files(files).map_values(|c: Seq<u8>| sha256_hex(c)));
    }
}

/// Two walks of trees with the same paths and contents, in whatever order
/// they listed the files, give byte-identical serialized manifests and
/// therefore the same manifest digest.
pub proof fn lemma_manifest_determinism(f1: Seq<FileContent>, f2: Seq<FileContent>)
    requires
        tree_files(f1) == tree_files(f2),
    ensures
        tree_manifest(f1) == tree_manifest(f2),
        manifest_json(tree_manifest(f1)) == manifest_json(tree_manifest(f2)),
        sha256_hex(manifest_json(tree_manifest(f1))) == sha256_hex(
            manifest_json(tree_manifest(f2)),
        ),
{
    lemma_manifest_of_tree(f1);
    lemma_manifest_of_tree(f2);
}

/// Puts the content of every file into the store and returns the manifest
/// that maps each path to its content's digest.
pub fn build_manifest(store: &mut ObjectStore, files: Vec<FileContent>) -> (r: Manifest)
    requires
        old(store).wf(),
    ensures
        final(store).wf(),
        r.wf(),
        r@ == tree_manifest(files@),
        final(store)@ == store_after_files(old(store)@, files@),
{
    let ghost start = store@;
    let ghost all = files@;
    let mut manifest = Manifest::new();
    let mut files = files;
    let mut rest: Vec<FileContent> = Vec::new();
    // Reverse the list so that popping yields the files in their order.
    while files.len() > 0
        invariant
            rest@ + files@.reverse() == all.reverse(),
        decreases files@.len(),
    {
        let ghost before = files@;
        let f = files.pop().unwrap();
        proof {
            assert(before == files@.push(f));
            assert(before.reverse() =~= seq![f] + files@.reverse());
        }
        rest.push(f);
        proof {
            assert(rest@ + files@.reverse() =~= all.reverse());
        }
    }
    let ghost done_n: int = 0;
    while rest.len() > 0
        invariant
            store.wf(),
            manifest.wf(),
            0 <= done_n <= all.len(),
            rest@.len() == all.len() - done_n,
            forall|j: int| 0 <= j < rest@.len() ==> rest@[j] == all[all.len() - 1 - j],
            manifest@ == tree_manifest(all.take(done_n)),
            store@ == store_after_files(start, all.take(done_n)),
        decreases rest@.len(),
    {
        let f = rest.pop().unwrap();
        proof {
            assert(f == all[done_n]);
            assert(all.take(done_n + 1).drop_last() =~= all.take(done_n));
        }
        let FileContent { path, content } = f;
        let d = store.put(content);
        manifest.insert(path, d);
        proof {
            done_n = done_n + 1;
        }
    }
    proof {
        assert(all.take(done_n) =~= all);
    }
    manifest
}

/// Captures a tree: stores each file's content and the serialized manifest,
/// and appends a snapshot that records the manifest's digest.
pub fn capture(
    store: &mut ObjectStore,
    history: &mut History,
    files: Vec<FileContent>,
    created_at: u64,
) -> (r: Snapshot)
    requires
        old(store).wf(),
        old(history).wf(),
        next_id(old(history)@) <= MAX_ID,
    ensures
        final(store).wf(),
        final(history).wf(),
        r.manifest_digest@ == sha256_hex(manifest_json(tree_manifest(files@))),
        manifest_of_json(manifest_json(tree_manifest(files@))) == Some(tree_manifest(files@)),
        final(store)@ == stored_after_put(
            store_after_files(old(store)@, files@),
            manifest_json(tree_manifest(files@)),
        ),
        r.id == next_id(old(history)@),
        r.created_at == created_at,
        final(history)@ == old(history)@.push(r),
{
    let manifest = build_manifest(store, files);
    let bytes = manifest.to_bytes();
    let digest = store.put(bytes);
    history.append(digest, created_at)
}

/// Projects a working tree into a manifest without storing anything: each
/// path mapped to the digest of its content, as a capture would record it.
pub fn project_manifest(files: &Vec<FileContent>) -> (r: Manifest)
    ensures
        r.wf(),
        r@ == tree_manifest(files@),
{
    let mut manifest = Manifest::new();
    let mut i: usize = 0;
    while i < files.len()
        invariant
            0 <= i <= files@.len(),
            manifest.wf(),
            manifest@ == tree_manifest(files@.take(i as int)),
        decreases files@.len() - i,
    {
        proof {
            assert(files@.take(i + 1).drop_last() =~= files@.take(i as int));
        }
        let d = digest_bytes(files[i].content.as_slice());
        manifest.insert(files[i].path.clone(), d);
        i += 1;
    }
    assert(files@.take(i as int) =~= files@);
    manifest
}

} // verus!
