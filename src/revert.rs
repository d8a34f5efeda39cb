use vstd::prelude::*;
use crate::capture::{
    lemma_manifest_of_tree, store_after_files, tree_files, tree_manifest, FileContent,
};
use crate::digest::sha256_hex;
use crate::store::stored_after_put;
use crate::error::StoreError;
use crate::history::{has_id, History, Snapshot};
use crate::manifest::{manifest_json, manifest_of_json, read_manifest, Manifest, PathMap};
use crate::store::ObjectStore;
use crate::text::starts_with;

verus! {

/// Path `p` lies inside directory `d`: it continues `d` with a separator.
pub open spec fn is_within(p: Seq<char>, d: Seq<char>) -> bool {
    &&& d.len() < p.len()
    &&& p.subrange(0, d.len() as int) == d
    &&& p[d.len() as int] == '/'
}

/// Directory `d` holds a path of the manifest, at any depth.
pub open spec fn holds_tracked(d: Seq<char>, m: PathMap) -> bool {
    exists|p: Seq<char>| m.contains_key(p) && #[trigger] is_within(p, d)
}

/// `writes` restores every entry of `target` with the content that `store`
/// holds under its digest, each path once.
pub open spec fn restores(
    writes: Seq<FileContent>,
    target: PathMap,
    store: Map<Seq<char>, Seq<u8>>,
) -> bool {
    &&& forall|i: int, j: int| 0 <= i < j < writes.len() ==> writes[i].path@ != writes[j].path@
    &&& forall|i: int|
        0 <= i < writes.len() ==> target.contains_key(#[trigger] writes[i].path@)
            && store.contains_key(target[writes[i].path@]) && writes[i].content@
            == store[target[writes[i].path@]]
    &&& forall|p: Seq<char>|
        target.contains_key(p) ==> exists|i: int|
            0 <= i < writes.len() && (#[trigger] writes[i].path@) == p
}

/// `out` holds the elements of `input` that satisfy `keep`, and nothing else.
pub open spec fn selects(
    out: Seq<String>,
    input: Seq<String>,
    keep: spec_fn(Seq<char>) -> bool,
) -> bool {
    &&& forall|i: int|
        0 <= i < out.len() ==> keep(#[trigger] out[i]@) && exists|j: int|
            0 <= j < input.len() && (#[trigger] input[j])@ == out[i]@
    &&& forall|j: int|
        0 <= j < input.len() && keep(#[trigger] input[j]@) ==> exists|i: int|
            0 <= i < out.len() && (#[trigger] out[i])@ == input[j]@
}

/// Deeper paths never come after shallower ones.
pub open spec fn deepest_first(v: Seq<String>) -> bool {
    forall|i: int, j: int| 0 <= i < j < v.len() ==> v[i]@.len() >= v[j]@.len()
}

/// The steps that bring a working tree to a manifest's state.
pub struct RevertPlan {
    /// Files to write, creating parent directories, overwriting what is there.
    pub writes: Vec<FileContent>,
    /// Files on disk that the manifest does not hold, to delete.
    pub remove_files: Vec<String>,
    /// Directories to try to remove, children before their parents; each
    /// removal is best effort and is skipped when the directory is not empty.
    pub remove_dirs: Vec<String>,
}

/// Whether path `p` lies inside directory `d`.
pub fn within(p: &String, d: &String) -> (r: bool)
    ensures
        r == is_within(p@, d@),
{
    let mut dir = d.clone();
    dir.append("/");
    proof {
        reveal_strlit("/");
        assert(dir@.len() == d@.len() + 1);
        assert(dir@[d@.len() as int] == '/');
        assert(dir@.subrange(0, d@.len() as int) =~= d@);
    }
    let r = starts_with(p.as_str(), dir.as_str());
    proof {
        if r {
            assert(p@.subrange(0, d@.len() as int) =~= dir@.subrange(0, d@.len() as int));
            assert(p@[d@.len() as int] == p@.subrange(0, dir@.len() as int)[d@.len() as int]);
        }
        if is_within(p@, d@) {
            assert(p@.subrange(0, dir@.len() as int) =~= dir@);
        }
    }
    r
}

/// Whether directory `d` holds a path of `target`.
pub fn dir_holds_tracked(target: &Manifest, d: &String) -> (r: bool)
    requires
        target.wf(),
    ensures
        r == holds_tracked(d@, target@),
{
    let es = target.entries();
    let mut i: usize = 0;
    while i < es.len()
        invariant
            crate::manifest::entries_match(es@, target@),
            0 <= i <= es@.len(),
            forall|j: int| 0 <= j < i ==> !is_within((#[trigger] es@[j]).path@, d@),
        decreases es@.len() - i,
    {
        if within(&es[i].path, d) {
            return true;
        }
        i += 1;
    }
    proof {
        assert forall|p: Seq<char>| target@.contains_key(p) implies !#[trigger] is_within(p, d@) by {
            let j = choose|j: int| 0 <= j < es@.len() && (#[trigger] es@[j].path@) == p;
        }
    }
    false
}

/// The files to write so that every entry of `target` has its stored content;
/// `NotFound` when the store lacks a digest that the manifest names.
pub fn restore_writes(target: &Manifest, store: &ObjectStore) -> (r: Result<
    Vec<FileContent>,
    StoreError,
>)
    requires
        target.wf(),
        store.wf(),
    ensures
        r is Ok <==> forall|p: Seq<char>| #[trigger]
            target@.contains_key(p) ==> store@.contains_key(target@[p]),
        r is Ok ==> restores(r->Ok_0@, target@, store@),
        r is Err ==> r->Err_0 == StoreError::NotFound,
{
    let es = target.entries();
    let mut writes: Vec<FileContent> = Vec::new();
    let mut i: usize = 0;
    while i < es.len()
        invariant
            crate::manifest::entries_match(es@, target@),
            store.wf(),
            0 <= i <= es@.len(),
            writes@.len() == i,
            forall|j: int|
                0 <= j < i ==> (#[trigger] writes@[j]).path@ == es@[j].path@
                    && store@.contains_key(es@[j].digest@) && writes@[j].content@
                    == store@[es@[j].digest@],
        decreases es@.len() - i,
    {
        match store.get(&es[i].digest) {
            Ok(content) => {
                let c = content.clone();
                assert(c@ =~= content@);
                let ghost before = writes@;
                writes.push(FileContent { path: es[i].path.clone(), content: c });
                proof {
                    assert(writes@[i as int].content@ == store@[es@[i as int].digest@]);
                    assert forall|j: int| 0 <= j < i implies writes@[j] == before[j] by {}
                }
            },
            Err(e) => {
                assert(target@.contains_key(es@[i as int].path@));
                return Err(e);
            },
        }
        i += 1;
    }
    proof {
        assert forall|a: int, b: int| 0 <= a < b < writes@.len() implies writes@[a].path@
            != writes@[b].path@ by {
            assert(writes@[a].path@ == es@[a].path@);
        }
        assert forall|p: Seq<char>| target@.contains_key(p) implies exists|k: int|
            0 <= k < writes@.len() && (#[trigger] writes@[k].path@) == p by {
            let j = choose|j: int| 0 <= j < es@.len() && (#[trigger] es@[j].path@) == p;
            assert(writes@[j].path@ == p);
        }
        assert forall|p: Seq<char>| #[trigger]
            target@.contains_key(p) implies store@.contains_key(target@[p]) by {
            let j = choose|j: int| 0 <= j < es@.len() && (#[trigger] es@[j].path@) == p;
            assert(writes@[j].path@ == p);
        }
    }
    Ok(writes)
}

/// The files on disk that `target` does not hold.
pub fn files_to_remove(target: &Manifest, disk_files: &Vec<String>) -> (r: Vec<String>)
    requires
        target.wf(),
    ensures
        selects(r@, disk_files@, |p: Seq<char>| !target@.contains_key(p)),
{
    let ghost keep = |p: Seq<char>| !target@.contains_key(p);
    let mut out: Vec<String> = Vec::new();
    let mut i: usize = 0;
    while i < disk_files.len()
        invariant
            target.wf(),
            0 <= i <= disk_files@.len(),
            keep == (|p: Seq<char>| !target@.contains_key(p)),
            forall|t: int|
                0 <= t < out@.len() ==> keep(#[trigger] out@[t]@) && exists|j: int|
                    0 <= j < i && (#[trigger] disk_files@[j])@ == out@[t]@,
            forall|j: int|
                0 <= j < i && keep(#[trigger] disk_files@[j]@) ==> exists|t: int|
                    0 <= t < out@.len() && (#[trigger] out@[t])@ == disk_files@[j]@,
        decreases disk_files@.len() - i,
    {
        if !target.contains_path(&disk_files[i]) {
            let ghost before = out@;
            out.push(disk_files[i].clone());
            proof {
                assert(out@[before.len() as int]@ == disk_files@[i as int]@);
                assert forall|t: int| 0 <= t < out@.len() implies keep(#[trigger] out@[t]@)
                    && exists|j: int| 0 <= j < i + 1 && (#[trigger] disk_files@[j])@ == out@[t]@ by {
                    if t < before.len() {
                        assert(out@[t] == before[t]);
                    }
                }
                assert forall|j: int| 0 <= j < i + 1 && keep(#[trigger] disk_files@[j]@) implies exists|t: int|
                    0 <= t < out@.len() && (#[trigger] out@[t])@ == disk_files@[j]@ by {
                    if j < i {
                        let t = choose|t: int| 0 <= t < before.len() && (#[trigger] before[t])@ == disk_files@[j]@;
                        assert(out@[t] == before[t]);
                    }
                }
            }
        }
        i += 1;
    }
    out
}

/// Inserts `d` into a deepest-first list, keeping it deepest first.
fn insert_by_depth(out: &mut Vec<String>, d: String)
    requires
        deepest_first(old(out)@),
    ensures
        deepest_first(final(out)@),
        forall|t: int|
            0 <= t < final(out)@.len() ==> (#[trigger] final(out)@[t])@ == d@ || exists|s: int|
                0 <= s < old(out)@.len() && (#[trigger] old(out)@[s])@ == final(out)@[t]@,
        forall|s: int|
            0 <= s < old(out)@.len() ==> exists|t: int|
                0 <= t < final(out)@.len() && (#[trigger] final(out)@[t])@ == (#[trigger] old(out)@[s])@,
        exists|t: int| 0 <= t < final(out)@.len() && (#[trigger] final(out)@[t])@ == d@,
{
    let len = d.as_str().unicode_len();
    let mut pos: usize = 0;
    while pos < out.len() && out[pos].as_str().unicode_len() >= len
        invariant
            0 <= pos <= out@.len(),
            len == d@.len(),
            forall|t: int| 0 <= t < pos ==> (#[trigger] out@[t])@.len() >= len,
        decreases out@.len() - pos,
    {
        pos += 1;
    }
    let ghost before = out@;
    let ghost dv = d;
    out.insert(pos, d);
    proof {
        lemma_insert_keeps_order(before, pos as int, dv);
        lemma_insert_members(before, pos as int, dv);
    }
}

proof fn lemma_insert_keeps_order(before: Seq<String>, pos: int, x: String)
    requires
        deepest_first(before),
        0 <= pos <= before.len(),
        forall|t: int| 0 <= t < pos ==> (#[trigger] before[t])@.len() >= x@.len(),
        pos < before.len() ==> before[pos]@.len() < x@.len(),
    ensures
        deepest_first(before.insert(pos, x)),
{
    before.insert_ensures(pos, x);
    let w = before.insert(pos, x);
    assert forall|a: int, b: int| 0 <= a < b < w.len() implies w[a]@.len() >= w[b]@.len() by {
        if b <= pos {
            assert(w[a] == before[a]);
        } else if a < pos {
            assert(w[a] == before[a] && w[b] == before[b - 1]);
        } else if a == pos {
            assert(w[b] == before[b - 1]);
            assert(before[pos]@.len() >= before[b - 1]@.len());
        } else {
            assert(w[a] == before[a - 1] && w[b] == before[b - 1]);
        }
    }
}

proof fn lemma_insert_members(before: Seq<String>, pos: int, x: String)
    requires
        0 <= pos <= before.len(),
    ensures
        forall|t: int|
            0 <= t < before.insert(pos, x).len() ==> (#[trigger] before.insert(pos, x)[t])@ == x@
                || exists|s: int| 0 <= s < before.len() && (#[trigger] before[s])@ == before.insert(pos, x)[t]@,
        forall|s: int|
            0 <= s < before.len() ==> exists|t: int|
                0 <= t < before.insert(pos, x).len() && (#[trigger] before.insert(pos, x)[t])@ == (
                #[trigger] before[s])@,
        exists|t: int|
            0 <= t < before.insert(pos, x).len() && (#[trigger] before.insert(pos, x)[t])@ == x@,
{
    before.insert_ensures(pos, x);
    let w = before.insert(pos, x);
    assert forall|t: int| 0 <= t < w.len() implies (#[trigger] w[t])@ == x@ || exists|s: int|
        0 <= s < before.len() && (#[trigger] before[s])@ == w[t]@ by {
        if t < pos {
            assert(w[t] == before[t]);
        } else if t > pos {
            assert(w[t] == before[t - 1]);
        }
    }
    assert forall|s: int| 0 <= s < before.len() implies exists|t: int|
        0 <= t < w.len() && (#[trigger] w[t])@ == (#[trigger] before[s])@ by {
        if s < pos {
            assert(w[s] == before[s]);
        } else {
            assert(w[s + 1] == before[s]);
        }
    }
    assert(w[pos]@ == x@);
}

/// The directories on disk that hold no path of `target`, deepest first.
pub fn dirs_to_remove(target: &Manifest, disk_dirs: &Vec<String>) -> (r: Vec<String>)
    requires
        target.wf(),
    ensures
        selects(r@, disk_dirs@, |d: Seq<char>| !holds_tracked(d, target@)),
        deepest_first(r@),
{
    let ghost keep = |d: Seq<char>| !holds_tracked(d, target@);
    let mut out: Vec<String> = Vec::new();
    let mut i: usize = 0;
    while i < disk_dirs.len()
        invariant
            target.wf(),
            0 <= i <= disk_dirs@.len(),
            keep == (|d: Seq<char>| !holds_tracked(d, target@)),
            deepest_first(out@),
            forall|t: int|
                0 <= t < out@.len() ==> keep(#[trigger] out@[t]@) && exists|j: int|
                    0 <= j < i && (#[trigger] disk_dirs@[j])@ == out@[t]@,
            forall|j: int|
                0 <= j < i && keep(#[trigger] disk_dirs@[j]@) ==> exists|t: int|
                    0 <= t < out@.len() && (#[trigger] out@[t])@ == disk_dirs@[j]@,
        decreases disk_dirs@.len() - i,
    {
        let d = &disk_dirs[i];
        if !dir_holds_tracked(target, d) {
            let ghost before = out@;
            insert_by_depth(&mut out, d.clone());
            proof {
                assert forall|t: int| 0 <= t < out@.len() implies keep(#[trigger] out@[t]@)
                    && exists|j: int| 0 <= j < i + 1 && (#[trigger] disk_dirs@[j])@ == out@[t]@ by {
                    if out@[t]@ != d@ {
                        let s = choose|s: int| 0 <= s < before.len() && (#[trigger] before[s])@ == out@[t]@;
                    } else {
                        assert(disk_dirs@[i as int]@ == out@[t]@);
                    }
                }
                assert forall|j: int| 0 <= j < i + 1 && keep(#[trigger] disk_dirs@[j]@) implies exists|t: int|
                    0 <= t < out@.len() && (#[trigger] out@[t])@ == disk_dirs@[j]@ by {
                    if j < i {
                        let s = choose|s: int| 0 <= s < before.len() && (#[trigger] before[s])@ == disk_dirs@[j]@;
                        let t = choose|t: int| 0 <= t < out@.len() && (#[trigger] out@[t])@ == before[s]@;
                    }
                }
            }
        }
        i += 1;
    }
    out
}

/// The plan that brings a working tree with the given files and directories
/// to `target`: write every entry, delete the files `target` does not hold,
/// then try the directories that hold none of its paths, deepest first.
/// `NotFound` when the store lacks a digest that the manifest names.
pub fn plan_revert(
    target: &Manifest,
    store: &ObjectStore,
    disk_files: &Vec<String>,
    disk_dirs: &Vec<String>,
) -> (r: Result<RevertPlan, StoreError>)
    requires
        target.wf(),
        store.wf(),
    ensures
        r is Ok <==> forall|p: Seq<char>| #[trigger]
            target@.contains_key(p) ==> store@.contains_key(target@[p]),
        r is Ok ==> restores(r->Ok_0.writes@, target@, store@),
        r is Ok ==> selects(r->Ok_0.remove_files@, disk_files@, |p: Seq<char>| !target@.contains_key(p)),
        r is Ok ==> selects(r->Ok_0.remove_dirs@, disk_dirs@, |d: Seq<char>| !holds_tracked(d, target@)),
        r is Ok ==> deepest_first(r->Ok_0.remove_dirs@),
        r is Err ==> r->Err_0 == StoreError::NotFound,
{
    let writes = match restore_writes(target, store) {
        Ok(w) => w,
        Err(e) => return Err(e),
    };
    let remove_files = files_to_remove(target, disk_files);
    let remove_dirs = dirs_to_remove(target, disk_dirs);
    Ok(RevertPlan { writes, remove_files, remove_dirs })
}

/// In a deepest-first list a directory comes before every directory that
/// contains it, so children are removed before their parents.
pub proof fn lemma_children_before_parents(v: Seq<String>)
    requires
        deepest_first(v),
    ensures
        forall|i: int, j: int|
            0 <= i < v.len() && 0 <= j < v.len() && #[trigger] is_within(v[i]@, v[j]@) ==> i < j,
{
    assert forall|i: int, j: int|
        0 <= i < v.len() && 0 <= j < v.len() && #[trigger] is_within(v[i]@, v[j]@) implies i < j by {
        if j <= i {
            if j < i {
                assert(v[j]@.len() >= v[i]@.len());
            }
        }
    }
}

/// Revert the working tree to the snapshot with this id.
pub struct RevertArgs {
    pub id: u32,
}

/// The manifest digest of the snapshot with `id`.
pub open spec fn manifest_digest_of(snaps: Seq<Snapshot>, id: u32) -> Seq<char> {
    snaps[choose|i: int| 0 <= i < snaps.len() && (#[trigger] snaps[i]).id == id].manifest_digest@
}

/// `plan` brings a tree with `disk_files` and `disk_dirs` to `target`.
pub open spec fn plans(
    plan: RevertPlan,
    target: PathMap,
    store: Map<Seq<char>, Seq<u8>>,
    disk_files: Seq<String>,
    disk_dirs: Seq<String>,
) -> bool {
    &&& restores(plan.writes@, target, store)
    &&& selects(plan.remove_files@, disk_files, |p: Seq<char>| !target.contains_key(p))
    &&& selects(plan.remove_dirs@, disk_dirs, |d: Seq<char>| !holds_tracked(d, target))
    &&& deepest_first(plan.remove_dirs@)
}

/// Plans the revert of a working tree to the snapshot `args.id`.
/// `NotFound` when no snapshot has that id, when the store lacks its
/// manifest or an object that the manifest lists; `Corrupt` when the
/// manifest does not parse.
pub fn run(
    args: &RevertArgs,
    history: &History,
    store: &ObjectStore,
    disk_files: &Vec<String>,
    disk_dirs: &Vec<String>,
) -> (r: Result<RevertPlan, StoreError>)
    requires
        history.wf(),
        store.wf(),
    ensures
        !has_id(history@, args.id) ==> r == Err::<RevertPlan, StoreError>(StoreError::NotFound),
        has_id(history@, args.id) && !store@.contains_key(manifest_digest_of(history@, args.id))
            ==> r == Err::<RevertPlan, StoreError>(StoreError::NotFound),
        has_id(history@, args.id) && store@.contains_key(manifest_digest_of(history@, args.id))
            && manifest_of_json(store@[manifest_digest_of(history@, args.id)]) is None ==> r
            == Err::<RevertPlan, StoreError>(StoreError::Corrupt),
        has_id(history@, args.id) && store@.contains_key(manifest_digest_of(history@, args.id))
            && manifest_of_json(store@[manifest_digest_of(history@, args.id)]) is Some ==> ({
            let t = manifest_of_json(store@[manifest_digest_of(history@, args.id)])->0;
            &&& r is Ok <==> forall|p: Seq<char>| #[trigger]
                t.contains_key(p) ==> store@.contains_key(t[p])
            &&& r is Ok ==> plans(r->Ok_0, t, store@, disk_files@, disk_dirs@)
            &&& r is Err ==> r->Err_0 == StoreError::NotFound
        }),
{
    let snapshot = match history.get_snapshot(args.id) {
        Ok(s) => s,
        Err(e) => return Err(e),
    };
    proof {
        let i = choose|i: int| 0 <= i < history@.len() && (#[trigger] history@[i]).id == args.id;
        let j = choose|j: int|
            0 <= j < history@.len() && history@[j] == *snapshot && (#[trigger] history@[j]).id
                == args.id;
        history.lemma_ids_increasing();
        if i < j {
            assert(history@[i].id < history@[j].id);
        } else if j < i {
            assert(history@[j].id < history@[i].id);
        }
        assert(snapshot.manifest_digest@ == manifest_digest_of(history@, args.id));
    }
    let target = match read_manifest(store, &snapshot.manifest_digest) {
        Ok(m) => m,
        Err(e) => return Err(e),
    };
    plan_revert(&target, store, disk_files, disk_dirs)
}

/// Every path of a list of files with distinct paths maps to its own content.
proof fn lemma_tree_files_distinct(w: Seq<FileContent>)
    requires
        forall|i: int, j: int| 0 <= i < j < w.len() ==> w[i].path@ != w[j].path@,
    ensures
        forall|p: Seq<char>|
            tree_files(w).contains_key(p) ==> exists|i: int|
                0 <= i < w.len() && (#[trigger] w[i].path@) == p,
        forall|i: int|
            0 <= i < w.len() ==> tree_files(w).contains_key(#[trigger] w[i].path@) && tree_files(
                w,
            )[w[i].path@] == w[i].content@,
    decreases w.len(),
{
    if w.len() > 0 {
        let t = w.drop_last();
        assert forall|i: int, j: int| 0 <= i < j < t.len() implies t[i].path@ != t[j].path@ by {
            assert(t[i] == w[i] && t[j] == w[j]);
        }
        lemma_tree_files_distinct(t);
        assert forall|p: Seq<char>| tree_files(w).contains_key(p) implies exists|i: int|
            0 <= i < w.len() && (#[trigger] w[i].path@) == p by {
            if p != w.last().path@ {
                assert(tree_files(t).contains_key(p));
                let i = choose|i: int| 0 <= i < t.len() && (#[trigger] t[i].path@) == p;
                assert(w[i] == t[i]);
            } else {
                assert(w[w.len() - 1].path@ == p);
            }
        }
        assert forall|i: int| 0 <= i < w.len() implies tree_files(w).contains_key(
            #[trigger] w[i].path@,
        ) && tree_files(w)[w[i].path@] == w[i].content@ by {
            if i < w.len() - 1 {
                assert(w[i] == t[i]);
                assert(w[i].path@ != w[w.len() - 1].path@);
            }
        }
    }
}

/// Every content in the tree of a list of files is the content of one of them.
proof fn lemma_tree_files_values(files: Seq<FileContent>)
    ensures
        forall|p: Seq<char>|
            tree_files(files).contains_key(p) ==> exists|j: int|
                0 <= j < files.len() && tree_files(files)[p] == (#[trigger] files[j]).content@,
    decreases files.len(),
{
    if files.len() > 0 {
        let t = files.drop_last();
        lemma_tree_files_values(t);
        assert forall|p: Seq<char>| tree_files(files).contains_key(p) implies exists|j: int|
            0 <= j < files.len() && tree_files(files)[p] == (#[trigger] files[j]).content@ by {
            if p == files.last().path@ {
                assert(tree_files(files)[p] == files[files.len() - 1].content@);
            } else {
                let j = choose|j: int|
                    0 <= j < t.len() && tree_files(t)[p] == (#[trigger] t[j]).content@;
                assert(files[j] == t[j]);
            }
        }
    }
}

/// Storing the files keeps what the store held and adds each file's content
/// under its digest.
proof fn lemma_store_after_files(start: Map<Seq<char>, Seq<u8>>, files: Seq<FileContent>)
    ensures
        forall|k: Seq<char>|
            #[trigger] store_after_files(start, files).contains_key(k) ==> (start.contains_key(k)
                && store_after_files(start, files)[k] == start[k]) || exists|j: int|
                0 <= j < files.len() && k == sha256_hex((#[trigger] files[j]).content@)
                    && store_after_files(start, files)[k] == files[j].content@,
        forall|k: Seq<char>| start.contains_key(k) ==> #[trigger] store_after_files(start, files).contains_key(k),
        forall|j: int|
            0 <= j < files.len() ==> store_after_files(start, files).contains_key(
                sha256_hex((#[trigger] files[j]).content@),
            ),
    decreases files.len(),
{
    if files.len() > 0 {
        let t = files.drop_last();
        lemma_store_after_files(start, t);
        let prev = store_after_files(start, t);
        let cur = store_after_files(start, files);
        assert forall|k: Seq<char>| #[trigger] cur.contains_key(k) implies (start.contains_key(k)
            && cur[k] == start[k]) || exists|j: int|
            0 <= j < files.len() && k == sha256_hex((#[trigger] files[j]).content@) && cur[k]
                == files[j].content@ by {
            if prev.contains_key(k) {
                assert(cur[k] == prev[k]);
                if !(start.contains_key(k) && prev[k] == start[k]) {
                    let j = choose|j: int|
                        0 <= j < t.len() && k == sha256_hex((#[trigger] t[j]).content@) && prev[k]
                            == t[j].content@;
                    assert(files[j] == t[j]);
                }
            } else {
                assert(files[files.len() - 1].content@ == files.last().content@);
            }
        }
        assert forall|j: int| 0 <= j < files.len() implies cur.contains_key(
            sha256_hex((#[trigger] files[j]).content@),
        ) by {
            if j < t.len() {
                assert(files[j] == t[j]);
            }
        }
    }
}

/// Reverting an empty tree to a capture reproduces the captured tree: the
/// restore writes of the captured manifest, read from the store as the
/// capture left it, hold exactly the captured paths with their contents.
/// This holds when no two different contents involved share a digest.
pub proof fn lemma_capture_round_trip(
    start: Map<Seq<char>, Seq<u8>>,
    files: Seq<FileContent>,
    manifest_bytes: Seq<u8>,
    writes: Seq<FileContent>,
)
    requires
        forall|i: int|
            0 <= i < files.len() && start.contains_key(sha256_hex((#[trigger] files[i]).content@))
                ==> start[sha256_hex(files[i].content@)] == files[i].content@,
        forall|i: int, j: int|
            0 <= i < files.len() && 0 <= j < files.len() && sha256_hex(
                (#[trigger] files[i]).content@,
            ) == sha256_hex((#[trigger] files[j]).content@) ==> files[i].content@
                == files[j].content@,
        restores(
            writes,
            tree_manifest(files),
            stored_after_put(store_after_files(start, files), manifest_bytes),
        ),
    ensures
        tree_files(writes) == tree_files(files),
{
    let tf = tree_files(files);
    let tm = tree_manifest(files);
    let s = store_after_files(start, files);
    let s2 = stored_after_put(s, manifest_bytes);
    lemma_manifest_of_tree(files);
    lemma_tree_files_values(files);
    lemma_store_after_files(start, files);
    lemma_tree_files_distinct(writes);
    assert forall|j: int| 0 <= j < files.len() implies s[sha256_hex(
        (#[trigger] files[j]).content@,
    )] == files[j].content@ by {
        let k = sha256_hex(files[j].content@);
        assert(s.contains_key(k));
        if !(start.contains_key(k) && s[k] == start[k]) {
            let m = choose|m: int|
                0 <= m < files.len() && k == sha256_hex((#[trigger] files[m]).content@) && s[k]
                    == files[m].content@;
        }
    }
    assert forall|p: Seq<char>| tf.contains_key(p) implies s2[tm[p]] == tf[p] by {
        let j = choose|j: int| 0 <= j < files.len() && tf[p] == (#[trigger] files[j]).content@;
        assert(tm[p] == sha256_hex(tf[p]));
        assert(s.contains_key(tm[p]));
    }
    let tw = tree_files(writes);
    assert forall|p: Seq<char>| tw.contains_key(p) <==> tf.contains_key(p) by {
        if tw.contains_key(p) {
            let i = choose|i: int| 0 <= i < writes.len() && (#[trigger] writes[i].path@) == p;
        }
        if tf.contains_key(p) {
            assert(tm.contains_key(p));
            let i = choose|i: int| 0 <= i < writes.len() && (#[trigger] writes[i].path@) == p;
        }
    }
    assert forall|p: Seq<char>| tw.contains_key(p) implies tw[p] == tf[p] by {
        let i = choose|i: int| 0 <= i < writes.len() && (#[trigger] writes[i].path@) == p;
        assert(tw[p] == writes[i].content@);
    }
    assert(tw =~= tf);
}

/// Reverting deletes every file on disk that the target does not hold and
/// writes every path of the target with its stored content.
pub proof fn lemma_revert_cleanup(
    plan: RevertPlan,
    target: PathMap,
    store: Map<Seq<char>, Seq<u8>>,
    disk_files: Seq<String>,
    disk_dirs: Seq<String>,
    extra: int,
    p: Seq<char>,
)
    requires
        plans(plan, target, store, disk_files, disk_dirs),
        0 <= extra < disk_files.len(),
        !target.contains_key(disk_files[extra]@),
        target.contains_key(p),
    ensures
        exists|t: int| 0 <= t < plan.remove_files@.len() && (#[trigger] plan.remove_files@[t])@ == disk_files[extra]@,
        forall|t: int| 0 <= t < plan.remove_files@.len() ==> !target.contains_key(#[trigger] plan.remove_files@[t]@),
        exists|i: int|
            0 <= i < plan.writes@.len() && (#[trigger] plan.writes@[i]).path@ == p
                && plan.writes@[i].content@ == store[target[p]],
{
    let keep = |q: Seq<char>| !target.contains_key(q);
    assert(keep(disk_files[extra]@));
    let i = choose|i: int| 0 <= i < plan.writes@.len() && (#[trigger] plan.writes@[i].path@) == p;
    assert(plan.writes@[i].path@ == p);
}

/// Directory pruning removes children before their parents and never lists
/// a directory that still holds a path of the target.
pub proof fn lemma_directory_pruning(
    plan: RevertPlan,
    target: PathMap,
    store: Map<Seq<char>, Seq<u8>>,
    disk_files: Seq<String>,
    disk_dirs: Seq<String>,
)
    requires
        plans(plan, target, store, disk_files, disk_dirs),
    ensures
        forall|i: int, j: int|
            0 <= i < plan.remove_dirs@.len() && 0 <= j < plan.remove_dirs@.len() && #[trigger] is_within(
                plan.remove_dirs@[i]@,
                plan.remove_dirs@[j]@,
            ) ==> i < j,
        forall|t: int, q: Seq<char>|
            0 <= t < plan.remove_dirs@.len() && target.contains_key(q) ==> !#[trigger] is_within(
                q,
                plan.remove_dirs@[t]@,
            ),
{
    lemma_children_before_parents(plan.remove_dirs@);
    assert forall|t: int, q: Seq<char>|
        0 <= t < plan.remove_dirs@.len() && target.contains_key(q) implies !#[trigger] is_within(
        q,
        plan.remove_dirs@[t]@,
    ) by {
        assert(!holds_tracked(plan.remove_dirs@[t]@, target));
    }
}

/// After a capture, the store holds the captured manifest under the
/// snapshot's digest and every object it lists, so reverting to the snapshot
/// succeeds with the captured manifest as its target, and its restore writes
/// hold exactly the captured tree. This holds when no two different contents
/// involved, the serialized manifest among them, share a digest.
pub proof fn lemma_revert_after_capture(
    start: Map<Seq<char>, Seq<u8>>,
    files: Seq<FileContent>,
    writes: Seq<FileContent>,
)
    requires
        forall|i: int|
            0 <= i < files.len() && start.contains_key(sha256_hex((#[trigger] files[i]).content@))
                ==> start[sha256_hex(files[i].content@)] == files[i].content@,
        forall|i: int, j: int|
            0 <= i < files.len() && 0 <= j < files.len() && sha256_hex(
                (#[trigger] files[i]).content@,
            ) == sha256_hex((#[trigger] files[j]).content@) ==> files[i].content@
                == files[j].content@,
        start.contains_key(sha256_hex(manifest_json(tree_manifest(files)))) ==> start[sha256_hex(
            manifest_json(tree_manifest(files)),
        )] == manifest_json(tree_manifest(files)),
        forall|i: int|
            0 <= i < files.len() && sha256_hex((#[trigger] files[i]).content@) == sha256_hex(
                manifest_json(tree_manifest(files)),
            ) ==> files[i].content@ == manifest_json(tree_manifest(files)),
        manifest_of_json(manifest_json(tree_manifest(files))) == Some(tree_manifest(files)),
    ensures
        ({
            let json = manifest_json(tree_manifest(files));
            let fin = stored_after_put(store_after_files(start, files), json);
            &&& fin.contains_key(sha256_hex(json))
            &&& manifest_of_json(fin[sha256_hex(json)]) == Some(tree_manifest(files))
            &&& forall|p: Seq<char>| #[trigger]
                tree_manifest(files).contains_key(p) ==> fin.contains_key(tree_manifest(files)[p])
            &&& restores(writes, tree_manifest(files), fin) ==> tree_files(writes) == tree_files(
                files,
            )
        }),
{
    let json = manifest_json(tree_manifest(files));
    let h = sha256_hex(json);
    let s = store_after_files(start, files);
    let fin = stored_after_put(s, json);
    lemma_store_after_files(start, files);
    lemma_manifest_of_tree(files);
    lemma_tree_files_values(files);
    if s.contains_key(h) {
        if !(start.contains_key(h) && s[h] == start[h]) {
            let m = choose|m: int|
                0 <= m < files.len() && h == sha256_hex((#[trigger] files[m]).content@) && s[h]
                    == files[m].content@;
        }
    }
    assert forall|p: Seq<char>| #[trigger]
        tree_manifest(files).contains_key(p) implies fin.contains_key(tree_manifest(files)[p]) by {
        let j = choose|j: int|
            0 <= j < files.len() && tree_files(files)[p] == (#[trigger] files[j]).content@;
        assert(s.contains_key(sha256_hex(files[j].content@)));
    }
    if restores(writes, tree_manifest(files), fin) {
        lemma_capture_round_trip(start, files, json, writes);
    }
}

} // verus!
