use vstd::prelude::*;
use crate::manifest::{entries_match, Manifest, ManifestEntry, PathMap};

verus! {

/// The comparison of two manifests, path by path.
pub struct DiffResult {
    pub added: Vec<String>,
    pub removed: Vec<String>,
    pub modified: Vec<String>,
    pub unchanged: Vec<String>,
}

/// Paths present only in the second manifest.
pub open spec fn added_paths(a: PathMap, b: PathMap) -> Set<Seq<char>> {
    Set::new(|p: Seq<char>| b.contains_key(p) && !a.contains_key(p))
}

/// Paths present only in the first manifest.
pub open spec fn removed_paths(a: PathMap, b: PathMap) -> Set<Seq<char>> {
    Set::new(|p: Seq<char>| a.contains_key(p) && !b.contains_key(p))
}

/// Paths present in both manifests with different digests.
pub open spec fn modified_paths(a: PathMap, b: PathMap) -> Set<Seq<char>> {
    Set::new(|p: Seq<char>| a.contains_key(p) && b.contains_key(p) && a[p] != b[p])
}

/// Paths present in both manifests with equal digests.
pub open spec fn unchanged_paths(a: PathMap, b: PathMap) -> Set<Seq<char>> {
    Set::new(|p: Seq<char>| a.contains_key(p) && b.contains_key(p) && a[p] == b[p])
}

/// `v` holds the paths of `s`, each exactly once.
pub open spec fn lists_paths(v: Seq<String>, s: Set<Seq<char>>) -> bool {
    &&& forall|i: int, j: int| 0 <= i < j < v.len() ==> v[i]@ != v[j]@
    &&& forall|i: int| 0 <= i < v.len() ==> s.contains(#[trigger] v[i]@)
    &&& forall|p: Seq<char>| s.contains(p) ==> exists|i: int| 0 <= i < v.len() && (#[trigger] v[i]@) == p
}

/// `v` holds, once each, the paths among the first `n` entries of `es` that
/// satisfy `pred`.
spec fn collects(
    v: Seq<String>,
    es: Seq<ManifestEntry>,
    n: int,
    pred: spec_fn(Seq<char>) -> bool,
) -> bool {
    &&& forall|i: int, j: int| 0 <= i < j < v.len() ==> v[i]@ != v[j]@
    &&& forall|t: int|
        0 <= t < v.len() ==> pred(#[trigger] v[t]@) && exists|j: int|
            0 <= j < n && v[t]@ == (#[trigger] es[j]).path@
    &&& forall|j: int|
        0 <= j < n && pred(#[trigger] es[j].path@) ==> exists|t: int|
            0 <= t < v.len() && (#[trigger] v[t]@) == es[j].path@
}

spec fn distinct_paths(es: Seq<ManifestEntry>) -> bool {
    forall|i: int, j: int| 0 <= i < j < es.len() ==> es[i].path@ != es[j].path@
}

proof fn lemma_collect_skip(
    v: Seq<String>,
    es: Seq<ManifestEntry>,
    n: int,
    pred: spec_fn(Seq<char>) -> bool,
)
    requires
        0 <= n < es.len(),
        collects(v, es, n, pred),
        !pred(es[n].path@),
    ensures
        collects(v, es, n + 1, pred),
{
    assert forall|t: int| 0 <= t < v.len() implies pred(#[trigger] v[t]@) && exists|j: int|
        0 <= j < n + 1 && v[t]@ == (#[trigger] es[j]).path@ by {
        let j = choose|j: int| 0 <= j < n && v[t]@ == (#[trigger] es[j]).path@;
    }
}

proof fn lemma_collect_push(
    v: Seq<String>,
    s: String,
    es: Seq<ManifestEntry>,
    n: int,
    pred: spec_fn(Seq<char>) -> bool,
)
    requires
        0 <= n < es.len(),
        distinct_paths(es),
        collects(v, es, n, pred),
        pred(es[n].path@),
        s@ == es[n].path@,
    ensures
        collects(v.push(s), es, n + 1, pred),
{
    let w = v.push(s);
    assert forall|i: int, j: int| 0 <= i < j < w.len() implies w[i]@ != w[j]@ by {
        assert(w[i] == v[i]);
        if j < v.len() {
            assert(w[j] == v[j]);
        } else {
            let k = choose|k: int| 0 <= k < n && v[i]@ == (#[trigger] es[k]).path@;
        }
    }
    assert forall|t: int| 0 <= t < w.len() implies pred(#[trigger] w[t]@) && exists|j: int|
        0 <= j < n + 1 && w[t]@ == (#[trigger] es[j]).path@ by {
        if t < v.len() {
            assert(w[t] == v[t]);
            let j = choose|j: int| 0 <= j < n && v[t]@ == (#[trigger] es[j]).path@;
        } else {
            assert(w[t]@ == es[n].path@);
        }
    }
    assert forall|j: int| 0 <= j < n + 1 && pred(#[trigger] es[j].path@) implies exists|t: int|
        0 <= t < w.len() && (#[trigger] w[t]@) == es[j].path@ by {
        if j < n {
            let t = choose|t: int| 0 <= t < v.len() && (#[trigger] v[t]@) == es[j].path@;
            assert(w[t] == v[t]);
        } else {
            assert(w[v.len() as int]@ == es[j].path@);
        }
    }
}

proof fn lemma_collect_done(
    v: Seq<String>,
    es: Seq<ManifestEntry>,
    m: PathMap,
    pred: spec_fn(Seq<char>) -> bool,
)
    requires
        entries_match(es, m),
        collects(v, es, es.len() as int, pred),
    ensures
        lists_paths(v, Set::new(|p: Seq<char>| m.contains_key(p) && pred(p))),
{
    let s = Set::new(|p: Seq<char>| m.contains_key(p) && pred(p));
    assert forall|i: int| 0 <= i < v.len() implies s.contains(#[trigger] v[i]@) by {
        let j = choose|j: int| 0 <= j < es.len() && v[i]@ == (#[trigger] es[j]).path@;
    }
    assert forall|p: Seq<char>| s.contains(p) implies exists|i: int|
        0 <= i < v.len() && (#[trigger] v[i]@) == p by {
        let j = choose|j: int| 0 <= j < es.len() && (#[trigger] es[j].path@) == p;
    }
}

/// Compares two manifests: each path of either falls in exactly one of added
/// (only in `b`), removed (only in `a`), modified (in both, digests differ)
/// and unchanged (in both, digests equal).
pub fn diff(a: &Manifest, b: &Manifest) -> (r: DiffResult)
    requires
        a.wf(),
        b.wf(),
    ensures
        lists_paths(r.added@, added_paths(a@, b@)),
        lists_paths(r.removed@, removed_paths(a@, b@)),
        lists_paths(r.modified@, modified_paths(a@, b@)),
        lists_paths(r.unchanged@, unchanged_paths(a@, b@)),
{
    let ea = a.entries();
    let eb = b.entries();
    let ghost am = a@;
    let ghost bm = b@;
    let ghost p_removed = |p: Seq<char>| !bm.contains_key(p);
    let ghost p_modified = |p: Seq<char>| bm.contains_key(p) && bm[p] != am[p];
    let ghost p_unchanged = |p: Seq<char>| bm.contains_key(p) && bm[p] == am[p];
    let ghost p_added = |p: Seq<char>| !am.contains_key(p);
    let mut added: Vec<String> = Vec::new();
    let mut removed: Vec<String> = Vec::new();
    let mut modified: Vec<String> = Vec::new();
    let mut unchanged: Vec<String> = Vec::new();
    let mut i: usize = 0;
    while i < ea.len()
        invariant
            a.wf(),
            b.wf(),
            am == a@,
            bm == b@,
            entries_match(ea@, am),
            0 <= i <= ea@.len(),
            p_removed == (|p: Seq<char>| !bm.contains_key(p)),
            p_modified == (|p: Seq<char>| bm.contains_key(p) && bm[p] != am[p]),
            p_unchanged == (|p: Seq<char>| bm.contains_key(p) && bm[p] == am[p]),
            collects(removed@, ea@, i as int, p_removed),
            collects(modified@, ea@, i as int, p_modified),
            collects(unchanged@, ea@, i as int, p_unchanged),
        decreases ea@.len() - i,
    {
        let e = &ea[i];
        proof {
            assert(distinct_paths(ea@));
            assert(am[e.path@] == e.digest@);
        }
        match b.get(&e.path) {
            None => {
                proof {
                    lemma_collect_push(removed@, e.path, ea@, i as int, p_removed);
                    lemma_collect_skip(modified@, ea@, i as int, p_modified);
                    lemma_collect_skip(unchanged@, ea@, i as int, p_unchanged);
                }
                removed.push(e.path.clone());
            },
            Some(d) => {
                if *d == e.digest {
                    proof {
                        lemma_collect_skip(removed@, ea@, i as int, p_removed);
                        lemma_collect_skip(modified@, ea@, i as int, p_modified);
                        lemma_collect_push(unchanged@, e.path, ea@, i as int, p_unchanged);
                    }
                    unchanged.push(e.path.clone());
                } else {
                    proof {
                        lemma_collect_skip(removed@, ea@, i as int, p_removed);
                        lemma_collect_push(modified@, e.path, ea@, i as int, p_modified);
                        lemma_collect_skip(unchanged@, ea@, i as int, p_unchanged);
                    }
                    modified.push(e.path.clone());
                }
            },
        }
        i += 1;
    }
    let mut k: usize = 0;
    while k < eb.len()
        invariant
            a.wf(),
            b.wf(),
            am == a@,
            bm == b@,
            entries_match(eb@, bm),
            0 <= k <= eb@.len(),
            p_added == (|p: Seq<char>| !am.contains_key(p)),
            collects(added@, eb@, k as int, p_added),
        decreases eb@.len() - k,
    {
        let e = &eb[k];
        proof {
            assert(distinct_paths(eb@));
        }
        if !a.contains_path(&e.path) {
            proof {
                lemma_collect_push(added@, e.path, eb@, k as int, p_added);
            }
            added.push(e.path.clone());
        } else {
            proof {
                lemma_collect_skip(added@, eb@, k as int, p_added);
            }
        }
        k += 1;
    }
    proof {
        lemma_collect_done(removed@, ea@, am, p_removed);
        lemma_collect_done(modified@, ea@, am, p_modified);
        lemma_collect_done(unchanged@, ea@, am, p_unchanged);
        lemma_collect_done(added@, eb@, bm, p_added);
        assert(Set::new(|p: Seq<char>| am.contains_key(p) && p_removed(p)) =~= removed_paths(
            am,
            bm,
        ));
        assert(Set::new(|p: Seq<char>| am.contains_key(p) && p_modified(p)) =~= modified_paths(
            am,
            bm,
        ));
        assert(Set::new(|p: Seq<char>| am.contains_key(p) && p_unchanged(p))
            =~= unchanged_paths(am, bm));
        assert(Set::new(|p: Seq<char>| bm.contains_key(p) && p_added(p)) =~= added_paths(am, bm));
    }
    DiffResult { added, removed, modified, unchanged }
}

/// The four classes of a diff cover exactly the paths of both manifests and
/// no path falls in two of them.
pub proof fn lemma_diff_partition(a: PathMap, b: PathMap)
    ensures
        added_paths(a, b) + removed_paths(a, b) + modified_paths(a, b) + unchanged_paths(a, b)
            == a.dom() + b.dom(),
        added_paths(a, b).disjoint(removed_paths(a, b)),
        added_paths(a, b).disjoint(modified_paths(a, b)),
        added_paths(a, b).disjoint(unchanged_paths(a, b)),
        removed_paths(a, b).disjoint(modified_paths(a, b)),
        removed_paths(a, b).disjoint(unchanged_paths(a, b)),
        modified_paths(a, b).disjoint(unchanged_paths(a, b)),
{
    assert(added_paths(a, b) + removed_paths(a, b) + modified_paths(a, b) + unchanged_paths(a, b)
        =~= a.dom() + b.dom());
}

} // verus!
