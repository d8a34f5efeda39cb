use vstd::prelude::*;
use crate::error::StoreError;
use crate::history::{History, Snapshot};
use crate::manifest::{entries_match, manifest_of_json, read_manifest};
use crate::store::ObjectStore;

verus! {

/// What the store holds: digest to content.
pub type StoreMap = Map<Seq<char>, Seq<u8>>;

/// The snapshot's manifest is stored and parses.
pub open spec fn manifest_readable(s: Snapshot, store: StoreMap) -> bool {
    store.contains_key(s.manifest_digest@) && manifest_of_json(store[s.manifest_digest@]) is Some
}

/// Every snapshot's manifest is stored and parses.
pub open spec fn manifests_readable(snaps: Seq<Snapshot>, store: StoreMap) -> bool {
    forall|i: int| 0 <= i < snaps.len() ==> manifest_readable(#[trigger] snaps[i], store)
}

/// The digests a snapshot refers to: its manifest's and those its manifest
/// lists.
pub open spec fn snapshot_refs(s: Snapshot, store: StoreMap) -> Set<Seq<char>> {
    Set::new(
        |d: Seq<char>|
            d == s.manifest_digest@ || exists|p: Seq<char>|
                manifest_of_json(store[s.manifest_digest@])->0.contains_key(p) && #[trigger] manifest_of_json(
                    store[s.manifest_digest@],
                )->0[p] == d,
    )
}

/// The digests that some snapshot of the history refers to.
pub open spec fn reachable(snaps: Seq<Snapshot>, store: StoreMap) -> Set<Seq<char>> {
    Set::new(
        |d: Seq<char>|
            exists|i: int| 0 <= i < snaps.len() && #[trigger] snapshot_refs(snaps[i], store).contains(d),
    )
}

/// `v` holds the elements of `s` and nothing else.
pub open spec fn covers(v: Seq<String>, s: Set<Seq<char>>) -> bool {
    &&& forall|t: int| 0 <= t < v.len() ==> s.contains(#[trigger] v[t]@)
    &&& forall|d: Seq<char>| s.contains(d) ==> exists|t: int| 0 <= t < v.len() && (#[trigger] v[t]@) == d
}

/// The digests that the first `n` snapshots refer to.
pub open spec fn reachable_prefix(snaps: Seq<Snapshot>, store: StoreMap, n: int) -> Set<Seq<char>> {
    Set::new(
        |d: Seq<char>|
            exists|i: int| 0 <= i < n && #[trigger] snapshot_refs(snaps[i], store).contains(d),
    )
}

/// Lists the digests that the history keeps alive, reading every manifest
/// first; `Corrupt` when a snapshot's manifest is missing or does not parse.
pub fn reachable_digests(history: &History, store: &ObjectStore) -> (r: Result<
    Vec<String>,
    StoreError,
>)
    requires
        history.wf(),
        store.wf(),
    ensures
        r is Ok <==> manifests_readable(history@, store@),
        r is Ok ==> covers(r->Ok_0@, reachable(history@, store@)),
        r is Err ==> r->Err_0 == StoreError::Corrupt,
{
    let snaps = history.all();
    let ghost sm = store@;
    let mut out: Vec<String> = Vec::new();
    let mut n: usize = 0;
    while n < snaps.len()
        invariant
            store.wf(),
            sm == store@,
            snaps@ == history@,
            0 <= n <= snaps@.len(),
            forall|i: int| 0 <= i < n ==> manifest_readable(#[trigger] snaps@[i], sm),
            covers(out@, reachable_prefix(snaps@, sm, n as int)),
        decreases snaps@.len() - n,
    {
        let s = &snaps[n];
        let manifest = match read_manifest(store, &s.manifest_digest) {
            Ok(m) => m,
            Err(_) => {
                assert(!manifest_readable(snaps@[n as int], sm));
                return Err(StoreError::Corrupt);
            },
        };
        let ghost mm = manifest@;
        let ghost refs = snapshot_refs(snaps@[n as int], sm);
        let ghost start = out@;
        out.push(s.manifest_digest.clone());
        let es = manifest.entries();
        let mut k: usize = 0;
        while k < es.len()
            invariant
                entries_match(es@, mm),
                mm == manifest_of_json(sm[snaps@[n as int].manifest_digest@])->0,
                refs == snapshot_refs(snaps@[n as int], sm),
                0 <= k <= es@.len(),
                out@.len() >= start.len() + 1,
                forall|t: int| 0 <= t < start.len() ==> out@[t] == start[t],
                out@[start.len() as int]@ == snaps@[n as int].manifest_digest@,
                forall|t: int| start.len() <= t < out@.len() ==> refs.contains(#[trigger] out@[t]@),
                forall|j: int| 0 <= j < k ==> exists|t: int|
                    0 <= t < out@.len() && (#[trigger] out@[t]@) == (#[trigger] es@[j]).digest@,
            decreases es@.len() - k,
        {
            let ghost before = out@;
            out.push(es[k].digest.clone());
            proof {
                assert(mm[es@[k as int].path@] == es@[k as int].digest@);
                assert(refs.contains(out@[before.len() as int]@));
                assert forall|j: int| 0 <= j < k + 1 implies exists|t: int|
                    0 <= t < out@.len() && (#[trigger] out@[t]@) == (#[trigger] es@[j]).digest@ by {
                    if j < k {
                        let t = choose|t: int| 0 <= t < before.len() && (#[trigger] before[t]@) == es@[j].digest@;
                        assert(out@[t] == before[t]);
                    } else {
                        assert(out@[before.len() as int]@ == es@[j].digest@);
                    }
                }
            }
            k += 1;
        }
        proof {
            let old_set = reachable_prefix(snaps@, sm, n as int);
            let new_set = reachable_prefix(snaps@, sm, n + 1);
            assert forall|t: int| 0 <= t < out@.len() implies new_set.contains(#[trigger] out@[t]@) by {
                if t < start.len() {
                    assert(out@[t] == start[t]);
                    assert(old_set.contains(start[t]@));
                    let i = choose|i: int| 0 <= i < n && #[trigger] snapshot_refs(snaps@[i], sm).contains(start[t]@);
                    assert(snapshot_refs(snaps@[i], sm).contains(out@[t]@));
                } else {
                    assert(snapshot_refs(snaps@[n as int], sm).contains(out@[t]@));
                }
            }
            assert forall|d: Seq<char>| new_set.contains(d) implies exists|t: int|
                0 <= t < out@.len() && (#[trigger] out@[t]@) == d by {
                let i = choose|i: int| 0 <= i < n + 1 && #[trigger] snapshot_refs(snaps@[i], sm).contains(d);
                if i < n {
                    assert(old_set.contains(d));
                    let t = choose|t: int| 0 <= t < start.len() && (#[trigger] start[t]@) == d;
                    assert(out@[t] == start[t]);
                } else if d != snaps@[n as int].manifest_digest@ {
                    let p = choose|p: Seq<char>| mm.contains_key(p) && #[trigger] mm[p] == d;
                    let j = choose|j: int| 0 <= j < es@.len() && (#[trigger] es@[j].path@) == p;
                    assert(es@[j].digest@ == d);
                }
            }
        }
        n += 1;
    }
    proof {
        assert(reachable_prefix(snaps@, sm, n as int) =~= reachable(history@, store@));
    }
    Ok(out)
}

fn list_contains(v: &Vec<String>, d: &String) -> (r: bool)
    ensures
        r == exists|t: int| 0 <= t < v@.len() && (#[trigger] v@[t]@) == d@,
{
    let mut i: usize = 0;
    while i < v.len()
        invariant
            0 <= i <= v@.len(),
            forall|t: int| 0 <= t < i ==> (#[trigger] v@[t]@) != d@,
        decreases v@.len() - i,
    {
        if v[i] == *d {
            return true;
        }
        i += 1;
    }
    false
}

/// Deletes every object that no snapshot refers to, after computing the whole
/// reachable set, and returns the digests it deleted. `Corrupt`, with the
/// store untouched, when a snapshot's manifest is missing or does not parse.
pub fn prune(store: &mut ObjectStore, history: &History) -> (r: Result<Vec<String>, StoreError>)
    requires
        old(store).wf(),
        history.wf(),
    ensures
        final(store).wf(),
        r is Ok <==> manifests_readable(history@, old(store)@),
        r is Ok ==> final(store)@ == old(store)@.restrict(reachable(history@, old(store)@)),
        r is Ok ==> covers(r->Ok_0@, old(store)@.dom() - reachable(history@, old(store)@)),
        r is Err ==> final(store)@ == old(store)@ && r->Err_0 == StoreError::Corrupt,
{
    let keep = match reachable_digests(history, store) {
        Ok(v) => v,
        Err(e) => return Err(e),
    };
    let ghost om = store@;
    let ghost reach = reachable(history@, om);
    let all = store.digests();
    let mut removed: Vec<String> = Vec::new();
    let mut i: usize = 0;
    while i < all.len()
        invariant
            store.wf(),
            reach == reachable(history@, om),
            covers(keep@, reach),
            forall|a: int, b: int| 0 <= a < b < all@.len() ==> all@[a]@ != all@[b]@,
            forall|a: int| 0 <= a < all@.len() ==> om.contains_key(#[trigger] all@[a]@),
            forall|k: Seq<char>|
                om.contains_key(k) ==> exists|a: int| 0 <= a < all@.len() && (#[trigger] all@[a]@) == k,
            0 <= i <= all@.len(),
            forall|k: Seq<char>| #[trigger]
                store@.contains_key(k) ==> om.contains_key(k) && store@[k] == om[k],
            forall|k: Seq<char>| om.contains_key(k) && reach.contains(k) ==> #[trigger] store@.contains_key(k),
            forall|a: int| 0 <= a < i && !reach.contains(#[trigger] all@[a]@) ==> !store@.contains_key(all@[a]@),
            forall|a: int| i <= a < all@.len() ==> store@.contains_key(#[trigger] all@[a]@),
            forall|t: int|
                0 <= t < removed@.len() ==> om.contains_key(#[trigger] removed@[t]@) && !reach.contains(removed@[t]@),
            forall|a: int|
                0 <= a < i && !reach.contains(#[trigger] all@[a]@) ==> exists|t: int|
                    0 <= t < removed@.len() && (#[trigger] removed@[t]@) == all@[a]@,
        decreases all@.len() - i,
    {
        let d = &all[i];
        if !list_contains(&keep, d) {
            let ghost before = removed@;
            store.delete(d);
            removed.push(d.clone());
            proof {
                assert forall|a: int| 0 <= a < i + 1 && !reach.contains(#[trigger] all@[a]@) implies exists|t: int|
                    0 <= t < removed@.len() && (#[trigger] removed@[t]@) == all@[a]@ by {
                    if a < i {
                        let t = choose|t: int| 0 <= t < before.len() && (#[trigger] before[t]@) == all@[a]@;
                        assert(removed@[t] == before[t]);
                    } else {
                        assert(removed@[before.len() as int]@ == all@[a]@);
                    }
                }
                assert forall|t: int| 0 <= t < removed@.len() implies om.contains_key(#[trigger] removed@[t]@)
                    && !reach.contains(removed@[t]@) by {
                    if t < before.len() {
                        assert(removed@[t] == before[t]);
                    }
                }
            }
        } else {
            proof {
                let t = choose|t: int| 0 <= t < keep@.len() && (#[trigger] keep@[t]@) == d@;
                assert(reach.contains(keep@[t]@));
            }
        }
        i += 1;
    }
    proof {
        assert forall|k: Seq<char>| om.contains_key(k) && !reach.contains(k) implies !store@.contains_key(k) by {
            let a = choose|a: int| 0 <= a < all@.len() && (#[trigger] all@[a]@) == k;
        }
        assert forall|d: Seq<char>| om.contains_key(d) && !reach.contains(d) implies exists|t: int|
            0 <= t < removed@.len() && (#[trigger] removed@[t]@) == d by {
            let a = choose|a: int| 0 <= a < all@.len() && (#[trigger] all@[a]@) == d;
            assert(0 <= a < i && !reach.contains(all@[a]@));
        }
        assert(store@ =~= om.restrict(reach));
        assert(covers(removed@, om.dom() - reach));
    }
    Ok(removed)
}

/// Pruning keeps each snapshot's manifest and every stored object that a
/// manifest lists; an object it removes is referred to by no snapshot.
pub proof fn lemma_prune_safety(snaps: Seq<Snapshot>, store: StoreMap, i: int, p: Seq<char>)
    requires
        0 <= i < snaps.len(),
        manifests_readable(snaps, store),
    ensures
        store.restrict(reachable(snaps, store)).contains_key(snaps[i].manifest_digest@),
        ({
            let m = manifest_of_json(store[snaps[i].manifest_digest@])->0;
            m.contains_key(p) && store.contains_key(m[p]) ==> store.restrict(
                reachable(snaps, store),
            ).contains_key(m[p])
        }),
        forall|d: Seq<char>, j: int|
            store.contains_key(d) && !store.restrict(reachable(snaps, store)).contains_key(d) && 0
                <= j < snaps.len() ==> !#[trigger] snapshot_refs(snaps[j], store).contains(d),
{
    let m = manifest_of_json(store[snaps[i].manifest_digest@])->0;
    assert(snapshot_refs(snaps[i], store).contains(snaps[i].manifest_digest@));
    if m.contains_key(p) {
        assert(snapshot_refs(snaps[i], store).contains(m[p]));
    }
}

} // verus!
