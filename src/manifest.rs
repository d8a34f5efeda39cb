use vstd::prelude::*;
use crate::error::StoreError;
use crate::store::ObjectStore;
use crate::text::{
    lemma_path_lt_irreflexive, lemma_path_lt_total, lemma_path_lt_transitive, path_less, path_lt,
};
use std::collections::BTreeMap;

verus! {

/// One file of a manifest: its normalized relative path and the digest of
/// its content.
pub struct ManifestEntry {
    pub path: String,
    pub digest: String,
}

/// A manifest's content: relative path to digest.
pub type PathMap = Map<Seq<char>, Seq<char>>;

/// `s` lists the entries of `m` exactly once each.
pub open spec fn entries_match(s: Seq<ManifestEntry>, m: Map<Seq<char>, Seq<char>>) -> bool {
    &&& forall|i: int, j: int| 0 <= i < j < s.len() ==> s[i].path@ != s[j].path@
    &&& forall|i: int|
        0 <= i < s.len() ==> m.contains_key(#[trigger] s[i].path@) && m[s[i].path@]
            == s[i].digest@
    &&& forall|k: Seq<char>|
        m.contains_key(k) ==> exists|i: int| 0 <= i < s.len() && (#[trigger] s[i].path@) == k
}

/// The entries come in strictly ascending order of path.
pub open spec fn sorted_paths(s: Seq<ManifestEntry>) -> bool {
    forall|i: int, j: int| 0 <= i < j < s.len() ==> path_lt(s[i].path@, s[j].path@)
}

/// Inserting an entry for a new path at its place in the order keeps the
/// entries sorted and listing the map with that path added.
proof fn lemma_insert_sorted(s: Seq<ManifestEntry>, pos: int, e: ManifestEntry, m: PathMap)
    requires
        entries_match(s, m),
        sorted_paths(s),
        !m.contains_key(e.path@),
        0 <= pos <= s.len(),
        forall|j: int| 0 <= j < pos ==> path_lt((#[trigger] s[j]).path@, e.path@),
        pos < s.len() ==> path_lt(e.path@, s[pos].path@),
    ensures
        entries_match(s.insert(pos, e), m.insert(e.path@, e.digest@)),
        sorted_paths(s.insert(pos, e)),
{
    s.insert_ensures(pos, e);
    let w = s.insert(pos, e);
    let m2 = m.insert(e.path@, e.digest@);
    assert forall|a: int, b: int| 0 <= a < b < w.len() implies path_lt(w[a].path@, w[b].path@) by {
        if b < pos {
            assert(w[a] == s[a] && w[b] == s[b]);
        } else if b == pos {
            assert(w[a] == s[a]);
        } else if a < pos {
            assert(w[a] == s[a] && w[b] == s[b - 1]);
        } else if a == pos {
            assert(w[b] == s[b - 1]);
            if b - 1 > pos {
                lemma_path_lt_transitive(e.path@, s[pos].path@, s[b - 1].path@);
            }
        } else {
            assert(w[a] == s[a - 1] && w[b] == s[b - 1]);
        }
    }
    assert forall|a: int, b: int| 0 <= a < b < w.len() implies w[a].path@ != w[b].path@ by {
        if b < pos {
            assert(w[a] == s[a] && w[b] == s[b]);
        } else if b == pos {
            assert(w[a] == s[a]);
        } else if a < pos {
            assert(w[a] == s[a] && w[b] == s[b - 1]);
        } else if a == pos {
            assert(w[b] == s[b - 1]);
        } else {
            assert(w[a] == s[a - 1] && w[b] == s[b - 1]);
        }
    }
    assert forall|i: int| 0 <= i < w.len() implies m2.contains_key(#[trigger] w[i].path@)
        && m2[w[i].path@] == w[i].digest@ by {
        if i < pos {
            assert(w[i] == s[i]);
        } else if i > pos {
            assert(w[i] == s[i - 1]);
        }
    }
    assert forall|k: Seq<char>| m2.contains_key(k) implies exists|i: int|
        0 <= i < w.len() && (#[trigger] w[i].path@) == k by {
        if k == e.path@ {
            assert(w[pos].path@ == k);
        } else {
            let j = choose|j: int| 0 <= j < s.len() && (#[trigger] s[j].path@) == k;
            if j < pos {
                assert(w[j] == s[j]);
            } else {
                assert(w[j + 1] == s[j]);
            }
        }
    }
}

/// Two sorted listings of one map agree entry by entry.
pub proof fn lemma_sorted_entries_unique(s1: Seq<ManifestEntry>, s2: Seq<ManifestEntry>, m: PathMap)
    requires
        entries_match(s1, m),
        sorted_paths(s1),
        entries_match(s2, m),
        sorted_paths(s2),
    ensures
        s1.len() == s2.len(),
        forall|i: int|
            0 <= i < s1.len() ==> (#[trigger] s1[i]).path@ == s2[i].path@ && s1[i].digest@
                == s2[i].digest@,
    decreases s1.len(),
{
    if s1.len() == 0 {
        if s2.len() > 0 {
            assert(m.contains_key(s2[0].path@));
        }
    } else if s2.len() == 0 {
        assert(m.contains_key(s1[0].path@));
    } else {
        let n1 = s1.len() - 1;
        let n2 = s2.len() - 1;
        let a = s1[n1].path@;
        let b = s2[n2].path@;
        if a != b {
            assert(m.contains_key(a) && m.contains_key(b));
            let j = choose|j: int| 0 <= j < s2.len() && (#[trigger] s2[j].path@) == a;
            let k = choose|k: int| 0 <= k < s1.len() && (#[trigger] s1[k].path@) == b;
            assert(path_lt(a, b));
            assert(path_lt(b, a));
            lemma_path_lt_transitive(a, b, a);
            lemma_path_lt_irreflexive(a);
        }
        let t1 = s1.drop_last();
        let t2 = s2.drop_last();
        let m2 = m.remove(a);
        assert(entries_match(t1, m2)) by {
            assert forall|i: int| 0 <= i < t1.len() implies m2.contains_key(#[trigger] t1[i].path@)
                && m2[t1[i].path@] == t1[i].digest@ by {
                assert(t1[i] == s1[i]);
            }
            assert forall|k: Seq<char>| m2.contains_key(k) implies exists|i: int|
                0 <= i < t1.len() && (#[trigger] t1[i].path@) == k by {
                let i = choose|i: int| 0 <= i < s1.len() && (#[trigger] s1[i].path@) == k;
                assert(t1[i] == s1[i]);
            }
        }
        assert(entries_match(t2, m2)) by {
            assert forall|i: int| 0 <= i < t2.len() implies m2.contains_key(#[trigger] t2[i].path@)
                && m2[t2[i].path@] == t2[i].digest@ by {
                assert(t2[i] == s2[i]);
            }
            assert forall|k: Seq<char>| m2.contains_key(k) implies exists|i: int|
                0 <= i < t2.len() && (#[trigger] t2[i].path@) == k by {
                let i = choose|i: int| 0 <= i < s2.len() && (#[trigger] s2[i].path@) == k;
                assert(t2[i] == s2[i]);
            }
        }
        assert(sorted_paths(t1)) by {
            assert forall|i: int, j: int| 0 <= i < j < t1.len() implies path_lt(
                t1[i].path@,
                t1[j].path@,
            ) by {
                assert(t1[i] == s1[i] && t1[j] == s1[j]);
            }
        }
        assert(sorted_paths(t2)) by {
            assert forall|i: int, j: int| 0 <= i < j < t2.len() implies path_lt(
                t2[i].path@,
                t2[j].path@,
            ) by {
                assert(t2[i] == s2[i] && t2[j] == s2[j]);
            }
        }
        lemma_sorted_entries_unique(t1, t2, m2);
        assert forall|i: int| 0 <= i < s1.len() implies (#[trigger] s1[i]).path@ == s2[i].path@
            && s1[i].digest@ == s2[i].digest@ by {
            if i < n1 {
                assert(t1[i] == s1[i] && t2[i] == s2[i]);
            } else {
                assert(m[a] == s1[n1].digest@);
            }
        }
    }
}

/// The canonical serialized form of a manifest: a JSON object whose keys
/// are the paths in sorted order.
pub uninterp spec fn manifest_json(m: Map<Seq<char>, Seq<char>>) -> Seq<u8>;

/// The manifest that a byte sequence parses to, if it is a JSON object of
/// string values.
pub uninterp spec fn manifest_of_json(b: Seq<u8>) -> Option<Map<Seq<char>, Seq<char>>>;

#[verifier::external_type_specification]
#[verifier::external_body]
pub struct ExJsonError(serde_json::Error);

/// Relies on serde_json::from_slice into a BTreeMap<String, String>: it
/// succeeds exactly on a JSON object of string values, a map holds each key
/// once, and its entries come out in ascending order of key, which for
/// strings is the order of their characters' codes.
#[verifier::external_body]
fn parse_entries(b: &[u8]) -> (r: Result<Vec<ManifestEntry>, serde_json::Error>)
    ensures
        r is Ok ==> manifest_of_json(b@) is Some && entries_match(
            r->Ok_0@,
            manifest_of_json(b@)->0,
        ),
        r is Err ==> manifest_of_json(b@) is None,
        r is Ok ==> sorted_paths(r->Ok_0@),
{
    serde_json::from_slice::<BTreeMap<String, String>>(b).map(
        |m| m.into_iter().map(|(path, digest)| ManifestEntry { path, digest }).collect(),
    )
}

/// A mapping from relative path to content digest, each path once.
pub struct Manifest {
    entries: Vec<ManifestEntry>,
    map: Ghost<Map<Seq<char>, Seq<char>>>,
}

/// Relies on serde_json::to_vec on a BTreeMap<&str, &str>: a JSON object
/// whose keys come in sorted order, so the bytes depend on the map alone, and
/// which serde_json::from_slice reads back as the same map. Serializing a map
/// of strings cannot fail.
#[verifier::external_body]
fn write_json(m: &Manifest) -> (r: Vec<u8>)
    requires
        m.wf(),
    ensures
        r@ == manifest_json(m@),
        manifest_of_json(r@) == Some(m@),
{
    let map: BTreeMap<&str, &str> = m.entries.iter().map(
        |e| (e.path.as_str(), e.digest.as_str()),
    ).collect();
    serde_json::to_vec(&map).expect("a map of strings serializes")
}

impl View for Manifest {
    type V = Map<Seq<char>, Seq<char>>;

    closed spec fn view(&self) -> Map<Seq<char>, Seq<char>> {
        self.map@
    }
}

impl Manifest {
    /// The manifest's internal invariant: its entries list its map.
    pub closed spec fn wf(&self) -> bool {
        &&& entries_match(self.entries@, self.map@)
        &&& sorted_paths(self.entries@)
    }

    /// The entries in their order: ascending by path.
    pub closed spec fn entry_seq(&self) -> Seq<ManifestEntry> {
        self.entries@
    }

    /// A well-formed manifest lists each of its paths once, in ascending order.
    pub proof fn lemma_entry_seq(&self)
        requires
            self.wf(),
        ensures
            entries_match(self.entry_seq(), self@),
            sorted_paths(self.entry_seq()),
    {
    }

    /// An empty manifest.
    pub fn new() -> (r: Manifest)
        ensures
            r.wf(),
            r@ == Map::<Seq<char>, Seq<char>>::empty(),
    {
        Manifest { entries: Vec::new(), map: Ghost(Map::empty()) }
    }

    fn find(&self, path: &String) -> (r: Option<usize>)
        requires
            self.wf(),
        ensures
            match r {
                Some(i) => i < self.entries@.len() && self.entries@[i as int].path@ == path@,
                None => !self@.contains_key(path@),
            },
    {
        let mut i: usize = 0;
        while i < self.entries.len()
            invariant
                self.wf(),
                0 <= i <= self.entries@.len(),
                forall|j: int| 0 <= j < i ==> self.entries@[j].path@ != path@,
            decreases self.entries@.len() - i,
        {
            if self.entries[i].path == *path {
                return Some(i);
            }
            i += 1;
        }
        None
    }

    /// The digest recorded for `path`, if any.
    pub fn get(&self, path: &String) -> (r: Option<&String>)
        requires
            self.wf(),
        ensures
            r is Some <==> self@.contains_key(path@),
            r is Some ==> r->Some_0@ == self@[path@],
    {
        match self.find(path) {
            Some(i) => Some(&self.entries[i].digest),
            None => None,
        }
    }

    /// Whether the manifest records `path`.
    pub fn contains_path(&self, path: &String) -> (r: bool)
        requires
            self.wf(),
        ensures
            r == self@.contains_key(path@),
    {
        self.find(path).is_some()
    }

    /// Records `digest` for `path`, replacing an earlier digest of that path.
    pub fn insert(&mut self, path: String, digest: String)
        requires
            old(self).wf(),
        ensures
            final(self).wf(),
            final(self)@ == old(self)@.insert(path@, digest@),
    {
        let ghost old_entries = self.entries@;
        let ghost p = path@;
        let ghost d = digest@;
        match self.find(&path) {
            Some(i) => {
                self.entries.set(i, ManifestEntry { path, digest });
                self.map = Ghost(self.map@.insert(p, d));
                proof {
                    assert forall|k: Seq<char>| #[trigger]
                        self.map@.contains_key(k) implies exists|j: int|
                        0 <= j < self.entries@.len() && (#[trigger] self.entries@[j].path@)
                            == k by {
                        if k != p {
                            let j0 = choose|j: int|
                                0 <= j < old_entries.len() && (#[trigger] old_entries[j].path@)
                                    == k;
                            assert(self.entries@[j0] == old_entries[j0]);
                        } else {
                            assert(self.entries@[i as int].path@ == k);
                        }
                    }
                    assert forall|a: int, b: int| 0 <= a < b < self.entries@.len() implies path_lt(
                        self.entries@[a].path@,
                        self.entries@[b].path@,
                    ) by {
                        assert(self.entries@[a].path@ == old_entries[a].path@);
                        assert(self.entries@[b].path@ == old_entries[b].path@);
                    }
                }
            },
            None => {
                let mut pos: usize = 0;
                while pos < self.entries.len() && !path_less(
                    path.as_str(),
                    self.entries[pos].path.as_str(),
                )
                    invariant
                        self.wf(),
                        self.entries@ == old_entries,
                        p == path@,
                        !self@.contains_key(p),
                        0 <= pos <= self.entries@.len(),
                        forall|j: int|
                            0 <= j < pos ==> path_lt((#[trigger] self.entries@[j]).path@, p),
                    decreases self.entries@.len() - pos,
                {
                    proof {
                        assert(self@.contains_key(self.entries@[pos as int].path@));
                        lemma_path_lt_total(p, self.entries@[pos as int].path@);
                    }
                    pos += 1;
                }
                let e = ManifestEntry { path, digest };
                proof {
                    lemma_insert_sorted(self.entries@, pos as int, e, self.map@);
                }
                self.entries.insert(pos, e);
                self.map = Ghost(self.map@.insert(p, d));
            },
        }
    }

    /// The entries of the manifest, each path once.
    pub fn entries(&self) -> (r: &Vec<ManifestEntry>)
        requires
            self.wf(),
        ensures
            entries_match(r@, self@),
            sorted_paths(r@),
            r@ == self.entry_seq(),
    {
        &self.entries
    }

    /// The canonical serialized form: equal maps give equal bytes.
    pub fn to_bytes(&self) -> (r: Vec<u8>)
        requires
            self.wf(),
        ensures
            r@ == manifest_json(self@),
            manifest_of_json(r@) == Some(self@),
    {
        write_json(self)
    }

    /// Parses a serialized manifest; `Corrupt` when the bytes are not one.
    pub fn from_bytes(b: &[u8]) -> (r: Result<Manifest, StoreError>)
        ensures
            r is Ok <==> manifest_of_json(b@) is Some,
            r is Ok ==> r->Ok_0.wf() && r->Ok_0@ == manifest_of_json(b@)->0,
            r is Err ==> r->Err_0 == StoreError::Corrupt,
    {
        match parse_entries(b) {
            Ok(entries) => {
                let ghost m = manifest_of_json(b@)->0;
                Ok(Manifest { entries, map: Ghost(m) })
            },
            Err(_) => Err(StoreError::Corrupt),
        }
    }
}

/// Reads the manifest stored under `digest`: `NotFound` when the store lacks
/// it, `Corrupt` when its bytes do not parse.
pub fn read_manifest(store: &ObjectStore, digest: &String) -> (r: Result<Manifest, StoreError>)
    requires
        store.wf(),
    ensures
        !store@.contains_key(digest@) ==> r == Err::<Manifest, StoreError>(StoreError::NotFound),
        store@.contains_key(digest@) && manifest_of_json(store@[digest@]) is None ==> r == Err::<
            Manifest,
            StoreError,
        >(StoreError::Corrupt),
        store@.contains_key(digest@) && manifest_of_json(store@[digest@]) is Some ==> r is Ok
            && r->Ok_0.wf() && r->Ok_0@ == manifest_of_json(store@[digest@])->0,
{
    let bytes = match store.get(digest) {
        Ok(b) => b,
        Err(e) => return Err(e),
    };
    Manifest::from_bytes(bytes.as_slice())
}

} // verus!
