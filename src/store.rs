use vstd::prelude::*;
use crate::digest::{digest_bytes, sha256_hex};
use crate::error::StoreError;

verus! {

/// One stored object: its content and the digest it is stored under.
pub struct StoredObject {
    pub digest: String,
    pub content: Vec<u8>,
}

/// `s` lists the entries of `m` exactly once each.
pub open spec fn objects_match(s: Seq<StoredObject>, m: Map<Seq<char>, Seq<u8>>) -> bool {
    &&& forall|i: int, j: int|
        0 <= i < j < s.len() ==> s[i].digest@ != s[j].digest@
    &&& forall|i: int|
        0 <= i < s.len() ==> m.contains_key(#[trigger] s[i].digest@) && m[s[i].digest@]
            == s[i].content@
    &&& forall|k: Seq<char>|
        m.contains_key(k) ==> exists|i: int| 0 <= i < s.len() && (#[trigger] s[i].digest@) == k
}

/// Every object is stored under the digest of its own content.
pub open spec fn content_addressed(m: Map<Seq<char>, Seq<u8>>) -> bool {
    forall|k: Seq<char>| #[trigger] m.contains_key(k) ==> k == sha256_hex(m[k])
}

/// The store after `put(content)`: unchanged when the digest is already
/// present, otherwise with the content added under its digest.
pub open spec fn stored_after_put(m: Map<Seq<char>, Seq<u8>>, content: Seq<u8>) -> Map<
    Seq<char>,
    Seq<u8>,
> {
    if m.contains_key(sha256_hex(content)) {
        m
    } else {
        m.insert(sha256_hex(content), content)
    }
}

/// Content-addressed blob storage: a map from digest to content.
pub struct ObjectStore {
    objects: Vec<StoredObject>,
    contents: Ghost<Map<Seq<char>, Seq<u8>>>,
}

impl View for ObjectStore {
    type V = Map<Seq<char>, Seq<u8>>;

    closed spec fn view(&self) -> Map<Seq<char>, Seq<u8>> {
        self.contents@
    }
}

impl ObjectStore {
    /// The store's internal invariant: each digest once, each object under
    /// the digest of its content.
    pub closed spec fn wf(&self) -> bool {
        &&& objects_match(self.objects@, self.contents@)
        &&& forall|i: int|
            0 <= i < self.objects@.len() ==> (#[trigger] self.objects@[i]).digest@ == sha256_hex(
                self.objects@[i].content@,
            )
    }

    /// A well-formed store holds each object under the digest of its content.
    pub proof fn lemma_content_addressed(&self)
        requires
            self.wf(),
        ensures
            content_addressed(self@),
    {
        assert forall|k: Seq<char>| #[trigger] self@.contains_key(k) implies k == sha256_hex(
            self@[k],
        ) by {
            let i = choose|i: int|
                0 <= i < self.objects@.len() && (#[trigger] self.objects@[i].digest@) == k;
            assert(self.objects@[i].digest@ == sha256_hex(self.objects@[i].content@));
        }
    }

    /// An empty store.
    pub fn new() -> (r: ObjectStore)
        ensures
            r.wf(),
            r@ == Map::<Seq<char>, Seq<u8>>::empty(),
    {
        ObjectStore { objects: Vec::new(), contents: Ghost(Map::empty()) }
    }

    fn find(&self, d: &String) -> (r: Option<usize>)
        requires
            self.wf(),
        ensures
            match r {
                Some(i) => i < self.objects@.len() && self.objects@[i as int].digest@ == d@,
                None => !self@.contains_key(d@),
            },
    {
        let mut i: usize = 0;
        while i < self.objects.len()
            invariant
                self.wf(),
                0 <= i <= self.objects@.len(),
                forall|j: int| 0 <= j < i ==> self.objects@[j].digest@ != d@,
            decreases self.objects@.len() - i,
        {
            if self.objects[i].digest == *d {
                return Some(i);
            }
            i += 1;
        }
        None
    }

    /// Whether an object is stored under `d`.
    pub fn contains(&self, d: &String) -> (r: bool)
        requires
            self.wf(),
        ensures
            r == self@.contains_key(d@),
    {
        self.find(d).is_some()
    }

    /// The content stored under `d`; `NotFound` when there is none.
    pub fn get(&self, d: &String) -> (r: Result<&Vec<u8>, StoreError>)
        requires
            self.wf(),
        ensures
            self@.contains_key(d@) <==> r is Ok,
            r is Ok ==> r->Ok_0@ == self@[d@],
            r is Err ==> r->Err_0 == StoreError::NotFound,
    {
        match self.find(d) {
            Some(i) => Ok(&self.objects[i].content),
            None => Err(StoreError::NotFound),
        }
    }

    /// Stores `content` under its digest unless an object with that digest is
    /// already present, and returns the digest either way.
    pub fn put(&mut self, content: Vec<u8>) -> (r: String)
        requires
            old(self).wf(),
        ensures
            final(self).wf(),
            r@ == sha256_hex(content@),
            final(self)@ == stored_after_put(old(self)@, content@),
    {
        let d = digest_bytes(content.as_slice());
        match self.find(&d) {
            Some(_) => {},
            None => {
                let ghost c = content@;
                let ghost old_objs = self.objects@;
                let obj = StoredObject { digest: d.clone(), content };
                self.objects.push(obj);
                self.contents = Ghost(self.contents@.insert(d@, c));
                proof {
                    assert(self.objects@[old_objs.len() as int].digest@ == d@);
                    assert forall|k: Seq<char>| #[trigger]
                        self.contents@.contains_key(k) implies exists|i: int|
                        0 <= i < self.objects@.len() && (#[trigger] self.objects@[i].digest@)
                            == k by {
                        if k != d@ {
                            let j = choose|j: int|
                                0 <= j < old_objs.len() && (#[trigger] old_objs[j].digest@) == k;
                            assert(self.objects@[j] == old_objs[j]);
                        }
                    }
                }
            },
        }
        d
    }

    /// Removes the object stored under `d`; nothing happens when there is none.
    pub fn delete(&mut self, d: &String)
        requires
            old(self).wf(),
        ensures
            final(self).wf(),
            final(self)@ == old(self)@.remove(d@),
    {
        match self.find(d) {
            Some(i) => {
                let ghost old_objs = self.objects@;
                let _removed = self.objects.remove(i);
                self.contents = Ghost(self.contents@.remove(d@));
                proof {
                    assert forall|k: Seq<char>| #[trigger]
                        self.contents@.contains_key(k) implies exists|j: int|
                        0 <= j < self.objects@.len() && (#[trigger] self.objects@[j].digest@)
                            == k by {
                        let j0 = choose|j: int|
                            0 <= j < old_objs.len() && (#[trigger] old_objs[j].digest@) == k;
                        if j0 < i {
                            assert(self.objects@[j0] == old_objs[j0]);
                        } else {
                            assert(self.objects@[j0 - 1] == old_objs[j0]);
                        }
                    }
                }
            },
            None => {
                assert(self.contents@.remove(d@) =~= self.contents@);
            },
        }
    }

    /// The digests of all stored objects, each once.
    pub fn digests(&self) -> (r: Vec<String>)
        requires
            self.wf(),
        ensures
            forall|i: int, j: int| 0 <= i < j < r@.len() ==> r@[i]@ != r@[j]@,
            forall|i: int| 0 <= i < r@.len() ==> self@.contains_key(#[trigger] r@[i]@),
            forall|k: Seq<char>|
                self@.contains_key(k) ==> exists|i: int| 0 <= i < r@.len() && (#[trigger] r@[i]@)
                    == k,
    {
        let mut r: Vec<String> = Vec::new();
        let mut i: usize = 0;
        while i < self.objects.len()
            invariant
                self.wf(),
                0 <= i <= self.objects@.len(),
                r@.len() == i,
                forall|j: int| 0 <= j < i ==> (#[trigger] r@[j])@ == self.objects@[j].digest@,
            decreases self.objects@.len() - i,
        {
            r.push(self.objects[i].digest.clone());
            i += 1;
        }
        proof {
            assert forall|k: Seq<char>| self@.contains_key(k) implies exists|i: int|
                0 <= i < r@.len() && (#[trigger] r@[i]@) == k by {
                let j = choose|j: int|
                    0 <= j < self.objects@.len() && (#[trigger] self.objects@[j].digest@) == k;
                assert(r@[j]@ == k);
            }
        }
        r
    }
}

/// Storing the same bytes a second time changes nothing: the digest is the
/// same and the store holds exactly one object under it, whose content is the
/// content that was first stored under that digest.
pub proof fn lemma_put_idempotent(m: Map<Seq<char>, Seq<u8>>, content: Seq<u8>)
    ensures
        stored_after_put(stored_after_put(m, content), content) == stored_after_put(m, content),
        stored_after_put(m, content).contains_key(sha256_hex(content)),
        !m.contains_key(sha256_hex(content)) ==> stored_after_put(m, content)[sha256_hex(content)]
            == content,
        stored_after_put(m, content).dom() == m.dom().insert(sha256_hex(content)),
{
    assert(m.dom().insert(sha256_hex(content)) =~= stored_after_put(m, content).dom());
}

} // verus!
