use crate::assoc::assoc_map;
use crate::assoc::distinct_keys;
use crate::assoc::lemma_assoc_map_index;
use crate::assoc::lemma_assoc_map_len;
use crate::assoc::lemma_assoc_map_membership;
use crate::assoc::lemma_assoc_map_push;
use crate::assoc::lemma_assoc_map_update;
use crate::text::bytes_eq;
use vstd::pervasive::VecAdditionalExecFns;
use vstd::prelude::*;

verus! {

/// Cheap identity of a source file: byte length and modification time in
/// whole seconds. Two fingerprints are equal iff both fields match exactly;
/// no content hashing is done, so a change that preserves both fields is
/// invisible (an accepted false negative of the cache).
#[derive(Clone, Copy, PartialEq, Eq, Structural, Debug)]
pub struct Fingerprint {
    pub len: u64,
    pub mtime: u64,
}

/// Exact fingerprint comparison: both fields must match; there is no
/// tolerance window on either field.
pub fn fingerprint_matches(a: &Fingerprint, b: &Fingerprint) -> (r: bool)
    ensures
        r <==> (a.len == b.len && a.mtime == b.mtime),
{
    a.len == b.len && a.mtime == b.mtime
}

/// The fingerprint taken at scan time: the byte length as read, and the
/// modification time in whole seconds, zero when the filesystem reports
/// none.
pub fn fingerprint_of(len: u64, mtime: Option<u64>) -> (fp: Fingerprint)
    ensures
        fp.len == len,
        fp.mtime == if mtime is Some {
            mtime.unwrap()
        } else {
            0u64
        },
{
    let mtime = match mtime {
        Some(m) => m,
        None => 0,
    };
    Fingerprint { len, mtime }
}

/// Persisted mapping from asset identity (an input path, kept as bytes) to
/// the fingerprint last seen for it. Loaded once per run, compared against,
/// and replaced wholesale by a freshly assembled store at the end of the run.
pub struct FingerprintStore {
    entries: Vec<(Vec<u8>, Fingerprint)>,
}

impl FingerprintStore {
    /// The entries with their keys abstracted to byte sequences.
    pub closed spec fn entry_views(&self) -> Seq<(Seq<u8>, Fingerprint)> {
        Seq::new(self.entries@.len(), |i: int| (self.entries@[i].0@, self.entries@[i].1))
    }

    /// Each identity occurs in at most one entry.
    pub closed spec fn wf(&self) -> bool {
        distinct_keys(self.entry_views())
    }

    /// The mapping the store denotes.
    pub closed spec fn as_map(&self) -> Map<Seq<u8>, Fingerprint> {
        assoc_map(self.entry_views())
    }

    /// An empty store, for the first run or a missing prior-state file.
    pub fn new() -> (s: Self)
        ensures
            s.wf(),
            s.as_map() == Map::<Seq<u8>, Fingerprint>::empty(),
    {
        let s = FingerprintStore { entries: Vec::new() };
        proof {
            assert(s.entry_views() =~= Seq::<(Seq<u8>, Fingerprint)>::empty());
        }
        s
    }

    /// Number of identities the store holds.
    pub fn len(&self) -> (n: usize)
        requires
            self.wf(),
        ensures
            n == self.as_map().dom().len(),
    {
        proof {
            lemma_assoc_map_len(self.entry_views());
        }
        self.entries.len()
    }

    /// The fingerprint stored for an identity, if any.
    pub fn lookup(&self, key: &[u8]) -> (r: Option<Fingerprint>)
        requires
            self.wf(),
        ensures
            match r {
                Some(f) => self.as_map().contains_key(key@) && self.as_map()[key@] == f,
                None => !self.as_map().contains_key(key@),
            },
    {
        let mut i: usize = 0;
        while i < self.entries.len()
            invariant
                self.wf(),
                i <= self.entries@.len(),
                forall|k: int| 0 <= k < i ==> self.entry_views()[k].0 != key@,
            decreases self.entries@.len() - i,
        {
            if bytes_eq(self.entries[i].0.as_slice(), key) {
                proof {
                    lemma_assoc_map_index(self.entry_views(), i as int);
                }
                return Some(self.entries[i].1);
            }
            i = i + 1;
        }
        proof {
            lemma_assoc_map_membership(self.entry_views(), key@);
        }
        None
    }

    /// Records a fingerprint for an identity, replacing any prior entry.
    pub fn insert(&mut self, key: Vec<u8>, fp: Fingerprint)
        requires
            old(self).wf(),
        ensures
            final(self).wf(),
            final(self).as_map() == old(self).as_map().insert(key@, fp),
            final(self).as_map().dom().len() == old(self).as_map().dom().len() + (
            if old(self).as_map().contains_key(key@) {
                0int
            } else {
                1int
            }),
    {
        proof {
            lemma_assoc_map_len(old(self).entry_views());
            lemma_assoc_map_membership(old(self).entry_views(), key@);
        }
        let ghost old_views = self.entry_views();
        let mut i: usize = 0;
        while i < self.entries.len()
            invariant
                self == old(self),
                self.wf(),
                old_views == self.entry_views(),
                i <= self.entries@.len(),
                self.entries@.len() == old_views.len(),
                forall|k: int| 0 <= k < i ==> self.entry_views()[k].0 != key@,
            decreases self.entries@.len() - i,
        {
            if bytes_eq(self.entries[i].0.as_slice(), key.as_slice()) {
                proof {
                    assert(old_views[i as int].0 == key@);
                    lemma_assoc_map_len(old_views);
                    lemma_assoc_map_index(old_views, i as int);
                    lemma_assoc_map_update(old_views, i as int, fp);
                }
                self.entries.set(i, (key, fp));
                proof {
                    assert(self.entry_views() =~= old_views.update(
                        i as int,
                        (old_views[i as int].0, fp),
                    ));
                    assert(distinct_keys(self.entry_views()));
                    lemma_assoc_map_len(self.entry_views());
                }
                return ;
            }
            i = i + 1;
        }
        proof {
            lemma_assoc_map_push(old_views, (key@, fp));
        }
        self.entries.push((key, fp));
        proof {
            assert(self.entry_views() =~= old_views.push((key@, fp)));
            assert(distinct_keys(self.entry_views()));
            lemma_assoc_map_len(self.entry_views());
        }
    }

    /// Builds a store from loaded entries; a later entry wins over an
    /// earlier one with the same identity.
    pub fn from_entries(mut list: Vec<(Vec<u8>, Fingerprint)>) -> (s: Self)
        ensures
            s.wf(),
            s.as_map() == assoc_map(
                Seq::new(list@.len(), |i: int| (list@[i].0@, list@[i].1)),
            ),
    {
        let ghost orig = Seq::new(list@.len(), |i: int| (list@[i].0@, list@[i].1));
        let mut s = FingerprintStore::new();
        let ghost done: int = 0;
        while list.len() > 0
            invariant
                s.wf(),
                0 <= done <= orig.len(),
                list@.len() == orig.len() - done,
                forall|k: int| 0 <= k < list@.len() ==> (list@[k].0@, list@[k].1) == orig[done + k],
                s.as_map() == assoc_map(orig.take(done)),
            decreases list@.len(),
        {
            let (key, fp) = list.remove(0);
            proof {
                assert(orig[done] == (key@, fp));
                assert(orig.take(done + 1) =~= orig.take(done).push(orig[done]));
                lemma_assoc_map_push(orig.take(done), orig[done]);
            }
            s.insert(key, fp);
            proof {
                done = done + 1;
            }
        }
        proof {
            assert(orig.take(done) =~= orig);
        }
        s
    }

    /// Read-only access to the entries, for persisting the store.
    pub fn export_entries(&self) -> (r: &Vec<(Vec<u8>, Fingerprint)>)
        ensures
            Seq::new(r@.len(), |i: int| (r@[i].0@, r@[i].1)) == self.entry_views(),
            distinct_keys(self.entry_views()) ==> assoc_map(
                Seq::new(r@.len(), |i: int| (r@[i].0@, r@[i].1)),
            ) == self.as_map(),
    {
        proof {
            assert(Seq::new(self.entries@.len(), |i: int| (self.entries@[i].0@, self.entries@[i].1))
                =~= self.entry_views());
        }
        &self.entries
    }
}

} // verus!
