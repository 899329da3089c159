//! The content-addressed object store.
//!
//! The store is modelled as a map from [`Oid`] to object view.  Writes
//! are idempotent: putting content whose digest is already present is a
//! successful no-op, so concurrent puts commute.  Every stored object
//! is well formed and keyed by the digest of its canonical encoding.

use vstd::prelude::*;
use crate::oid::{Oid, oid_of, hash_bytes};
use crate::object::{GitObject, GitObjectV, wf_object};
use crate::codec::{enc_obj, encode_object};
use crate::errors::GitError;

verus! {

/// An in-memory content-addressed object store.
pub struct ObjectStore {
    entries: Vec<(Oid, GitObject)>,
}

/// The map a sequence of keyed objects denotes, later entries winning.
pub open spec fn map_of_entries(s: Seq<(Oid, GitObject)>) -> Map<Oid, GitObjectV>
    decreases s.len(),
{
    if s.len() == 0 {
        Map::empty()
    } else {
        map_of_entries(s.drop_last()).insert(s.last().0, s.last().1@)
    }
}

impl View for ObjectStore {
    type V = Map<Oid, GitObjectV>;

    closed spec fn view(&self) -> Map<Oid, GitObjectV> {
        map_of_entries(self.entries@)
    }
}

proof fn lemma_map_of_entries_domain(s: Seq<(Oid, GitObject)>)
    ensures
        forall|o: Oid| map_of_entries(s).contains_key(o)
            <==> exists|i: int| 0 <= i < s.len() && (#[trigger] s[i]).0 == o,
        map_of_entries(s).dom().finite(),
    decreases s.len(),
{
    if s.len() == 0 {
    } else {
        lemma_map_of_entries_domain(s.drop_last());
        assert forall|o: Oid| map_of_entries(s).contains_key(o)
            implies exists|i: int| 0 <= i < s.len() && (#[trigger] s[i]).0 == o by {
            if o == s.last().0 {
                assert(s[s.len() - 1].0 == o);
            } else {
                let i = choose|i: int| 0 <= i < s.len() - 1 && (#[trigger] s.drop_last()[i]).0 == o;
                assert(s[i].0 == o);
            }
        }
        assert forall|o: Oid| (exists|i: int| 0 <= i < s.len() && (#[trigger] s[i]).0 == o)
            implies map_of_entries(s).contains_key(o) by {
            let i = choose|i: int| 0 <= i < s.len() && (#[trigger] s[i]).0 == o;
            if i < s.len() - 1 {
                assert(s.drop_last()[i].0 == o);
            }
        }
    }
}

impl ObjectStore {
    /// The store's internal invariant: stored objects are well formed
    /// and keyed by the digest of their canonical encoding.
    pub closed spec fn wf(&self) -> bool {
        forall|i: int| 0 <= i < self.entries@.len() ==> {
            &&& wf_object((#[trigger] self.entries@[i]).1@)
            &&& self.entries@[i].0 == oid_of(enc_obj(self.entries@[i].1@))
            &&& enc_obj(self.entries@[i].1@).len() <= crate::oid::max_content_len()
        }
    }

    /// Every key of the model is the digest of its object's encoding.
    pub proof fn lemma_content_addressed(&self)
        requires
            self.wf(),
        ensures
            forall|o: Oid| #[trigger] self@.contains_key(o)
                ==> o == oid_of(enc_obj(self@[o])) && wf_object(self@[o])
                    && enc_obj(self@[o]).len() <= crate::oid::max_content_len(),
            self@.dom().finite(),
    {
        lemma_map_of_entries_domain(self.entries@);
        Self::lemma_entries_content_addressed(self.entries@);
    }

    proof fn lemma_entries_content_addressed(s: Seq<(Oid, GitObject)>)
        requires
            forall|i: int| 0 <= i < s.len() ==> {
                &&& wf_object((#[trigger] s[i]).1@)
                &&& s[i].0 == oid_of(enc_obj(s[i].1@))
                &&& enc_obj(s[i].1@).len() <= crate::oid::max_content_len()
            },
        ensures
            forall|o: Oid| map_of_entries(s).contains_key(o)
                ==> oid_of(enc_obj(#[trigger] map_of_entries(s)[o])) == o
                    && wf_object(map_of_entries(s)[o])
                    && enc_obj(map_of_entries(s)[o]).len() <= crate::oid::max_content_len(),
        decreases s.len(),
    {
        if s.len() > 0 {
            Self::lemma_entries_content_addressed(s.drop_last());
            let prev = map_of_entries(s.drop_last());
            let m = map_of_entries(s);
            assert forall|o: Oid| m.contains_key(o)
                implies oid_of(enc_obj(#[trigger] m[o])) == o && wf_object(m[o]) by {
                if o == s.last().0 {
                    assert(s[s.len() - 1].0 == o);
                    assert(m[o] == s.last().1@);
                } else {
                    assert(prev.contains_key(o));
                    assert(m[o] == prev[o]);
                }
            }
        }
    }

    /// Creates an empty store.
    pub fn new() -> (r: ObjectStore)
        ensures
            r@ == Map::<Oid, GitObjectV>::empty(),
            r.wf(),
    {
        ObjectStore { entries: Vec::new() }
    }

    /// Existence check without a decode.
    pub fn contains(&self, oid: &Oid) -> (r: bool)
        ensures
            r == self@.contains_key(*oid),
    {
        let mut i: usize = 0;
        while i < self.entries.len()
            invariant
                0 <= i <= self.entries@.len(),
                forall|k: int| 0 <= k < i ==> (#[trigger] self.entries@[k]).0 != *oid,
            decreases self.entries@.len() - i,
        {
            if self.entries[i].0 == *oid {
                proof {
                    lemma_map_of_entries_domain(self.entries@);
                }
                return true;
            }
            i = i + 1;
        }
        proof {
            lemma_map_of_entries_domain(self.entries@);
        }
        false
    }

    proof fn lemma_lookup(s: Seq<(Oid, GitObject)>, i: int)
        requires
            0 <= i < s.len(),
            forall|k: int| i < k < s.len() ==> (#[trigger] s[k]).0 != s[i].0,
        ensures
            map_of_entries(s).contains_key(s[i].0),
            map_of_entries(s)[s[i].0] == s[i].1@,
        decreases s.len(),
    {
        if i < s.len() - 1 {
            Self::lemma_lookup(s.drop_last(), i);
        }
    }

    /// Reads the object stored under `oid`.
    pub fn get(&self, oid: &Oid) -> (r: Result<&GitObject, GitError>)
        ensures
            match r {
                Ok(o) => self@.contains_key(*oid) && o@ == self@[*oid],
                Err(e) => !self@.contains_key(*oid) && e == GitError::ObjectNotFound,
            },
    {
        let n = self.entries.len();
        let mut i: usize = n;
        while i > 0
            invariant
                0 <= i <= self.entries@.len(),
                n == self.entries@.len(),
                forall|k: int| i <= k < n ==> (#[trigger] self.entries@[k]).0 != *oid,
            decreases i,
        {
            i = i - 1;
            if self.entries[i].0 == *oid {
                proof {
                    Self::lemma_lookup(self.entries@, i as int);
                }
                return Ok(&self.entries[i].1);
            }
        }
        proof {
            lemma_map_of_entries_domain(self.entries@);
        }
        Err(GitError::ObjectNotFound)
    }

    fn put_bytes(&mut self, o: GitObject, bytes: &Vec<u8>) -> (r: Oid)
        requires
            old(self).wf(),
            wf_object(o@),
            bytes@ == enc_obj(o@),
            bytes@.len() <= crate::oid::max_content_len(),
        ensures
            final(self).wf(),
            r == oid_of(enc_obj(o@)),
            old(self)@.contains_key(r) ==> final(self)@ == old(self)@,
            !old(self)@.contains_key(r) ==> final(self)@ == old(self)@.insert(r, o@),
    {
        let oid = hash_bytes(bytes);
        if self.contains(&oid) {
            return oid;
        }
        let ghost prev = self.entries@;
        self.entries.push((oid, o));
        proof {
            assert(self.entries@.drop_last() =~= prev);
        }
        oid
    }

    /// Writes an object, returning its digest.  Writing content whose
    /// digest already exists is a successful no-op.
    pub fn put(&mut self, o: GitObject) -> (r: Oid)
        requires
            old(self).wf(),
            wf_object(o@),
            enc_obj(o@).len() <= crate::oid::max_content_len(),
        ensures
            final(self).wf(),
            r == oid_of(enc_obj(o@)),
            old(self)@.contains_key(r) ==> final(self)@ == old(self)@,
            !old(self)@.contains_key(r) ==> final(self)@ == old(self)@.insert(r, o@),
    {
        let bytes = encode_object(&o);
        self.put_bytes(o, &bytes)
    }

    /// Writes an object after checking at run time that its canonical
    /// encoding fits the digest's length field.
    pub fn try_put(&mut self, o: GitObject) -> (r: Option<Oid>)
        requires
            old(self).wf(),
            wf_object(o@),
        ensures
            final(self).wf(),
            enc_obj(o@).len() <= crate::oid::max_content_len() ==> {
                &&& r == Some(oid_of(enc_obj(o@)))
                &&& (old(self)@.contains_key(oid_of(enc_obj(o@)))
                    ==> final(self)@ == old(self)@)
                &&& (!old(self)@.contains_key(oid_of(enc_obj(o@)))
                    ==> final(self)@ == old(self)@.insert(oid_of(enc_obj(o@)), o@))
            },
            enc_obj(o@).len() > crate::oid::max_content_len() ==> {
                &&& r is None
                &&& final(self)@ == old(self)@
            },
    {
        let bytes = encode_object(&o);
        if bytes.len() <= 0xFFFF_FFFFusize {
            Some(self.put_bytes(o, &bytes))
        } else {
            None
        }
    }

    /// The number of distinct objects stored.
    pub fn count(&self) -> (r: usize)
        requires
            self.wf(),
    {
        self.entries.len()
    }
}

} // verus!
