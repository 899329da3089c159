//! The reference manager: named pointers and the HEAD state machine.
//!
//! References live in a map from full name (`heads/main`, `tags/v1`,
//! `remotes/origin/main`) to a direct or symbolic target.  The sole
//! mutating primitive for named references is [`RefStore::update`], an
//! atomic compare-and-swap, which is what makes concurrent branch
//! updates safe: of two racing updates that expect the same old value,
//! exactly one can succeed.

use vstd::prelude::*;
use vstd::pervasive::VecAdditionalExecFns;
use crate::oid::Oid;
use crate::object::{bytes_lt, bytes_eq, bytes_lt_exec, bytes_starts_with, copy_bytes,
    starts_with, lemma_bytes_lt_irrefl, lemma_bytes_lt_trichotomy, lemma_bytes_lt_trans};
use crate::errors::GitError;

verus! {

/// A reference target: an object identifier, or one symbolic hop to
/// another reference name.
#[derive(Debug)]
pub enum RefTarget {
    Direct(Oid),
    Symbolic(Vec<u8>),
}

/// Ghost view of a reference target.
#[verifier::ext_equal]
pub ghost enum RefTargetV {
    Direct(Oid),
    Symbolic(Seq<u8>),
}

impl View for RefTarget {
    type V = RefTargetV;

    open spec fn view(&self) -> RefTargetV {
        match self {
            RefTarget::Direct(o) => RefTargetV::Direct(*o),
            RefTarget::Symbolic(n) => RefTargetV::Symbolic(n@),
        }
    }
}

/// The HEAD state machine: attached to a branch reference (which may
/// not yet resolve: an unborn branch), or detached at a commit.
#[derive(Debug)]
pub enum Head {
    Attached { name: Vec<u8> },
    Detached { oid: Oid },
}

/// Ghost view of HEAD.
#[verifier::ext_equal]
pub ghost enum HeadV {
    Attached { name: Seq<u8> },
    Detached { oid: Oid },
}

impl View for Head {
    type V = HeadV;

    open spec fn view(&self) -> HeadV {
        match self {
            Head::Attached { name } => HeadV::Attached { name: name@ },
            Head::Detached { oid } => HeadV::Detached { oid: *oid },
        }
    }
}

/// The full reference state: the name-to-target map and HEAD.
#[verifier::ext_equal]
pub ghost struct RefStoreV {
    pub refs: Map<Seq<u8>, RefTargetV>,
    pub head: HeadV,
}

/// The reference store, kept sorted by name.
pub struct RefStore {
    refs: Vec<(Vec<u8>, RefTarget)>,
    head: Head,
}

/// The map a sequence of named targets denotes.
pub open spec fn ref_map_of(s: Seq<(Vec<u8>, RefTarget)>) -> Map<Seq<u8>, RefTargetV>
    decreases s.len(),
{
    if s.len() == 0 {
        Map::empty()
    } else {
        ref_map_of(s.drop_last()).insert(s.last().0@, s.last().1@)
    }
}

impl View for RefStore {
    type V = RefStoreV;

    closed spec fn view(&self) -> RefStoreV {
        RefStoreV { refs: ref_map_of(self.refs@), head: self.head@ }
    }
}

/// The compare-and-swap precondition: with no expectation the name
/// must be absent; with an expected identifier the name must currently
/// point directly at exactly that identifier.
pub open spec fn cas_ok(m: Map<Seq<u8>, RefTargetV>, name: Seq<u8>, expected_old: Option<Oid>)
    -> bool
{
    match expected_old {
        None => !m.contains_key(name),
        Some(x) => m.contains_key(name) && m[name] == RefTargetV::Direct(x),
    }
}

/// What resolving a name yields: at most one symbolic hop is followed.
pub open spec fn spec_resolve(m: Map<Seq<u8>, RefTargetV>, name: Seq<u8>)
    -> Result<Oid, GitError>
{
    if !m.contains_key(name) {
        Err(GitError::RefNotFound)
    } else {
        match m[name] {
            RefTargetV::Direct(o) => Ok(o),
            RefTargetV::Symbolic(n2) => if !m.contains_key(n2) {
                Err(GitError::RefNotFound)
            } else {
                match m[n2] {
                    RefTargetV::Direct(o) => Ok(o),
                    RefTargetV::Symbolic(_) => Err(GitError::RefCycle),
                }
            },
        }
    }
}

proof fn lemma_ref_map_domain(s: Seq<(Vec<u8>, RefTarget)>)
    ensures
        forall|n: Seq<u8>| ref_map_of(s).contains_key(n)
            <==> exists|i: int| 0 <= i < s.len() && (#[trigger] s[i]).0@ == n,
    decreases s.len(),
{
    if s.len() > 0 {
        lemma_ref_map_domain(s.drop_last());
        assert forall|n: Seq<u8>| ref_map_of(s).contains_key(n)
            implies exists|i: int| 0 <= i < s.len() && (#[trigger] s[i]).0@ == n by {
            if n == s.last().0@ {
                assert(s[s.len() - 1].0@ == n);
            } else {
                assert(ref_map_of(s.drop_last()).contains_key(n));
                let i = choose|i: int|
                    0 <= i < s.len() - 1 && (#[trigger] s.drop_last()[i]).0@ == n;
                assert(s.drop_last()[i] == s[i]);
                assert(s[i].0@ == n);
            }
        }
        assert forall|n: Seq<u8>| (exists|i: int| 0 <= i < s.len() && (#[trigger] s[i]).0@ == n)
            implies ref_map_of(s).contains_key(n) by {
            let i = choose|i: int| 0 <= i < s.len() && (#[trigger] s[i]).0@ == n;
            if i < s.len() - 1 {
                assert(s.drop_last()[i].0@ == n);
                assert(ref_map_of(s.drop_last()).contains_key(n));
            }
        }
    }
}

proof fn lemma_ref_map_lookup(s: Seq<(Vec<u8>, RefTarget)>, i: int)
    requires
        0 <= i < s.len(),
        forall|k: int| i < k < s.len() ==> (#[trigger] s[k]).0@ != s[i].0@,
    ensures
        ref_map_of(s).contains_key(s[i].0@),
        ref_map_of(s)[s[i].0@] == s[i].1@,
    decreases s.len(),
{
    if i < s.len() - 1 {
        lemma_ref_map_lookup(s.drop_last(), i);
    }
}

/// Inserting a fresh name anywhere in the list inserts it in the map.
proof fn lemma_ref_map_insert(s: Seq<(Vec<u8>, RefTarget)>, i: int, e: (Vec<u8>, RefTarget))
    requires
        0 <= i <= s.len(),
        forall|k: int| 0 <= k < s.len() ==> (#[trigger] s[k]).0@ != e.0@,
    ensures
        ref_map_of(s.insert(i, e)) == ref_map_of(s).insert(e.0@, e.1@),
    decreases s.len(),
{
    let s2 = s.insert(i, e);
    if i == s.len() {
        assert(s2.drop_last() =~= s);
        assert(s2.last() == e);
    } else {
        assert(s2.last() == s.last());
        assert(s2.drop_last() =~= s.drop_last().insert(i, e));
        lemma_ref_map_insert(s.drop_last(), i, e);
        assert(s.last().0@ != e.0@);
        assert(ref_map_of(s2) =~= ref_map_of(s).insert(e.0@, e.1@));
    }
}

/// Re-pointing an existing name in the list overwrites it in the map.
proof fn lemma_ref_map_update(s: Seq<(Vec<u8>, RefTarget)>, i: int, e: (Vec<u8>, RefTarget))
    requires
        0 <= i < s.len(),
        s[i].0@ == e.0@,
        forall|k: int| 0 <= k < s.len() && k != i ==> (#[trigger] s[k]).0@ != e.0@,
    ensures
        ref_map_of(s.update(i, e)) == ref_map_of(s).insert(e.0@, e.1@),
    decreases s.len(),
{
    let s2 = s.update(i, e);
    if i == s.len() - 1 {
        assert(s2.drop_last() =~= s.drop_last());
        assert(s2.last() == e);
        assert(ref_map_of(s2) =~= ref_map_of(s).insert(e.0@, e.1@));
    } else {
        assert(s2.last() == s.last());
        assert(s2.drop_last() =~= s.drop_last().update(i, e));
        lemma_ref_map_update(s.drop_last(), i, e);
        assert(s.last().0@ != e.0@);
        assert(ref_map_of(s2) =~= ref_map_of(s).insert(e.0@, e.1@));
    }
}

impl RefStore {
    /// Internal invariant: the list is strictly sorted by name.
    pub closed spec fn wf(&self) -> bool {
        forall|i: int, j: int| 0 <= i < j < self.refs@.len()
            ==> bytes_lt((#[trigger] self.refs@[i]).0@, (#[trigger] self.refs@[j]).0@)
    }

    proof fn lemma_names_distinct(&self)
        requires
            self.wf(),
        ensures
            forall|i: int, j: int| 0 <= i < self.refs@.len() && 0 <= j < self.refs@.len()
                && i != j ==> (#[trigger] self.refs@[i]).0@ != (#[trigger] self.refs@[j]).0@,
    {
        assert forall|i: int, j: int| 0 <= i < self.refs@.len() && 0 <= j < self.refs@.len()
            && i != j implies (#[trigger] self.refs@[i]).0@ != (#[trigger] self.refs@[j]).0@ by {
            if i < j {
                lemma_bytes_lt_irrefl(self.refs@[i].0@);
            } else {
                lemma_bytes_lt_irrefl(self.refs@[j].0@);
            }
        }
    }

    /// Creates an empty reference store whose HEAD is attached to the
    /// given (still unborn) default branch.
    pub fn new(default_branch: Vec<u8>) -> (r: RefStore)
        ensures
            r@.refs == Map::<Seq<u8>, RefTargetV>::empty(),
            r@.head == (HeadV::Attached { name: default_branch@ }),
            r.wf(),
    {
        RefStore { refs: Vec::new(), head: Head::Attached { name: default_branch } }
    }

    /// The current HEAD state.
    pub fn head(&self) -> (r: &Head)
        ensures
            r@ == self@.head,
    {
        &self.head
    }

    /// Moves HEAD unconditionally: HEAD is single-writer per checkout
    /// context.
    pub fn set_head(&mut self, h: Head)
        requires
            old(self).wf(),
        ensures
            final(self).wf(),
            final(self)@.head == h@,
            final(self)@.refs == old(self)@.refs,
    {
        self.head = h;
    }

    /// Looks a name up, returning its index in the sorted list.
    fn find(&self, name: &Vec<u8>) -> (r: Option<usize>)
        requires
            self.wf(),
        ensures
            match r {
                Some(i) => {
                    &&& i < self.refs@.len()
                    &&& self.refs@[i as int].0@ == name@
                    &&& self@.refs.contains_key(name@)
                    &&& self@.refs[name@] == self.refs@[i as int].1@
                },
                None => !self@.refs.contains_key(name@),
            },
    {
        let mut i: usize = 0;
        while i < self.refs.len()
            invariant
                self.wf(),
                0 <= i <= self.refs@.len(),
                forall|k: int| 0 <= k < i ==> (#[trigger] self.refs@[k]).0@ != name@,
            decreases self.refs@.len() - i,
        {
            if bytes_eq(&self.refs[i].0, name) {
                proof {
                    self.lemma_names_distinct();
                    lemma_ref_map_lookup(self.refs@, i as int);
                }
                return Some(i);
            }
            i = i + 1;
        }
        proof {
            lemma_ref_map_domain(self.refs@);
        }
        None
    }

    /// Resolves a name to an identifier, following at most one
    /// symbolic hop; a longer chain is reported as a cycle.
    pub fn resolve(&self, name: &Vec<u8>) -> (r: Result<Oid, GitError>)
        requires
            self.wf(),
        ensures
            r == spec_resolve(self@.refs, name@),
    {
        match self.find(name) {
            None => Err(GitError::RefNotFound),
            Some(i) => match &self.refs[i].1 {
                RefTarget::Direct(o) => Ok(*o),
                RefTarget::Symbolic(n2) => match self.find(n2) {
                    None => Err(GitError::RefNotFound),
                    Some(j) => match &self.refs[j].1 {
                        RefTarget::Direct(o) => Ok(*o),
                        RefTarget::Symbolic(_) => Err(GitError::RefCycle),
                    },
                },
            },
        }
    }

    /// Resolves HEAD: a detached HEAD is its commit; an attached HEAD
    /// resolves its branch name, and an unborn branch reports
    /// `RefNotFound`.
    pub fn resolve_head(&self) -> (r: Result<Oid, GitError>)
        requires
            self.wf(),
        ensures
            match self@.head {
                HeadV::Detached { oid } => r == Ok::<Oid, GitError>(oid),
                HeadV::Attached { name } => r == spec_resolve(self@.refs, name),
            },
    {
        match &self.head {
            Head::Detached { oid } => Ok(*oid),
            Head::Attached { name } => self.resolve(name),
        }
    }

    /// Atomic compare-and-swap update of one reference: the sole
    /// primitive through which branches, tags and remote-tracking
    /// references move.  On a conflict nothing is mutated.
    pub fn update(&mut self, name: &Vec<u8>, expected_old: Option<Oid>, new: Oid)
        -> (r: Result<(), GitError>)
        requires
            old(self).wf(),
        ensures
            final(self).wf(),
            final(self)@.head == old(self)@.head,
            match r {
                Ok(()) => {
                    &&& cas_ok(old(self)@.refs, name@, expected_old)
                    &&& final(self)@.refs
                        == old(self)@.refs.insert(name@, RefTargetV::Direct(new))
                },
                Err(e) => {
                    &&& e == GitError::RefConflict
                    &&& !cas_ok(old(self)@.refs, name@, expected_old)
                    &&& final(self)@ == old(self)@
                },
            },
    {
        proof {
            self.lemma_names_distinct();
        }
        let ghost s0 = self.refs@;
        let mut i: usize = 0;
        while i < self.refs.len() && bytes_lt_exec(&self.refs[i].0, name)
            invariant
                self.wf(),
                self.refs@ == s0,
                0 <= i <= self.refs@.len(),
                forall|k: int| 0 <= k < i ==> bytes_lt((#[trigger] self.refs@[k]).0@, name@),
            decreases self.refs@.len() - i,
        {
            i = i + 1;
        }
        let found = i < self.refs.len() && bytes_eq(&self.refs[i].0, name);
        proof {
            if found {
                self.lemma_names_distinct();
                lemma_ref_map_lookup(self.refs@, i as int);
            } else {
                lemma_ref_map_domain(self.refs@);
                assert forall|k: int| 0 <= k < self.refs@.len()
                    implies (#[trigger] self.refs@[k]).0@ != name@ by {
                    if k < i {
                        lemma_bytes_lt_irrefl(name@);
                        if self.refs@[k].0@ == name@ {
                            assert(bytes_lt(name@, name@));
                        }
                    } else if k == i {
                    } else {
                        lemma_bytes_lt_trichotomy(self.refs@[i as int].0@, name@);
                        if self.refs@[k].0@ == name@ {
                            assert(bytes_lt(name@, self.refs@[i as int].0@));
                            assert(bytes_lt(self.refs@[i as int].0@, self.refs@[k].0@));
                            lemma_bytes_lt_trans(name@, self.refs@[i as int].0@,
                                self.refs@[k].0@);
                            lemma_bytes_lt_irrefl(name@);
                        }
                    }
                }
            }
        }
        match expected_old {
            None => {
                if found {
                    return Err(GitError::RefConflict);
                }
                let entry = (copy_bytes(name), RefTarget::Direct(new));
                proof {
                    lemma_ref_map_insert(self.refs@, i as int, entry);
                    lemma_bytes_lt_trichotomy(
                        if i < self.refs@.len() { self.refs@[i as int].0@ } else { name@ },
                        name@);
                }
                self.refs.insert(i, entry);
                proof {
                    let s2 = self.refs@;
                    assert forall|p: int, q: int| 0 <= p < q < s2.len()
                        implies bytes_lt((#[trigger] s2[p]).0@, (#[trigger] s2[q]).0@) by {
                        if p < i && q == i {
                        } else if p == i && q > i {
                            if !bytes_lt(name@, s2[q].0@) {
                                lemma_bytes_lt_trichotomy(name@, s2[q].0@);
                                if name@ == s2[q].0@ {
                                    assert(s0[q - 1].0@ == name@);
                                } else {
                                    assert(bytes_lt(s2[q].0@, name@));
                                    assert(bytes_lt(s0[q - 1].0@, name@));
                                    if q - 1 > i {
                                        assert(bytes_lt(s0[i as int].0@, s0[q - 1].0@));
                                    }
                                    lemma_bytes_lt_trichotomy(s0[i as int].0@, name@);
                                    assert(bytes_lt(name@, s0[i as int].0@));
                                    if q - 1 == i {
                                        lemma_bytes_lt_trans(name@, s0[i as int].0@, name@);
                                    } else {
                                        lemma_bytes_lt_trans(name@, s0[i as int].0@,
                                            s0[q - 1].0@);
                                        lemma_bytes_lt_trans(name@, s0[q - 1].0@, name@);
                                    }
                                    lemma_bytes_lt_irrefl(name@);
                                }
                            }
                        } else if p < i && q > i {
                            assert(bytes_lt(s0[p].0@, s0[q - 1].0@));
                        } else if p > i && q > i {
                            assert(bytes_lt(s0[p - 1].0@, s0[q - 1].0@));
                        }
                    }
                }
                Ok(())
            },
            Some(x) => {
                if !found {
                    return Err(GitError::RefConflict);
                }
                let matches_current = match &self.refs[i].1 {
                    RefTarget::Direct(o) => o.hash == x.hash && o.sum == x.sum && o.len == x.len,
                    RefTarget::Symbolic(_) => false,
                };
                if !matches_current {
                    return Err(GitError::RefConflict);
                }
                let entry = (copy_bytes(name), RefTarget::Direct(new));
                proof {
                    self.lemma_names_distinct();
                    lemma_ref_map_update(self.refs@, i as int, entry);
                }
                self.refs.set(i, entry);
                proof {
                    let s2 = self.refs@;
                    assert forall|p: int, q: int| 0 <= p < q < s2.len()
                        implies bytes_lt((#[trigger] s2[p]).0@, (#[trigger] s2[q]).0@) by {
                        assert(bytes_lt(s0[p].0@, s0[q].0@));
                    }
                }
                Ok(())
            },
        }
    }

    /// Enumerates the direct references under a namespace prefix,
    /// sorted by name: the advertisement a transfer session sends.
    pub fn list(&self, prefix: &Vec<u8>) -> (r: Vec<(Vec<u8>, Oid)>)
        requires
            self.wf(),
        ensures
            forall|p: int, q: int| 0 <= p < q < r@.len()
                ==> bytes_lt((#[trigger] r@[p]).0@, (#[trigger] r@[q]).0@),
            forall|p: int| 0 <= p < r@.len() ==> {
                &&& starts_with((#[trigger] r@[p]).0@, prefix@)
                &&& self@.refs.contains_key(r@[p].0@)
                &&& self@.refs[r@[p].0@] == RefTargetV::Direct(r@[p].1)
            },
            forall|n: Seq<u8>| #[trigger] self@.refs.contains_key(n) && starts_with(n, prefix@)
                && self@.refs[n] is Direct
                ==> exists|p: int| 0 <= p < r@.len() && (#[trigger] r@[p]).0@ == n,
    {
        proof {
            self.lemma_names_distinct();
            lemma_ref_map_domain(self.refs@);
        }
        let mut out: Vec<(Vec<u8>, Oid)> = Vec::new();
        let mut i: usize = 0;
        let ghost mut last_src: int = -1;
        while i < self.refs.len()
            invariant
                self.wf(),
                0 <= i <= self.refs@.len(),
                out@.len() > 0 ==> 0 <= last_src < i
                    && (self.refs@[last_src]).0@ == out@.last().0@,
                forall|p: int, q: int| 0 <= p < q < out@.len()
                    ==> bytes_lt((#[trigger] out@[p]).0@, (#[trigger] out@[q]).0@),
                forall|p: int| 0 <= p < out@.len() ==> {
                    &&& starts_with((#[trigger] out@[p]).0@, prefix@)
                    &&& exists|k: int| 0 <= k < i && (#[trigger] self.refs@[k]).0@ == out@[p].0@
                        && self.refs@[k].1@ == RefTargetV::Direct(out@[p].1)
                },
                forall|k: int| 0 <= k < i && starts_with((#[trigger] self.refs@[k]).0@, prefix@)
                    && self.refs@[k].1@ is Direct
                    ==> exists|p: int| 0 <= p < out@.len()
                        && (#[trigger] out@[p]).0@ == self.refs@[k].0@,
            decreases self.refs@.len() - i,
        {
            let matches_prefix = bytes_starts_with(&self.refs[i].0, prefix);
            if matches_prefix {
                match &self.refs[i].1 {
                    RefTarget::Direct(o) => {
                        let ghost prev = out@;
                        out.push((copy_bytes(&self.refs[i].0), *o));
                        proof {
                            assert(out@.last().0@ == self.refs@[i as int].0@);
                            assert forall|p: int, q: int| 0 <= p < q < out@.len()
                                implies bytes_lt((#[trigger] out@[p]).0@,
                                    (#[trigger] out@[q]).0@) by {
                                if q == out@.len() - 1 {
                                    if prev.len() > 0 {
                                        assert(bytes_lt(self.refs@[last_src].0@,
                                            self.refs@[i as int].0@));
                                        if p < prev.len() - 1 {
                                            assert(bytes_lt(out@[p].0@, prev.last().0@));
                                            lemma_bytes_lt_trans(out@[p].0@,
                                                prev.last().0@, out@[q].0@);
                                        }
                                    }
                                } else {
                                    assert(bytes_lt(prev[p].0@, prev[q].0@));
                                }
                            }
                            last_src = i as int;
                            assert forall|k: int| 0 <= k < i + 1
                                && starts_with((#[trigger] self.refs@[k]).0@, prefix@)
                                && self.refs@[k].1@ is Direct
                                implies exists|p: int| 0 <= p < out@.len()
                                    && (#[trigger] out@[p]).0@ == self.refs@[k].0@ by {
                                if k == i as int {
                                    assert(out@[out@.len() - 1].0@ == self.refs@[k].0@);
                                } else {
                                    let p = choose|p: int| 0 <= p < prev.len()
                                        && (#[trigger] prev[p]).0@ == self.refs@[k].0@;
                                    assert(out@[p] == prev[p]);
                                }
                            }
                        }
                    },
                    RefTarget::Symbolic(_) => {},
                }
            }
            i = i + 1;
        }
        proof {
            assert forall|p: int| 0 <= p < out@.len()
                implies self@.refs.contains_key((#[trigger] out@[p]).0@)
                    && self@.refs[out@[p].0@] == RefTargetV::Direct(out@[p].1) by {
                let k = choose|k: int| 0 <= k < self.refs@.len()
                    && (#[trigger] self.refs@[k]).0@ == out@[p].0@
                    && self.refs@[k].1@ == RefTargetV::Direct(out@[p].1);
                self.lemma_names_distinct();
                lemma_ref_map_lookup(self.refs@, k);
            }
            assert forall|n: Seq<u8>| #[trigger] self@.refs.contains_key(n)
                && starts_with(n, prefix@) && self@.refs[n] is Direct
                implies exists|p: int| 0 <= p < out@.len() && (#[trigger] out@[p]).0@ == n by {
                let k = choose|k: int| 0 <= k < self.refs@.len()
                    && (#[trigger] self.refs@[k]).0@ == n;
                self.lemma_names_distinct();
                lemma_ref_map_lookup(self.refs@, k);
                assert(self.refs@[k].1@ == self@.refs[n]);
            }
        }
        out
    }
}

/// The compare-and-swap race: when two updates race on one name with
/// the same expectation, and the winner installs a value other than
/// the expected one, exactly one succeeds, the loser fails with
/// `RefConflict`, and the stored value is the winner's.
pub proof fn lemma_cas_race(
    m0: Map<Seq<u8>, RefTargetV>,
    name: Seq<u8>,
    expected_old: Option<Oid>,
    winner: Oid,
    loser: Oid,
)
    requires
        cas_ok(m0, name, expected_old),
        expected_old != Some(winner),
    ensures
        !cas_ok(m0.insert(name, RefTargetV::Direct(winner)), name, expected_old),
        m0.insert(name, RefTargetV::Direct(winner))[name] == RefTargetV::Direct(winner),
{
}

} // verus!
