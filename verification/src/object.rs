//! The immutable object model: blobs, trees, commits and tags.
//!
//! Executable values carry `Vec<u8>` payloads; each type has a ghost
//! view over `Seq<u8>` that the contracts and the codec specification
//! speak of.

use vstd::prelude::*;
use crate::oid::Oid;

verus! {

/// The four object kinds of the data model.
#[derive(Clone, Copy, PartialEq, Eq, Structural, Debug)]
pub enum ObjectKind {
    Blob,
    Tree,
    Commit,
    Tag,
}

/// One directory entry of a tree: a mode, a name, and the child object.
#[derive(Clone, Debug)]
pub struct TreeEntry {
    pub mode: u32,
    pub name: Vec<u8>,
    pub child: Oid,
    pub kind: ObjectKind,
}

/// Ghost view of a tree entry.
#[verifier::ext_equal]
pub ghost struct TreeEntryV {
    pub mode: u32,
    pub name: Seq<u8>,
    pub child: Oid,
    pub kind: ObjectKind,
}

impl View for TreeEntry {
    type V = TreeEntryV;

    open spec fn view(&self) -> TreeEntryV {
        TreeEntryV { mode: self.mode, name: self.name@, child: self.child, kind: self.kind }
    }
}

/// An author or committer identity with its timestamp.
#[derive(Clone, Debug)]
pub struct Identity {
    pub name: Vec<u8>,
    pub timestamp: u64,
}

/// Ghost view of an identity.
#[verifier::ext_equal]
pub ghost struct IdentityV {
    pub name: Seq<u8>,
    pub timestamp: u64,
}

impl View for Identity {
    type V = IdentityV;

    open spec fn view(&self) -> IdentityV {
        IdentityV { name: self.name@, timestamp: self.timestamp }
    }
}

/// A Git object: the closed variant over the four kinds.
#[derive(Clone, Debug)]
pub enum GitObject {
    /// An opaque byte payload.
    Blob { data: Vec<u8> },
    /// An ordered sequence of entries, sorted by name.
    Tree { entries: Vec<TreeEntry> },
    /// A snapshot with its parents, identities and message.
    Commit {
        tree: Oid,
        parents: Vec<Oid>,
        author: Identity,
        committer: Identity,
        message: Vec<u8>,
        signature: Option<Vec<u8>>,
    },
    /// An annotated pointer at another object.
    Tag { target: Oid, target_kind: ObjectKind, tagger: Identity, message: Vec<u8> },
}

/// Ghost view of a Git object.
#[verifier::ext_equal]
pub ghost enum GitObjectV {
    Blob { data: Seq<u8> },
    Tree { entries: Seq<TreeEntryV> },
    Commit {
        tree: Oid,
        parents: Seq<Oid>,
        author: IdentityV,
        committer: IdentityV,
        message: Seq<u8>,
        signature: Option<Seq<u8>>,
    },
    Tag { target: Oid, target_kind: ObjectKind, tagger: IdentityV, message: Seq<u8> },
}

impl View for GitObject {
    type V = GitObjectV;

    open spec fn view(&self) -> GitObjectV {
        match self {
            GitObject::Blob { data } => GitObjectV::Blob { data: data@ },
            GitObject::Tree { entries } => GitObjectV::Tree {
                entries: entries@.map_values(|e: TreeEntry| e@),
            },
            GitObject::Commit { tree, parents, author, committer, message, signature } =>
                GitObjectV::Commit {
                    tree: *tree,
                    parents: parents@,
                    author: author@,
                    committer: committer@,
                    message: message@,
                    signature: match signature {
                        Some(s) => Some(s@),
                        None => None,
                    },
                },
            GitObject::Tag { target, target_kind, tagger, message } => GitObjectV::Tag {
                target: *target,
                target_kind: *target_kind,
                tagger: tagger@,
                message: message@,
            },
        }
    }
}

impl GitObject {
    /// The kind tag of this object.
    pub fn kind(&self) -> (r: ObjectKind)
        ensures
            r == self@.kind_of(),
    {
        match self {
            GitObject::Blob { .. } => ObjectKind::Blob,
            GitObject::Tree { .. } => ObjectKind::Tree,
            GitObject::Commit { .. } => ObjectKind::Commit,
            GitObject::Tag { .. } => ObjectKind::Tag,
        }
    }
}

impl GitObjectV {
    /// The kind tag of an object view.
    pub open spec fn kind_of(self) -> ObjectKind {
        match self {
            GitObjectV::Blob { .. } => ObjectKind::Blob,
            GitObjectV::Tree { .. } => ObjectKind::Tree,
            GitObjectV::Commit { .. } => ObjectKind::Commit,
            GitObjectV::Tag { .. } => ObjectKind::Tag,
        }
    }
}

/// Lexicographic order on byte strings: `a` strictly before `b`.
pub open spec fn bytes_lt(a: Seq<u8>, b: Seq<u8>) -> bool
    decreases a.len(),
{
    if b.len() == 0 {
        false
    } else if a.len() == 0 {
        true
    } else if a.first() != b.first() {
        a.first() < b.first()
    } else {
        bytes_lt(a.skip(1), b.skip(1))
    }
}

/// `p` is a prefix of `s`.
pub open spec fn starts_with(s: Seq<u8>, p: Seq<u8>) -> bool {
    p.len() <= s.len() && s.take(p.len() as int) == p
}

pub proof fn lemma_bytes_lt_irrefl(a: Seq<u8>)
    ensures
        !bytes_lt(a, a),
    decreases a.len(),
{
    if a.len() > 0 {
        lemma_bytes_lt_irrefl(a.skip(1));
    }
}

pub proof fn lemma_bytes_lt_trichotomy(a: Seq<u8>, b: Seq<u8>)
    ensures
        bytes_lt(a, b) || a == b || bytes_lt(b, a),
    decreases a.len(),
{
    if a.len() == 0 || b.len() == 0 {
        if a.len() == b.len() {
            assert(a =~= b);
        }
    } else if a.first() == b.first() {
        lemma_bytes_lt_trichotomy(a.skip(1), b.skip(1));
        if a.skip(1) == b.skip(1) {
            assert forall|i: int| 0 <= i < a.len() implies a[i] == b[i] by {
                if i > 0 {
                    assert(a[i] == a.skip(1)[i - 1]);
                    assert(b[i] == b.skip(1)[i - 1]);
                } else {
                    assert(a[0] == a.first());
                    assert(b[0] == b.first());
                }
            }
            assert(a.skip(1).len() == b.skip(1).len());
            assert(a.len() == b.len());
            assert(a =~= b);
        }
    }
}

pub proof fn lemma_bytes_lt_trans(a: Seq<u8>, b: Seq<u8>, c: Seq<u8>)
    requires
        bytes_lt(a, b),
        bytes_lt(b, c),
    ensures
        bytes_lt(a, c),
    decreases a.len(),
{
    if c.len() > 0 && a.len() > 0 && b.len() > 0 {
        if a.first() == b.first() && b.first() == c.first() {
            lemma_bytes_lt_trans(a.skip(1), b.skip(1), c.skip(1));
        }
    }
}

/// Byte-string equality test.
pub fn bytes_eq(a: &Vec<u8>, b: &Vec<u8>) -> (r: bool)
    ensures
        r == (a@ == b@),
{
    if a.len() != b.len() {
        proof {
            assert(a@ != b@);
        }
        return false;
    }
    let mut i: usize = 0;
    while i < a.len()
        invariant
            0 <= i <= a@.len(),
            a@.len() == b@.len(),
            forall|k: int| 0 <= k < i ==> a@[k] == b@[k],
        decreases a@.len() - i,
    {
        if a[i] != b[i] {
            proof {
                assert(a@ != b@);
            }
            return false;
        }
        i = i + 1;
    }
    proof {
        assert(a@ =~= b@);
    }
    true
}

/// Lexicographic strict-order test, mirroring [`bytes_lt`].
pub fn bytes_lt_exec(a: &Vec<u8>, b: &Vec<u8>) -> (r: bool)
    ensures
        r == bytes_lt(a@, b@),
{
    proof {
        assert(a@.skip(0) =~= a@);
        assert(b@.skip(0) =~= b@);
    }
    let mut i: usize = 0;
    while i < a.len() && i < b.len()
        invariant
            0 <= i <= a@.len(),
            0 <= i <= b@.len(),
            bytes_lt(a@, b@) == bytes_lt(a@.skip(i as int), b@.skip(i as int)),
        decreases a@.len() - i,
    {
        proof {
            assert(a@.skip(i as int).first() == a@[i as int]);
            assert(b@.skip(i as int).first() == b@[i as int]);
        }
        if a[i] != b[i] {
            return a[i] < b[i];
        }
        proof {
            assert(a@.skip(i as int).skip(1) =~= a@.skip(i + 1));
            assert(b@.skip(i as int).skip(1) =~= b@.skip(i + 1));
        }
        i = i + 1;
    }
    proof {
        if i < b.len() {
            assert(b@.skip(i as int).len() > 0);
        }
    }
    i < b.len()
}

/// Prefix test, mirroring [`starts_with`].
pub fn bytes_starts_with(s: &Vec<u8>, p: &Vec<u8>) -> (r: bool)
    ensures
        r == starts_with(s@, p@),
{
    if p.len() > s.len() {
        return false;
    }
    let mut i: usize = 0;
    while i < p.len()
        invariant
            0 <= i <= p@.len(),
            p@.len() <= s@.len(),
            forall|k: int| 0 <= k < i ==> s@[k] == p@[k],
        decreases p@.len() - i,
    {
        if s[i] != p[i] {
            proof {
                assert(s@.take(p@.len() as int)[i as int] == s@[i as int]);
            }
            return false;
        }
        i = i + 1;
    }
    proof {
        assert(s@.take(p@.len() as int) =~= p@);
    }
    true
}

/// Copies a byte string.
pub fn copy_bytes(v: &Vec<u8>) -> (r: Vec<u8>)
    ensures
        r@ == v@,
{
    let mut out: Vec<u8> = Vec::new();
    let mut i: usize = 0;
    while i < v.len()
        invariant
            0 <= i <= v@.len(),
            out@ =~= v@.take(i as int),
        decreases v@.len() - i,
    {
        out.push(v[i]);
        proof {
            assert(v@.take(i + 1) =~= v@.take(i as int).push(v@[i as int]));
        }
        i = i + 1;
    }
    proof {
        assert(v@.take(v@.len() as int) =~= v@);
    }
    out
}

/// Well-formedness of a tree entry view: its name fits the codec bounds.
pub open spec fn wf_entry(e: TreeEntryV) -> bool {
    e.name.len() <= crate::oid::max_content_len()
}

/// Well-formedness of an identity view.
pub open spec fn wf_ident(i: IdentityV) -> bool {
    i.name.len() <= crate::oid::max_content_len()
}

/// Strict sortedness of tree entries by name: the directory invariant
/// that tree-building operations maintain.
pub open spec fn tree_entries_sorted(entries: Seq<TreeEntryV>) -> bool {
    forall|i: int, j: int|
        0 <= i < j < entries.len() ==> bytes_lt(entries[i].name, entries[j].name)
}

/// Well-formedness of an object view: every variable-length part fits
/// the codec's 32-bit length fields.
pub open spec fn wf_object(o: GitObjectV) -> bool {
    match o {
        GitObjectV::Blob { data } => data.len() <= crate::oid::max_content_len(),
        GitObjectV::Tree { entries } => {
            &&& entries.len() <= crate::oid::max_content_len()
            &&& forall|i: int| 0 <= i < entries.len() ==> wf_entry(#[trigger] entries[i])
        },
        GitObjectV::Commit { parents, author, committer, message, signature, .. } => {
            &&& parents.len() <= crate::oid::max_content_len()
            &&& wf_ident(author)
            &&& wf_ident(committer)
            &&& message.len() <= crate::oid::max_content_len()
            &&& match signature {
                Some(s) => s.len() <= crate::oid::max_content_len(),
                None => true,
            }
        },
        GitObjectV::Tag { tagger, message, .. } => {
            &&& wf_ident(tagger)
            &&& message.len() <= crate::oid::max_content_len()
        },
    }
}

} // verus!
