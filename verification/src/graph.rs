//! The commit graph: traversal, ancestry and merge-base queries.
//!
//! The graph is never materialized: it is the store's map, traversed
//! from tip identifiers.  Every executable traversal is proved equal to
//! [`traverse`], a deterministic specification-level walk (FIFO
//! frontier, successors in declared order, each object visited once),
//! so repeated queries on the same store always agree.

use vstd::prelude::*;
use crate::oid::Oid;
use crate::object::{GitObject, GitObjectV, TreeEntry, TreeEntryV};
use crate::store::ObjectStore;

verus! {

/// Which edges a traversal follows.
#[derive(Clone, Copy, PartialEq, Eq, Structural, Debug)]
pub enum EdgeMode {
    /// Only commit-to-parent edges: the ancestry relation.
    Parents,
    /// Every containment edge: commit to tree and parents, tree to
    /// children, tag to target.
    Full,
}

/// The successor identifiers of one object under a mode, in declared
/// order.
pub open spec fn succs_of(mode: EdgeMode, o: GitObjectV) -> Seq<Oid> {
    match mode {
        EdgeMode::Parents => match o {
            GitObjectV::Commit { parents, .. } => parents,
            _ => Seq::empty(),
        },
        EdgeMode::Full => match o {
            GitObjectV::Blob { .. } => Seq::empty(),
            GitObjectV::Tree { entries } => entries.map_values(|e: TreeEntryV| e.child),
            GitObjectV::Commit { tree, parents, .. } => seq![tree] + parents,
            GitObjectV::Tag { target, .. } => seq![target],
        },
    }
}

/// A traversal state is sound when the visited list has no duplicates
/// and mentions only stored objects.
pub open spec fn visited_ok(m: Map<Oid, GitObjectV>, visited: Seq<Oid>) -> bool {
    &&& visited.no_duplicates()
    &&& forall|i: int| 0 <= i < visited.len() ==> m.contains_key(#[trigger] visited[i])
}

pub proof fn lemma_visited_bound(m: Map<Oid, GitObjectV>, visited: Seq<Oid>)
    requires
        m.dom().finite(),
        visited_ok(m, visited),
    ensures
        visited.len() <= m.dom().len(),
{
    visited.unique_seq_to_set();
    assert forall|x: Oid| visited.to_set().contains(x) implies m.dom().contains(x) by {
        assert(visited.contains(x));
        let i = choose|i: int| 0 <= i < visited.len() && visited[i] == x;
        assert(m.contains_key(visited[i]));
    }
    vstd::set_lib::lemma_len_subset(visited.to_set(), m.dom());
}

/// The deterministic walk: takes the next frontier identifier; a
/// stored, unvisited one is appended to the visited list and its
/// successors join the back of the frontier; any other is skipped.
pub open spec fn traverse(
    m: Map<Oid, GitObjectV>,
    work: Seq<Oid>,
    visited: Seq<Oid>,
    mode: EdgeMode,
) -> Seq<Oid>
    decreases m.dom().len() - visited.len(), work.len(),
    when m.dom().finite() && visited_ok(m, visited)
    via traverse_decreases
{
    if work.len() == 0 {
        visited
    } else {
        let x = work.first();
        if m.contains_key(x) && !visited.contains(x) {
            traverse(m, work.skip(1) + succs_of(mode, m[x]), visited.push(x), mode)
        } else {
            traverse(m, work.skip(1), visited, mode)
        }
    }
}

proof fn lemma_push_fresh_no_duplicates(visited: Seq<Oid>, x: Oid)
    requires
        visited.no_duplicates(),
        !visited.contains(x),
    ensures
        visited.push(x).no_duplicates(),
{
    let v2 = visited.push(x);
    assert forall|i: int, j: int| 0 <= i < j < v2.len() implies v2[i] != v2[j] by {
        if j == v2.len() - 1 {
            assert(visited.contains(visited[i]));
        }
    }
}

#[via_fn]
proof fn traverse_decreases(m: Map<Oid, GitObjectV>, work: Seq<Oid>, visited: Seq<Oid>,
    mode: EdgeMode)
{
    if work.len() != 0 {
        let x = work.first();
        if m.contains_key(x) && !visited.contains(x) {
            lemma_push_fresh_no_duplicates(visited, x);
            lemma_visited_bound(m, visited.push(x));
        } else {
            lemma_visited_bound(m, visited);
        }
    }
}

/// The identifiers a traversal from `tips` visits, in visit order.
pub open spec fn reached_from(m: Map<Oid, GitObjectV>, tips: Seq<Oid>, mode: EdgeMode)
    -> Seq<Oid>
{
    traverse(m, tips, Seq::empty(), mode)
}

/// `a` is an ancestor of `b`: equal to it, or visited by the parent
/// walk from `b`.
pub open spec fn spec_is_ancestor(m: Map<Oid, GitObjectV>, a: Oid, b: Oid) -> bool {
    a == b || reached_from(m, seq![b], EdgeMode::Parents).contains(a)
}

/// A branch pointer may move from `old_tip` to `new_tip` without a
/// merge commit exactly when `old_tip` is an ancestor of `new_tip`.
pub open spec fn spec_fast_forward(m: Map<Oid, GitObjectV>, old_tip: Oid, new_tip: Oid)
    -> bool
{
    spec_is_ancestor(m, old_tip, new_tip)
}

/// The first candidate in `cands` that is an ancestor of `a`.
pub open spec fn first_common(m: Map<Oid, GitObjectV>, cands: Seq<Oid>, a: Oid)
    -> Option<Oid>
    decreases cands.len(),
{
    if cands.len() == 0 {
        None
    } else if spec_is_ancestor(m, cands.first(), a) {
        Some(cands.first())
    } else {
        first_common(m, cands.skip(1), a)
    }
}

/// The merge base of `a` and `b`: walking the ancestors of `b` in
/// deterministic order (FIFO frontier, parents in declared order), the
/// first one that is also an ancestor-or-self of `a`.
pub open spec fn spec_merge_base(m: Map<Oid, GitObjectV>, a: Oid, b: Oid) -> Option<Oid> {
    first_common(m, reached_from(m, seq![b], EdgeMode::Parents), a)
}

/// Tests whether an identifier occurs in a list.
pub fn oid_in(v: &Vec<Oid>, x: &Oid) -> (r: bool)
    ensures
        r == v@.contains(*x),
{
    let mut i: usize = 0;
    while i < v.len()
        invariant
            0 <= i <= v@.len(),
            forall|k: int| 0 <= k < i ==> v@[k] != *x,
        decreases v@.len() - i,
    {
        if v[i].hash == x.hash && v[i].sum == x.sum && v[i].len == x.len {
            return true;
        }
        i = i + 1;
    }
    false
}

/// Collects the successor identifiers of an object under a mode.
pub fn successors(o: &GitObject, mode: EdgeMode) -> (r: Vec<Oid>)
    ensures
        r@ == succs_of(mode, o@),
{
    let mut out: Vec<Oid> = Vec::new();
    match mode {
        EdgeMode::Parents => {
            match o {
                GitObject::Commit { parents, .. } => {
                    let mut i: usize = 0;
                    while i < parents.len()
                        invariant
                            0 <= i <= parents@.len(),
                            out@ =~= parents@.take(i as int),
                        decreases parents@.len() - i,
                    {
                        out.push(parents[i]);
                        proof {
                            assert(parents@.take(i + 1)
                                =~= parents@.take(i as int).push(parents@[i as int]));
                        }
                        i = i + 1;
                    }
                    proof {
                        assert(parents@.take(parents@.len() as int) =~= parents@);
                    }
                },
                _ => {},
            }
        },
        EdgeMode::Full => {
            match o {
                GitObject::Blob { .. } => {},
                GitObject::Tree { entries } => {
                    let ghost cs = entries@.map_values(|e: TreeEntry| e@)
                        .map_values(|e: TreeEntryV| e.child);
                    let mut i: usize = 0;
                    while i < entries.len()
                        invariant
                            0 <= i <= entries@.len(),
                            out@ =~= entries@.map_values(|e: TreeEntry| e@)
                                .map_values(|e: TreeEntryV| e.child).take(i as int),
                        decreases entries@.len() - i,
                    {
                        out.push(entries[i].child);
                        proof {
                            let cs = entries@.map_values(|e: TreeEntry| e@)
                                .map_values(|e: TreeEntryV| e.child);
                            assert(cs.take(i + 1) =~= cs.take(i as int).push(cs[i as int]));
                        }
                        i = i + 1;
                    }
                    proof {
                        let cs = entries@.map_values(|e: TreeEntry| e@)
                            .map_values(|e: TreeEntryV| e.child);
                        assert(cs.take(cs.len() as int) =~= cs);
                    }
                },
                GitObject::Commit { tree, parents, .. } => {
                    out.push(*tree);
                    let ghost full = seq![*tree] + parents@;
                    let mut i: usize = 0;
                    while i < parents.len()
                        invariant
                            0 <= i <= parents@.len(),
                            out@ =~= (seq![*tree] + parents@).take(1 + i),
                        decreases parents@.len() - i,
                    {
                        out.push(parents[i]);
                        proof {
                            let full = seq![*tree] + parents@;
                            assert(full.take(1 + i + 1)
                                =~= full.take(1 + i).push(full[1 + i]));
                        }
                        i = i + 1;
                    }
                    proof {
                        let full = seq![*tree] + parents@;
                        assert(full.take(full.len() as int) =~= full);
                    }
                },
                GitObject::Tag { target, .. } => {
                    out.push(*target);
                    proof {
                        assert(out@ =~= seq![*target]);
                    }
                },
            }
        },
    }
    out
}

/// Walks the graph from `tips`, visiting each stored object exactly
/// once, and returns the visited identifiers in visit order.
pub fn walk(store: &ObjectStore, tips: &Vec<Oid>, mode: EdgeMode) -> (r: Vec<Oid>)
    requires
        store.wf(),
    ensures
        r@ == reached_from(store@, tips@, mode),
        visited_ok(store@, r@),
{
    proof {
        store.lemma_content_addressed();
    }
    let mut work: Vec<Oid> = Vec::new();
    let mut i: usize = 0;
    while i < tips.len()
        invariant
            0 <= i <= tips@.len(),
            work@ =~= tips@.take(i as int),
        decreases tips@.len() - i,
    {
        work.push(tips[i]);
        proof {
            assert(tips@.take(i + 1) =~= tips@.take(i as int).push(tips@[i as int]));
        }
        i = i + 1;
    }
    proof {
        assert(tips@.take(tips@.len() as int) =~= tips@);
    }
    let mut visited: Vec<Oid> = Vec::new();
    let mut idx: usize = 0;
    while idx < work.len()
        invariant
            store.wf(),
            store@.dom().finite(),
            0 <= idx <= work@.len(),
            visited_ok(store@, visited@),
            traverse(store@, work@.skip(idx as int), visited@, mode)
                == reached_from(store@, tips@, mode),
        decreases store@.dom().len() - visited@.len(), work@.len() - idx,
    {
        let x = work[idx];
        proof {
            assert(work@.skip(idx as int).first() == work@[idx as int]);
        }
        match store.get(&x) {
            Ok(obj) => {
                if !oid_in(&visited, &x) {
                    let succ = successors(obj, mode);
                    let ghost old_work = work@;
                    let ghost old_visited = visited@;
                    let mut j: usize = 0;
                    while j < succ.len()
                        invariant
                            0 <= j <= succ@.len(),
                            work@ =~= old_work + succ@.take(j as int),
                        decreases succ@.len() - j,
                    {
                        work.push(succ[j]);
                        proof {
                            assert(succ@.take(j + 1)
                                =~= succ@.take(j as int).push(succ@[j as int]));
                        }
                        j = j + 1;
                    }
                    proof {
                        assert(succ@.take(succ@.len() as int) =~= succ@);
                    }
                    visited.push(x);
                    proof {
                        lemma_push_fresh_no_duplicates(old_visited, x);
                        lemma_visited_bound(store@, visited@);
                        assert(old_work.skip(idx as int).skip(1)
                            =~= old_work.skip(idx + 1));
                        assert((old_work + succ@).skip(idx + 1)
                            =~= old_work.skip(idx + 1) + succ@);
                    }
                } else {
                    proof {
                        assert(work@.skip(idx as int).skip(1) =~= work@.skip(idx + 1));
                    }
                }
            },
            Err(_) => {
                proof {
                    assert(work@.skip(idx as int).skip(1) =~= work@.skip(idx + 1));
                }
            },
        }
        idx = idx + 1;
    }
    proof {
        assert(work@.skip(work@.len() as int) =~= Seq::<Oid>::empty());
    }
    visited
}

impl ObjectStore {
    /// Traversal from the given tips following every containment edge,
    /// each stored object visited exactly once, in deterministic
    /// order; used to compute reachable sets for pack construction and
    /// negotiation.
    pub fn walk_reachable(&self, tips: &Vec<Oid>) -> (r: Vec<Oid>)
        requires
            self.wf(),
        ensures
            r@ == reached_from(self@, tips@, EdgeMode::Full),
            visited_ok(self@, r@),
    {
        walk(self, tips, EdgeMode::Full)
    }
}

/// True when `a` is reachable from `b` along parent edges, including
/// `a == b`.
pub fn is_ancestor(store: &ObjectStore, a: &Oid, b: &Oid) -> (r: bool)
    requires
        store.wf(),
    ensures
        r == spec_is_ancestor(store@, *a, *b),
{
    if a.hash == b.hash && a.sum == b.sum && a.len == b.len {
        return true;
    }
    let mut tips: Vec<Oid> = Vec::new();
    tips.push(*b);
    proof {
        assert(tips@ =~= seq![*b]);
    }
    let anc = walk(store, &tips, EdgeMode::Parents);
    oid_in(&anc, a)
}

/// True exactly when moving a branch from `old_tip` to `new_tip` needs
/// no merge commit: `old_tip` is an ancestor of `new_tip`.
pub fn fast_forward_possible(store: &ObjectStore, old_tip: &Oid, new_tip: &Oid) -> (r: bool)
    requires
        store.wf(),
    ensures
        r == spec_fast_forward(store@, *old_tip, *new_tip),
        r == spec_is_ancestor(store@, *old_tip, *new_tip),
{
    is_ancestor(store, old_tip, new_tip)
}

/// The merge base of `a` and `b` under the fixed deterministic policy
/// of [`spec_merge_base`], or `None` when they share no ancestor.
pub fn merge_base(store: &ObjectStore, a: &Oid, b: &Oid) -> (r: Option<Oid>)
    requires
        store.wf(),
    ensures
        r == spec_merge_base(store@, *a, *b),
{
    let mut tips: Vec<Oid> = Vec::new();
    tips.push(*b);
    proof {
        assert(tips@ =~= seq![*b]);
    }
    let cands = walk(store, &tips, EdgeMode::Parents);
    proof {
        assert(cands@.skip(0) =~= cands@);
    }
    let mut i: usize = 0;
    while i < cands.len()
        invariant
            store.wf(),
            0 <= i <= cands@.len(),
            first_common(store@, cands@.skip(i as int), *a)
                == spec_merge_base(store@, *a, *b),
        decreases cands@.len() - i,
    {
        proof {
            assert(cands@.skip(i as int).first() == cands@[i as int]);
        }
        if is_ancestor(store, &cands[i], a) {
            return Some(cands[i]);
        }
        proof {
            assert(cands@.skip(i as int).skip(1) =~= cands@.skip(i + 1));
        }
        i = i + 1;
    }
    proof {
        assert(cands@.skip(cands@.len() as int) =~= Seq::<Oid>::empty());
    }
    None
}

/// Merge-base determinism: two results computed for the same store and
/// the same tips always agree, criss-cross histories included.
pub proof fn lemma_merge_base_deterministic(
    m: Map<Oid, GitObjectV>,
    a: Oid,
    b: Oid,
    r1: Option<Oid>,
    r2: Option<Oid>,
)
    requires
        r1 == spec_merge_base(m, a, b),
        r2 == spec_merge_base(m, a, b),
    ensures
        r1 == r2,
{
}

/// Fast-forward is exactly ancestry: a branch may move without a merge
/// commit if and only if the old tip is an ancestor of the new one.
pub proof fn lemma_fast_forward_iff_ancestor(m: Map<Oid, GitObjectV>, old_tip: Oid,
    new_tip: Oid)
    ensures
        spec_fast_forward(m, old_tip, new_tip) <==> spec_is_ancestor(m, old_tip, new_tip),
{
}

} // verus!
