use vstd::prelude::*;

verus! {

/// An immutable revision node: an opaque payload and an optional parent
/// link, given as an index into the repository's node arena.
pub struct Commit {
    pub payload: String,
    pub parent: Option<usize>,
}

impl Commit {
    /// A child revision whose parent is the node at arena index `parent`.
    pub fn new(payload: String, parent: usize) -> (c: Commit)
        ensures
            c.payload == payload,
            c.parent == Some(parent),
    {
        Commit { payload, parent: Some(parent) }
    }

    /// A root revision with no parent.
    pub fn new_tree(payload: String) -> (c: Commit)
        ensures
            c.payload == payload,
            c.parent is None,
    {
        Commit { payload, parent: None }
    }
}

/// Parent links point strictly downward in the arena: a node's parent was
/// created before it. Every ancestry chain is therefore finite and acyclic.
pub open spec fn parents_decreasing(cs: Seq<Commit>) -> bool {
    forall|j: int| 0 <= j < cs.len() ==> match #[trigger] cs[j].parent {
        Some(p) => 0 <= p < j,
        None => true,
    }
}

/// The original root at index 0 is the single parentless node.
pub open spec fn rooted_at_zero(cs: Seq<Commit>) -> bool {
    &&& cs.len() >= 1
    &&& cs[0].parent is None
    &&& forall|j: int| 1 <= j < cs.len() ==> (#[trigger] cs[j].parent) is Some
}

/// The node `k` parent-hops above node `i`, or -1 where the chain ends
/// before `k` hops are taken.
pub open spec fn ancestor_at(cs: Seq<Commit>, i: int, k: nat) -> int
    decreases k,
{
    if !(0 <= i < cs.len()) {
        -1
    } else if k == 0 {
        i
    } else {
        match cs[i].parent {
            Some(p) => ancestor_at(cs, p as int, (k - 1) as nat),
            None => -1,
        }
    }
}

/// The number of parent-hops from node `i` down to its root.
pub open spec fn depth_of(cs: Seq<Commit>, i: int) -> nat
    decreases i,
{
    if !(0 <= i < cs.len()) {
        0
    } else {
        match cs[i].parent {
            Some(p) => if 0 <= p < i {
                (1 + depth_of(cs, p as int)) as nat
            } else {
                0
            },
            None => 0,
        }
    }
}

/// Walking `k <= depth_of(i)` hops from a valid node lands on a valid node
/// whose depth is exactly `k` less.
pub proof fn lemma_ancestor_at_valid(cs: Seq<Commit>, i: int, k: nat)
    requires
        parents_decreasing(cs),
        0 <= i < cs.len(),
        k <= depth_of(cs, i),
    ensures
        0 <= ancestor_at(cs, i, k) <= i,
        ancestor_at(cs, i, k) < cs.len(),
        depth_of(cs, ancestor_at(cs, i, k)) == depth_of(cs, i) - k,
    decreases k,
{
    if k > 0 {
        match cs[i].parent {
            Some(p) => {
                lemma_ancestor_at_valid(cs, p as int, (k - 1) as nat);
            },
            None => {},
        }
    }
}

/// One more hop lands on the parent of the node reached so far.
pub proof fn lemma_ancestor_at_unfold_last(cs: Seq<Commit>, i: int, k: nat)
    requires
        parents_decreasing(cs),
        0 <= i < cs.len(),
        k + 1 <= depth_of(cs, i),
    ensures
        cs[ancestor_at(cs, i, k)].parent is Some,
        ancestor_at(cs, i, (k + 1) as nat) == (match cs[ancestor_at(cs, i, k)].parent {
            Some(p) => p as int,
            None => -1,
        }),
    decreases k,
{
    lemma_ancestor_at_valid(cs, i, k);
    match cs[i].parent {
        Some(p) => {
            if k > 0 {
                lemma_ancestor_at_unfold_last(cs, p as int, (k - 1) as nat);
                assert(ancestor_at(cs, i, (k + 1) as nat) == ancestor_at(cs, p as int, k));
            } else {
                assert(ancestor_at(cs, i, 1nat) == ancestor_at(cs, p as int, 0nat));
                assert(ancestor_at(cs, p as int, 0nat) == p as int);
            }
        },
        None => {},
    }
}

/// Every valid node's ancestry chain terminates at the original root.
pub proof fn lemma_chain_reaches_root(cs: Seq<Commit>, i: int)
    requires
        parents_decreasing(cs),
        rooted_at_zero(cs),
        0 <= i < cs.len(),
    ensures
        ancestor_at(cs, i, depth_of(cs, i)) == 0,
    decreases i,
{
    match cs[i].parent {
        Some(p) => {
            lemma_chain_reaches_root(cs, p as int);
        },
        None => {
            assert(i == 0);
        },
    }
}

} // verus!
