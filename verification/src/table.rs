use vstd::prelude::*;
use crate::node::Commit;

verus! {

/// One row of the branch table: a branch name bound to the arena index of
/// its head node.
#[derive(Debug, Clone, PartialEq, Eq)]
pub struct BranchEntry {
    pub name: String,
    pub head: usize,
}

/// Branch names are unique keys.
pub open spec fn unique_names(bs: Seq<BranchEntry>) -> bool {
    forall|k1: int, k2: int|
        0 <= k1 < k2 < bs.len() ==> (#[trigger] bs[k1]).name@ != (#[trigger] bs[k2]).name@
}

/// Whether some row binds the name `n`.
pub open spec fn has_branch(bs: Seq<BranchEntry>, n: Seq<char>) -> bool {
    exists|k: int| 0 <= k < bs.len() && (#[trigger] bs[k]).name@ == n
}

/// The row index binding `n` (meaningful under `has_branch` and
/// `unique_names`).
pub open spec fn entry_index(bs: Seq<BranchEntry>, n: Seq<char>) -> int {
    choose|k: int| 0 <= k < bs.len() && (#[trigger] bs[k]).name@ == n
}

/// The head node bound to name `n`.
pub open spec fn head_of(bs: Seq<BranchEntry>, n: Seq<char>) -> int {
    bs[entry_index(bs, n)].head as int
}

/// Under unique names, `entry_index` is the one row binding `n`.
pub proof fn lemma_entry_index(bs: Seq<BranchEntry>, n: Seq<char>)
    requires
        unique_names(bs),
        has_branch(bs, n),
    ensures
        0 <= entry_index(bs, n) < bs.len(),
        bs[entry_index(bs, n)].name@ == n,
        forall|j: int| 0 <= j < bs.len() && (#[trigger] bs[j]).name@ == n ==> j == entry_index(
            bs,
            n,
        ),
{
}

/// 1 where the row points at node `t`, else 0.
pub open spec fn head_contrib(e: BranchEntry, t: int) -> nat {
    if e.head == t {
        1nat
    } else {
        0nat
    }
}

/// How many of the first `n` rows point at node `t`.
pub open spec fn branch_refs_upto(bs: Seq<BranchEntry>, t: int, n: int) -> nat
    decreases n,
{
    if n <= 0 {
        0
    } else {
        branch_refs_upto(bs, t, n - 1) + head_contrib(bs[n - 1], t)
    }
}

/// How many branch-table rows point at node `t`.
pub open spec fn branch_refs(bs: Seq<BranchEntry>, t: int) -> nat {
    branch_refs_upto(bs, t, bs.len() as int)
}

pub proof fn lemma_branch_refs_le(bs: Seq<BranchEntry>, t: int, n: int)
    ensures
        branch_refs_upto(bs, t, n) <= (if n <= 0 { 0int } else { n }),
    decreases n,
{
    if n > 0 {
        lemma_branch_refs_le(bs, t, n - 1);
    }
}

pub proof fn lemma_branch_refs_agree(bs1: Seq<BranchEntry>, bs2: Seq<BranchEntry>, t: int, n: int)
    requires
        forall|j: int| 0 <= j < n ==> head_contrib(#[trigger] bs1[j], t) == head_contrib(bs2[j], t),
    ensures
        branch_refs_upto(bs1, t, n) == branch_refs_upto(bs2, t, n),
    decreases n,
{
    if n > 0 {
        lemma_branch_refs_agree(bs1, bs2, t, n - 1);
    }
}

pub proof fn lemma_branch_refs_update(bs: Seq<BranchEntry>, k: int, e: BranchEntry, t: int, n: int)
    requires
        0 <= k < bs.len(),
        n <= bs.len(),
    ensures
        branch_refs_upto(bs.update(k, e), t, n) + (if k < n {
            head_contrib(bs[k], t)
        } else {
            0nat
        }) == branch_refs_upto(bs, t, n) + (if k < n {
            head_contrib(e, t)
        } else {
            0nat
        }),
    decreases n,
{
    if n > 0 {
        lemma_branch_refs_update(bs, k, e, t, n - 1);
    }
}

pub proof fn lemma_branch_refs_push(bs: Seq<BranchEntry>, e: BranchEntry, t: int)
    ensures
        branch_refs(bs.push(e), t) == branch_refs(bs, t) + head_contrib(e, t),
{
    lemma_branch_refs_agree(bs.push(e), bs, t, bs.len() as int);
}

pub proof fn lemma_branch_refs_none(bs: Seq<BranchEntry>, t: int, n: int)
    requires
        n <= bs.len(),
        forall|j: int| 0 <= j < n ==> (#[trigger] bs[j]).head != t,
    ensures
        branch_refs_upto(bs, t, n) == 0,
    decreases n,
{
    if n > 0 {
        lemma_branch_refs_none(bs, t, n - 1);
    }
}

pub proof fn lemma_branch_refs_mono(bs: Seq<BranchEntry>, t: int, n1: int, n2: int)
    requires
        n1 <= n2,
    ensures
        branch_refs_upto(bs, t, n1) <= branch_refs_upto(bs, t, n2),
    decreases n2,
{
    if n1 < n2 && n2 > 0 {
        lemma_branch_refs_mono(bs, t, n1, n2 - 1);
    }
}

/// A row pointing at `t` makes the count positive.
pub proof fn lemma_branch_refs_some(bs: Seq<BranchEntry>, t: int, k: int)
    requires
        0 <= k < bs.len(),
        bs[k].head == t,
    ensures
        branch_refs(bs, t) >= 1,
{
    assert(branch_refs_upto(bs, t, k + 1) >= 1);
    lemma_branch_refs_mono(bs, t, k + 1, bs.len() as int);
}

/// 1 where the node is live (owner count positive) and holds `t` as its
/// parent, else 0.
pub open spec fn child_contrib(c: Commit, o: u128, t: int) -> nat {
    match c.parent {
        Some(p) => if o > 0 && p == t {
            1nat
        } else {
            0nat
        },
        None => 0nat,
    }
}

/// How many of the first `n` nodes are live children of node `t`.
pub open spec fn child_refs_upto(cs: Seq<Commit>, os: Seq<u128>, t: int, n: int) -> nat
    decreases n,
{
    if n <= 0 {
        0
    } else {
        child_refs_upto(cs, os, t, n - 1) + child_contrib(cs[n - 1], os[n - 1], t)
    }
}

/// How many live nodes hold node `t` as their parent.
pub open spec fn child_refs(cs: Seq<Commit>, os: Seq<u128>, t: int) -> nat {
    child_refs_upto(cs, os, t, cs.len() as int)
}

pub proof fn lemma_child_refs_le(cs: Seq<Commit>, os: Seq<u128>, t: int, n: int)
    ensures
        child_refs_upto(cs, os, t, n) <= (if n <= 0 { 0int } else { n }),
    decreases n,
{
    if n > 0 {
        lemma_child_refs_le(cs, os, t, n - 1);
    }
}

pub proof fn lemma_child_refs_agree(
    cs1: Seq<Commit>,
    os1: Seq<u128>,
    cs2: Seq<Commit>,
    os2: Seq<u128>,
    t: int,
    n: int,
)
    requires
        forall|j: int| 0 <= j < n ==> child_contrib(#[trigger] cs1[j], os1[j], t) == child_contrib(
            cs2[j],
            os2[j],
            t,
        ),
    ensures
        child_refs_upto(cs1, os1, t, n) == child_refs_upto(cs2, os2, t, n),
    decreases n,
{
    if n > 0 {
        lemma_child_refs_agree(cs1, os1, cs2, os2, t, n - 1);
    }
}

pub proof fn lemma_child_refs_update_owner(
    cs: Seq<Commit>,
    os: Seq<u128>,
    k: int,
    v: u128,
    t: int,
    n: int,
)
    requires
        0 <= k < os.len(),
        n <= os.len(),
    ensures
        child_refs_upto(cs, os.update(k, v), t, n) + (if k < n {
            child_contrib(cs[k], os[k], t)
        } else {
            0nat
        }) == child_refs_upto(cs, os, t, n) + (if k < n {
            child_contrib(cs[k], v, t)
        } else {
            0nat
        }),
    decreases n,
{
    if n > 0 {
        lemma_child_refs_update_owner(cs, os, k, v, t, n - 1);
    }
}

pub proof fn lemma_child_refs_push(cs: Seq<Commit>, os: Seq<u128>, c: Commit, v: u128, t: int)
    requires
        cs.len() == os.len(),
    ensures
        child_refs(cs.push(c), os.push(v), t) == child_refs(cs, os, t) + child_contrib(c, v, t),
{
    lemma_child_refs_agree(cs.push(c), os.push(v), cs, os, t, cs.len() as int);
}

pub proof fn lemma_child_refs_none(cs: Seq<Commit>, os: Seq<u128>, t: int, n: int)
    requires
        n <= cs.len(),
        n <= os.len(),
        forall|j: int| 0 <= j < n ==> child_contrib(#[trigger] cs[j], os[j], t) == 0,
    ensures
        child_refs_upto(cs, os, t, n) == 0,
    decreases n,
{
    if n > 0 {
        lemma_child_refs_none(cs, os, t, n - 1);
    }
}

pub proof fn lemma_child_refs_mono(cs: Seq<Commit>, os: Seq<u128>, t: int, n1: int, n2: int)
    requires
        n1 <= n2,
    ensures
        child_refs_upto(cs, os, t, n1) <= child_refs_upto(cs, os, t, n2),
    decreases n2,
{
    if n1 < n2 && n2 > 0 {
        lemma_child_refs_mono(cs, os, t, n1, n2 - 1);
    }
}

/// A live child of `t` makes the count positive.
pub proof fn lemma_child_refs_some(cs: Seq<Commit>, os: Seq<u128>, t: int, j: int)
    requires
        0 <= j < cs.len(),
        j < os.len(),
        child_contrib(cs[j], os[j], t) == 1,
    ensures
        child_refs(cs, os, t) >= 1,
{
    assert(child_refs_upto(cs, os, t, j + 1) >= 1);
    lemma_child_refs_mono(cs, os, t, j + 1, cs.len() as int);
}

/// Looks a branch name up in the table.
pub fn find_entry(bs: &Vec<BranchEntry>, name: &String) -> (r: Option<usize>)
    ensures
        match r {
            Some(k) => (k as int) < bs@.len() && bs@[k as int].name@ == name@,
            None => !has_branch(bs@, name@),
        },
{
    let mut k: usize = 0;
    while k < bs.len()
        invariant
            k <= bs@.len(),
            forall|j: int| 0 <= j < k ==> (#[trigger] bs@[j]).name@ != name@,
        decreases bs@.len() - k,
    {
        if bs[k].name == *name {
            return Some(k);
        }
        k = k + 1;
    }
    None
}

/// Two tables bind every name other than `excl` the same way.
pub open spec fn same_bindings_except(
    bs1: Seq<BranchEntry>,
    bs2: Seq<BranchEntry>,
    excl: Seq<char>,
) -> bool {
    forall|m: Seq<char>|
        m != excl ==> (#[trigger] has_branch(bs2, m)) == has_branch(bs1, m) && (has_branch(bs1, m)
            ==> head_of(bs2, m) == head_of(bs1, m))
}

/// Rebinding row `k` to a new head under the same name changes that one
/// binding and nothing else.
pub proof fn lemma_update_head_effect(bs: Seq<BranchEntry>, k: int, e: BranchEntry)
    requires
        unique_names(bs),
        0 <= k < bs.len(),
        e.name@ == bs[k].name@,
    ensures
        ({
            let bs2 = bs.update(k, e);
            &&& unique_names(bs2)
            &&& has_branch(bs2, e.name@)
            &&& head_of(bs2, e.name@) == e.head
            &&& same_bindings_except(bs, bs2, e.name@)
        }),
{
    let bs2 = bs.update(k, e);
    assert(bs2[k].name@ == e.name@);
    lemma_entry_index(bs2, e.name@);
    assert forall|m: Seq<char>|
        m != e.name@ implies (#[trigger] has_branch(bs2, m)) == has_branch(bs, m) && (has_branch(
        bs,
        m,
    ) ==> head_of(bs2, m) == head_of(bs, m)) by {
        assert forall|j: int| 0 <= j < bs.len() implies bs2[j].name@ == bs[j].name@ by {}
        if has_branch(bs, m) {
            let j = entry_index(bs, m);
            lemma_entry_index(bs, m);
            assert(bs2[j].name@ == m);
            assert(has_branch(bs2, m));
            lemma_entry_index(bs2, m);
            assert(entry_index(bs2, m) == j);
            assert(j != k);
        }
        if has_branch(bs2, m) {
            let j = entry_index(bs2, m);
            lemma_entry_index(bs2, m);
            assert(bs[j].name@ == m);
            assert(has_branch(bs, m));
        }
    }
}

/// Adding a row with a fresh name adds that one binding and nothing else.
pub proof fn lemma_push_effect(bs: Seq<BranchEntry>, e: BranchEntry)
    requires
        unique_names(bs),
        !has_branch(bs, e.name@),
    ensures
        ({
            let bs2 = bs.push(e);
            &&& unique_names(bs2)
            &&& has_branch(bs2, e.name@)
            &&& head_of(bs2, e.name@) == e.head
            &&& same_bindings_except(bs, bs2, e.name@)
        }),
{
    let bs2 = bs.push(e);
    assert(bs2[bs.len() as int].name@ == e.name@);
    assert forall|j: int| 0 <= j < bs.len() implies bs2[j] == bs[j] by {}
    lemma_entry_index(bs2, e.name@);
    assert forall|m: Seq<char>|
        m != e.name@ implies (#[trigger] has_branch(bs2, m)) == has_branch(bs, m) && (has_branch(
        bs,
        m,
    ) ==> head_of(bs2, m) == head_of(bs, m)) by {
        if has_branch(bs, m) {
            let j = entry_index(bs, m);
            lemma_entry_index(bs, m);
            assert(bs2[j].name@ == m);
            assert(has_branch(bs2, m));
            lemma_entry_index(bs2, m);
            assert(entry_index(bs2, m) == j);
        }
        if has_branch(bs2, m) {
            let j = entry_index(bs2, m);
            lemma_entry_index(bs2, m);
            assert(j != bs.len());
            assert(bs[j].name@ == m);
            assert(has_branch(bs, m));
        }
    }
}

/// What removing row `k` by a swap with the last row does to the table:
/// the name disappears, every other binding survives unchanged, and the
/// reference count of each node drops by exactly that row's contribution.
pub proof fn lemma_swap_remove_effect(bs: Seq<BranchEntry>, k: int)
    requires
        unique_names(bs),
        0 <= k < bs.len(),
    ensures
        ({
            let bs2 = bs.update(k, bs.last()).drop_last();
            &&& unique_names(bs2)
            &&& !has_branch(bs2, bs[k].name@)
            &&& forall|m: Seq<char>| m != bs[k].name@ ==> has_branch(bs2, m) == has_branch(bs, m)
            &&& forall|m: Seq<char>|
                m != bs[k].name@ && has_branch(bs, m) ==> head_of(bs2, m) == head_of(bs, m)
            &&& forall|t: int| #[trigger] branch_refs(bs2, t) + head_contrib(bs[k], t)
                == branch_refs(bs, t)
        }),
{
    let bs1 = bs.update(k, bs.last());
    let bs2 = bs1.drop_last();
    let last = bs.len() - 1;
    assert forall|m: Seq<char>| m != bs[k].name@ && has_branch(bs, m) implies has_branch(
        bs2,
        m,
    ) by {
        let j = choose|j: int| 0 <= j < bs.len() && (#[trigger] bs[j]).name@ == m;
        if j == last {
            if k < last {
                assert(bs2[k].name@ == m);
            }
        } else {
            assert(bs2[j].name@ == m);
        }
    }
    assert forall|m: Seq<char>| has_branch(bs2, m) implies has_branch(bs, m) by {
        let j = choose|j: int| 0 <= j < bs2.len() && (#[trigger] bs2[j]).name@ == m;
        if j == k {
            assert(bs[last].name@ == m);
        } else {
            assert(bs[j].name@ == m);
        }
    }
    assert forall|m: Seq<char>|
        m != bs[k].name@ && has_branch(bs, m) implies head_of(bs2, m) == head_of(bs, m) by {
        lemma_entry_index(bs, m);
        let j = entry_index(bs, m);
        assert(has_branch(bs2, m));
        let j2 = entry_index(bs2, m);
        assert(0 <= j2 < bs2.len() && bs2[j2].name@ == m);
        if j2 == k {
            assert(bs[last].name@ == m);
            assert(j == last);
            assert(bs2[j2].head == bs[last].head);
        } else {
            assert(bs[j2].name@ == m);
            assert(j == j2);
        }
    }
    assert forall|t: int| #[trigger] branch_refs(bs2, t) + head_contrib(bs[k], t) == branch_refs(
        bs,
        t,
    ) by {
        lemma_branch_refs_update(bs, k, bs.last(), t, bs.len() as int);
        assert(branch_refs_upto(bs1, t, bs.len() as int) == branch_refs_upto(bs1, t, last)
            + head_contrib(bs1[last], t));
        lemma_branch_refs_agree(bs2, bs1, t, last);
    }
}

} // verus!
