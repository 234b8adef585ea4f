use vstd::prelude::*;
use crate::events::{Event, EventV, views_of};
use crate::parser::{Command, CommandV};
use crate::node::{
    ancestor_at, depth_of, lemma_ancestor_at_unfold_last, lemma_chain_reaches_root,
    parents_decreasing, rooted_at_zero, Commit,
};
use crate::table::{
    branch_refs, branch_refs_upto, child_contrib, child_refs, child_refs_upto, find_entry,
    has_branch, head_contrib, head_of, lemma_branch_refs_le, lemma_branch_refs_some,
    lemma_child_refs_le, lemma_child_refs_some, lemma_entry_index, same_bindings_except,
    unique_names, BranchEntry,
};

verus! {

/// Why a repository operation was refused.
#[derive(Debug, Clone, Copy, PartialEq, Eq)]
pub enum RepoError {
    /// The named branch is absent from the table.
    BranchNotFound,
    /// Branch creation asked for more parent-hops than the source has.
    AncestorOutOfRange,
}

/// A repository: an arena of immutable revision nodes with explicit owner
/// counts, a table of named branch pointers into the arena, and the log of
/// observable events, in emission order.
pub struct Repository {
    pub commits: Vec<Commit>,
    pub owners: Vec<u128>,
    pub branches: Vec<BranchEntry>,
    pub events: Vec<Event>,
}

impl Repository {
    /// Owner counts are exact: a node's count is the number of branch-table
    /// rows pointing at it plus the number of live nodes holding it as parent.
    pub open spec fn counts_ok(self) -> bool {
        forall|t: int|
            0 <= t < self.owners@.len() ==> (#[trigger] self.owners@[t]) as nat == branch_refs(
                self.branches@,
                t,
            ) + child_refs(self.commits@, self.owners@, t)
    }

    /// Every branch head is a valid arena index.
    pub open spec fn heads_ok(self) -> bool {
        forall|k: int|
            0 <= k < self.branches@.len() ==> ((#[trigger] self.branches@[k]).head as int)
                < self.commits@.len()
    }

    /// The repository invariant.
    pub open spec fn wf(self) -> bool {
        &&& self.owners@.len() == self.commits@.len()
        &&& parents_decreasing(self.commits@)
        &&& rooted_at_zero(self.commits@)
        &&& unique_names(self.branches@)
        &&& self.heads_ok()
        &&& self.counts_ok()
    }
}

/// Owner counts are exact for the given table.
pub open spec fn exact_counts(cs: Seq<Commit>, os: Seq<u128>, bs: Seq<BranchEntry>) -> bool {
    forall|t: int|
        0 <= t < os.len() ==> (#[trigger] os[t]) as nat == branch_refs(bs, t) + child_refs(
            cs,
            os,
            t,
        )
}

/// Owner counts are exact except for one extra reference to node `i`,
/// which is about to be released.
pub open spec fn pending_counts(
    cs: Seq<Commit>,
    os: Seq<u128>,
    bs: Seq<BranchEntry>,
    i: int,
) -> bool {
    forall|t: int|
        0 <= t < os.len() ==> (#[trigger] os[t]) as nat == branch_refs(bs, t) + child_refs(
            cs,
            os,
            t,
        ) + (if t == i {
            1nat
        } else {
            0nat
        })
}

/// The effect of releasing one reference to node `i`: the owner counts
/// afterwards, and the destruction events emitted, in child-before-parent
/// order. A node is destroyed exactly when the released reference was its
/// last one, and destroying it releases its own parent reference in turn.
pub open spec fn release_spec(cs: Seq<Commit>, os: Seq<u128>, i: int) -> (Seq<u128>, Seq<EventV>)
    decreases i,
{
    if !(0 <= i < cs.len() && os.len() == cs.len() && os[i] >= 1) {
        (os, Seq::empty())
    } else {
        let os1 = os.update(i, (os[i] - 1) as u128);
        if os[i] != 1 {
            (os1, Seq::empty())
        } else {
            let ev = EventV::Destroyed { payload: cs[i].payload@ };
            match cs[i].parent {
                None => (os1, seq![ev]),
                Some(p) => if 0 <= p < i {
                    let rec = release_spec(cs, os1, p as int);
                    (rec.0, seq![ev] + rec.1)
                } else {
                    (os1, seq![ev])
                },
            }
        }
    }
}

/// What `commit` guarantees: on success a fresh node is appended whose
/// parent is the old head and whose payload is the given one, the branch
/// advances to it, every other binding and every existing node (including
/// the old head, which gained the new child as an owner) is untouched, and
/// one binding event is recorded. On failure the branch was absent and the
/// repository is unchanged.
pub open spec fn commit_post(
    pre: Repository,
    post: Repository,
    branch: Seq<char>,
    payload: Seq<char>,
    r: Result<(), RepoError>,
) -> bool {
    match r {
        Ok(()) => {
            let h = head_of(pre.branches@, branch);
            let n = pre.commits@.len() as int;
            &&& has_branch(pre.branches@, branch)
            &&& post.commits@.len() == n + 1
            &&& post.commits@.subrange(0, n) == pre.commits@
            &&& post.commits@[n].payload@ == payload
            &&& post.commits@[n].parent == Some(h as usize)
            &&& post.owners@ == pre.owners@.push(1u128)
            &&& post.branches@.len() == pre.branches@.len()
            &&& has_branch(post.branches@, branch)
            &&& head_of(post.branches@, branch) == n
            &&& same_bindings_except(pre.branches@, post.branches@, branch)
            &&& views_of(post.events@) == views_of(pre.events@).push(
                (EventV::Bound { branch: branch, payload: payload }),
            )
        },
        Err(e) => {
            &&& e == RepoError::BranchNotFound
            &&& !has_branch(pre.branches@, branch)
            &&& post == pre
        },
    }
}

/// What `branch` guarantees: it succeeds exactly when the source exists and
/// the offset is at most the source head's ancestry depth; the new name is
/// then bound to the node `offset` hops up — for offset 0, the very node the
/// source heads (aliasing, not copying). The target gains a reference first,
/// so it cannot die; if the name was already bound, its old reference is
/// then released with full cascade semantics, the destruction events firing
/// at the point of release, before the new binding is recorded. No node is
/// created and no other binding moves. On failure the repository is
/// unchanged.
pub open spec fn branch_post(
    pre: Repository,
    post: Repository,
    name: Seq<char>,
    source: Seq<char>,
    offset: usize,
    r: Result<(), RepoError>,
) -> bool {
    match r {
        Ok(()) => {
            let h = head_of(pre.branches@, source);
            let t = ancestor_at(pre.commits@, h, offset as nat);
            &&& has_branch(pre.branches@, source)
            &&& offset <= depth_of(pre.commits@, h)
            &&& 0 <= t < pre.commits@.len()
            &&& (offset == 0 ==> t == h)
            &&& post.commits@ == pre.commits@
            &&& has_branch(post.branches@, name)
            &&& head_of(post.branches@, name) == t
            &&& same_bindings_except(pre.branches@, post.branches@, name)
            &&& ({
                let acq = pre.owners@.update(t, (pre.owners@[t] + 1) as u128);
                let bound = EventV::Bound { branch: name, payload: pre.commits@[t].payload@ };
                if has_branch(pre.branches@, name) {
                    let rel = release_spec(pre.commits@, acq, head_of(pre.branches@, name));
                    post.owners@ == rel.0 && views_of(post.events@) == views_of(pre.events@)
                        + rel.1 + seq![bound]
                } else {
                    post.owners@ == acq && views_of(post.events@) == views_of(pre.events@).push(
                        bound,
                    )
                }
            })
        },
        Err(e) => {
            &&& post == pre
            &&& match e {
                RepoError::BranchNotFound => !has_branch(pre.branches@, source),
                RepoError::AncestorOutOfRange => has_branch(pre.branches@, source) && offset
                    > depth_of(pre.commits@, head_of(pre.branches@, source)),
            }
        },
    }
}

/// What `delete_branch` guarantees: on success the binding disappears, its
/// reference is released with full cascade semantics, every other binding
/// survives unchanged, and the removal event precedes the destruction
/// events. On failure the branch was absent and the repository is
/// unchanged.
pub open spec fn delete_post(
    pre: Repository,
    post: Repository,
    name: Seq<char>,
    r: Result<(), RepoError>,
) -> bool {
    match r {
        Ok(()) => {
            let h = head_of(pre.branches@, name);
            let rel = release_spec(pre.commits@, pre.owners@, h);
            &&& has_branch(pre.branches@, name)
            &&& post.commits@ == pre.commits@
            &&& !has_branch(post.branches@, name)
            &&& same_bindings_except(pre.branches@, post.branches@, name)
            &&& post.owners@ == rel.0
            &&& views_of(post.events@) == views_of(pre.events@).push(
                (EventV::Removed { branch: name }),
            ) + rel.1
        },
        Err(e) => {
            &&& e == RepoError::BranchNotFound
            &&& !has_branch(pre.branches@, name)
            &&& post == pre
        },
    }
}

impl Repository {
    /// Creates the repository: one root node holding the given payload,
    /// owned by the default branch `master`, with the binding recorded as
    /// the first event.
    pub fn new(payload: String) -> (repo: Repository)
        ensures
            repo.wf(),
            repo.commits@.len() == 1,
            repo.commits@[0].payload@ == payload@,
            repo.commits@[0].parent is None,
            repo.owners@ == seq![1u128],
            repo.branches@.len() == 1,
            repo.branches@[0].name@ == "master"@,
            repo.branches@[0].head == 0,
            views_of(repo.events@) == seq![(EventV::Bound { branch: "master"@, payload: payload@ })],
    {
        let root = Commit::new_tree(payload.clone());
        let mut commits: Vec<Commit> = Vec::new();
        commits.push(root);
        let mut owners: Vec<u128> = Vec::new();
        owners.push(1);
        let mut branches: Vec<BranchEntry> = Vec::new();
        branches.push(BranchEntry { name: "master".to_owned(), head: 0 });
        let mut events: Vec<Event> = Vec::new();
        events.push(Event::Bound { branch: "master".to_owned(), payload });
        let repo = Repository { commits, owners, branches, events };
        proof {
            assert forall|t: int| 0 <= t < repo.owners@.len() implies (#[trigger] repo.owners@[t])
                as nat == branch_refs(repo.branches@, t) + child_refs(
                repo.commits@,
                repo.owners@,
                t,
            ) by {
                assert(branch_refs_upto(repo.branches@, t, 1) == branch_refs_upto(
                    repo.branches@,
                    t,
                    0,
                ) + head_contrib(repo.branches@[0], t));
                assert(branch_refs_upto(repo.branches@, t, 0) == 0);
                assert(child_refs_upto(repo.commits@, repo.owners@, t, 0) == 0);
                assert(child_refs_upto(repo.commits@, repo.owners@, t, 1) == child_contrib(
                    repo.commits@[0],
                    repo.owners@[0],
                    t,
                ));
            }
            assert(views_of(repo.events@) =~= seq![
                (EventV::Bound { branch: "master"@, payload: payload@ }),
            ]);
            assert(repo.owners@ =~= seq![1u128]);
        }
        repo
    }

    /// Advances a branch: appends a child of the current head holding the
    /// given payload and rebinds the branch to it. The old head is not
    /// destroyed by this: it stays owned by the new child.
    pub fn commit(&mut self, branch: &String, payload: String) -> (r: Result<(), RepoError>)
        requires
            old(self).wf(),
        ensures
            final(self).wf(),
            commit_post(*old(self), *final(self), branch@, payload@, r),
    {
        match find_entry(&self.branches, branch) {
            None => Err(RepoError::BranchNotFound),
            Some(k) => {
                proof {
                    assert(has_branch(self.branches@, branch@));
                    lemma_entry_index(self.branches@, branch@);
                }
                let h = self.branches[k].head;
                let n = self.commits.len();
                let ev = Event::Bound { branch: branch.clone(), payload: payload.clone() };
                proof {
                    crate::events::lemma_views_of_push(self.events@, ev);
                }
                self.events.push(ev);
                let ghost cs_old = self.commits@;
                let ghost os_old = self.owners@;
                let ghost bs_old = self.branches@;
                self.commits.push(Commit::new(payload, h));
                self.owners.push(1);
                let nm = self.branches[k].name.clone();
                self.branches[k] = BranchEntry { name: nm, head: n };
                proof {
                    let csn = self.commits@;
                    let osn = self.owners@;
                    let bsn = self.branches@;
                    let cnew = csn[n as int];
                    crate::table::lemma_update_head_effect(
                        bs_old,
                        k as int,
                        (BranchEntry { name: bs_old[k as int].name, head: n }),
                    );
                    assert forall|t: int| 0 <= t < osn.len() implies (#[trigger] osn[t]) as nat
                        == branch_refs(bsn, t) + child_refs(csn, osn, t) by {
                        crate::table::lemma_child_refs_push(cs_old, os_old, cnew, 1u128, t);
                        crate::table::lemma_branch_refs_update(
                            bs_old,
                            k as int,
                            bsn[k as int],
                            t,
                            bs_old.len() as int,
                        );
                        if t == n as int {
                            crate::table::lemma_branch_refs_none(bs_old, t, bs_old.len() as int);
                            crate::table::lemma_child_refs_none(
                                cs_old,
                                os_old,
                                t,
                                cs_old.len() as int,
                            );
                        }
                    }
                    assert(csn.subrange(0, n as int) =~= cs_old);
                }
                Ok(())
            },
        }
    }

    /// Creates (or rebinds) a branch at the node `offset` parent-hops above
    /// the source branch's head. An offset landing exactly on the root
    /// succeeds; a step past it is refused with no change. With offset 0
    /// the new branch aliases the very node the source heads. A name that
    /// was already bound releases its old reference first (possibly
    /// cascading, with the destruction events emitted at that moment,
    /// before the binding is recorded); the target is secured beforehand,
    /// so the release can never destroy it.
    pub fn branch(&mut self, name: &String, source: &String, offset: usize) -> (r: Result<
        (),
        RepoError,
    >)
        requires
            old(self).wf(),
        ensures
            final(self).wf(),
            branch_post(*old(self), *final(self), name@, source@, offset, r),
    {
        let k_src = match find_entry(&self.branches, source) {
            None => { return Err(RepoError::BranchNotFound) },
            Some(k) => k,
        };
        proof {
            assert(has_branch(self.branches@, source@));
            lemma_entry_index(self.branches@, source@);
        }
        let h = self.branches[k_src].head;
        proof {
            lemma_branch_refs_some(self.branches@, h as int, k_src as int);
        }
        let mut cur: usize = h;
        let mut step: usize = 0;
        while step < offset
            invariant
                self.wf(),
                *self == *old(self),
                has_branch(self.branches@, source@),
                (h as int) == head_of(self.branches@, source@),
                (h as int) < self.commits@.len(),
                step <= offset,
                step <= depth_of(self.commits@, h as int),
                (cur as int) == ancestor_at(self.commits@, h as int, step as nat),
                (cur as int) < self.commits@.len(),
                depth_of(self.commits@, cur as int) == depth_of(self.commits@, h as int) - step,
                self.owners@[cur as int] >= 1,
            decreases offset - step,
        {
            let par = self.commits[cur].parent;
            match par {
                None => {
                    proof {
                        assert(depth_of(self.commits@, cur as int) == 0);
                    }
                    return Err(RepoError::AncestorOutOfRange);
                },
                Some(p) => {
                    proof {
                        assert(depth_of(self.commits@, cur as int) == 1 + depth_of(
                            self.commits@,
                            p as int,
                        ));
                        lemma_ancestor_at_unfold_last(self.commits@, h as int, step as nat);
                        assert(child_contrib(
                            self.commits@[cur as int],
                            self.owners@[cur as int],
                            p as int,
                        ) == 1);
                        lemma_child_refs_some(self.commits@, self.owners@, p as int, cur as int);
                    }
                    cur = p;
                    step = step + 1;
                },
            }
        }
        let t = cur;
        let ghost t_i = t as int;
        let ghost cs0 = self.commits@;
        let ghost os0 = self.owners@;
        let ghost bs0 = self.branches@;
        proof {
            assert(ancestor_at(cs0, h as int, 0nat) == h as int);
        }
        // secure the target with the new reference before anything is released
        let ot = self.owners[t];
        let n_branches = self.branches.len();
        let n_commits = self.commits.len();
        proof {
            lemma_branch_refs_le(bs0, t_i, bs0.len() as int);
            lemma_child_refs_le(cs0, os0, t_i, cs0.len() as int);
            assert(ot as nat <= n_branches + n_commits);
        }
        self.owners[t] = ot + 1;
        // release any previous binding of the name first: its destruction
        // events fire now, before the new binding is recorded
        match find_entry(&self.branches, name) {
            Some(k2) => {
                proof {
                    assert(has_branch(bs0, name@));
                    lemma_entry_index(bs0, name@);
                }
                let o = self.branches[k2].head;
                let nm2 = self.branches[k2].name.clone();
                self.branches[k2] = BranchEntry { name: nm2, head: t };
                proof {
                    crate::table::lemma_update_head_effect(
                        bs0,
                        k2 as int,
                        (BranchEntry { name: bs0[k2 as int].name, head: t }),
                    );
                    assert forall|t2: int| 0 <= t2 < self.owners@.len() implies (
                    #[trigger] self.owners@[t2]) as nat == branch_refs(self.branches@, t2)
                        + child_refs(self.commits@, self.owners@, t2) + (if t2 == o as int {
                        1nat
                    } else {
                        0nat
                    }) by {
                        crate::table::lemma_child_refs_update_owner(
                            cs0,
                            os0,
                            t_i,
                            (ot + 1) as u128,
                            t2,
                            os0.len() as int,
                        );
                        crate::table::lemma_branch_refs_update(
                            bs0,
                            k2 as int,
                            self.branches@[k2 as int],
                            t2,
                            bs0.len() as int,
                        );
                    }
                }
                release(
                    &self.commits,
                    &mut self.owners,
                    &mut self.events,
                    o,
                    Ghost(self.branches@),
                );
                proof {
                    assert forall|k3: int| 0 <= k3 < self.branches@.len() implies ((
                    #[trigger] self.branches@[k3]).head as int) < self.commits@.len() by {
                        if k3 != k2 as int {
                            assert(self.branches@[k3] == bs0[k3]);
                        }
                    }
                }
            },
            None => {
                let e = BranchEntry { name: name.clone(), head: t };
                let ghost eg = e;
                self.branches.push(e);
                proof {
                    crate::table::lemma_push_effect(bs0, eg);
                    assert forall|t2: int| 0 <= t2 < self.owners@.len() implies (
                    #[trigger] self.owners@[t2]) as nat == branch_refs(self.branches@, t2)
                        + child_refs(self.commits@, self.owners@, t2) by {
                        crate::table::lemma_child_refs_update_owner(
                            cs0,
                            os0,
                            t_i,
                            (ot + 1) as u128,
                            t2,
                            os0.len() as int,
                        );
                        crate::table::lemma_branch_refs_push(bs0, eg, t2);
                    }
                    assert forall|k3: int| 0 <= k3 < self.branches@.len() implies ((
                    #[trigger] self.branches@[k3]).head as int) < self.commits@.len() by {
                        if k3 != bs0.len() {
                            assert(self.branches@[k3] == bs0[k3]);
                        }
                    }
                }
            },
        }
        // record the new binding, after any destruction it displaced
        let ev = Event::Bound { branch: name.clone(), payload: self.commits[t].payload.clone() };
        let ghost vb = views_of(self.events@);
        proof {
            crate::events::lemma_views_of_push(self.events@, ev);
        }
        self.events.push(ev);
        proof {
            assert(views_of(self.events@) =~= vb + seq![ev@]);
        }
        Ok(())
    }

    /// Removes a branch and releases its reference, cascading destruction
    /// up the ancestry until a node still referenced elsewhere stops it.
    pub fn delete_branch(&mut self, name: &String) -> (r: Result<(), RepoError>)
        requires
            old(self).wf(),
        ensures
            final(self).wf(),
            delete_post(*old(self), *final(self), name@, r),
    {
        match find_entry(&self.branches, name) {
            None => Err(RepoError::BranchNotFound),
            Some(k) => {
                proof {
                    assert(has_branch(self.branches@, name@));
                    lemma_entry_index(self.branches@, name@);
                }
                let h = self.branches[k].head;
                let ev = Event::Removed { branch: name.clone() };
                proof {
                    crate::events::lemma_views_of_push(self.events@, ev);
                }
                self.events.push(ev);
                let ghost bs_old = self.branches@;
                self.branches.swap_remove(k);
                proof {
                    crate::table::lemma_swap_remove_effect(bs_old, k as int);
                    assert forall|t: int| 0 <= t < self.owners@.len() implies (
                    #[trigger] self.owners@[t]) as nat == branch_refs(self.branches@, t)
                        + child_refs(self.commits@, self.owners@, t) + (if t == h as int {
                        1nat
                    } else {
                        0nat
                    }) by {
                        assert(branch_refs(self.branches@, t) + head_contrib(bs_old[k as int], t)
                            == branch_refs(bs_old, t));
                    }
                }
                release(
                    &self.commits,
                    &mut self.owners,
                    &mut self.events,
                    h,
                    Ghost(self.branches@),
                );
                proof {
                    assert forall|k2: int| 0 <= k2 < self.branches@.len() implies ((
                    #[trigger] self.branches@[k2]).head as int) < self.commits@.len() by {
                        if k2 == k as int && k as int != bs_old.len() - 1 {
                            assert(self.branches@[k2] == bs_old[bs_old.len() - 1]);
                        } else {
                            assert(self.branches@[k2] == bs_old[k2]);
                        }
                    }
                }
                Ok(())
            },
        }
    }

    /// Applies one decoded command to the repository.
    pub fn do_command(&mut self, c: Command) -> (r: Result<(), RepoError>)
        requires
            old(self).wf(),
        ensures
            final(self).wf(),
            match c@ {
                CommandV::NewCommit { branch, payload } => commit_post(
                    *old(self),
                    *final(self),
                    branch,
                    payload,
                    r,
                ),
                CommandV::NewBranch { name, source, offset } => branch_post(
                    *old(self),
                    *final(self),
                    name,
                    source,
                    offset,
                    r,
                ),
                CommandV::DeleteBranch { name } => delete_post(*old(self), *final(self), name, r),
            },
    {
        match c {
            Command::NewCommit(branch, payload) => self.commit(&branch, payload),
            Command::NewBranch(name, source, offset) => self.branch(&name, &source, offset),
            Command::DeleteBranch(name) => self.delete_branch(&name),
        }
    }
}

/// Every branch head in a well-formed repository is reachable from the
/// original root: following parent links from a head for exactly its depth
/// lands on node 0, the root made at initialization.
pub proof fn lemma_branch_heads_reach_root(repo: Repository)
    requires
        repo.wf(),
    ensures
        forall|k: int|
            0 <= k < repo.branches@.len() ==> ancestor_at(
                repo.commits@,
                (#[trigger] repo.branches@[k]).head as int,
                depth_of(repo.commits@, repo.branches@[k].head as int),
            ) == 0,
{
    assert forall|k: int| 0 <= k < repo.branches@.len() implies ancestor_at(
        repo.commits@,
        (#[trigger] repo.branches@[k]).head as int,
        depth_of(repo.commits@, repo.branches@[k].head as int),
    ) == 0 by {
        lemma_chain_reaches_root(repo.commits@, repo.branches@[k].head as int);
    }
}

/// How many nodes a release of one reference to node `i` would destroy:
/// the length of the maximal prefix of the ancestry chain whose nodes are
/// each held by exactly the one reference coming from below.
pub open spec fn cascade_len(cs: Seq<Commit>, os: Seq<u128>, i: int) -> nat
    decreases i,
{
    if !(0 <= i < cs.len() && os.len() == cs.len()) {
        0
    } else if os[i] != 1 {
        0
    } else {
        match cs[i].parent {
            None => 1nat,
            Some(p) => if 0 <= p < i {
                1 + cascade_len(cs, os, p as int)
            } else {
                1nat
            },
        }
    }
}

/// `cascade_len` only reads owner counts at or below `i`.
proof fn lemma_cascade_len_agree(cs: Seq<Commit>, os_a: Seq<u128>, os_b: Seq<u128>, i: int)
    requires
        os_a.len() == os_b.len(),
        forall|t: int| 0 <= t <= i ==> os_a[t] == os_b[t],
    ensures
        cascade_len(cs, os_a, i) == cascade_len(cs, os_b, i),
    decreases i,
{
    if 0 <= i < cs.len() && os_a.len() == cs.len() && os_a[i] == 1 {
        match cs[i].parent {
            Some(p) => {
                if 0 <= p < i {
                    lemma_cascade_len_agree(cs, os_a, os_b, p as int);
                }
            },
            None => {},
        }
    }
}

/// What a release destroys, exactly: one destruction event per node of the
/// sole-owner prefix of the ancestry chain, in head-to-root order, the
/// event at position `j` carrying the payload of the node `j` hops up. A
/// node still referenced elsewhere stops the cascade at itself (its count
/// is merely decremented, so `cascade_len` is 0 there and no event names
/// it).
pub proof fn lemma_cascade_events(cs: Seq<Commit>, os: Seq<u128>, i: int)
    requires
        parents_decreasing(cs),
        os.len() == cs.len(),
        0 <= i < cs.len(),
    ensures
        release_spec(cs, os, i).1.len() == cascade_len(cs, os, i),
        forall|j: int|
            0 <= j < cascade_len(cs, os, i) ==> release_spec(cs, os, i).1[j] == (
            EventV::Destroyed { payload: cs[ancestor_at(cs, i, j as nat)].payload@ }),
    decreases i,
{
    if os[i] == 1 {
        let os1 = os.update(i, 0u128);
        assert(os1 == os.update(i, (os[i] - 1) as u128));
        match cs[i].parent {
            None => {},
            Some(p) => {
                lemma_cascade_events(cs, os1, p as int);
                lemma_cascade_len_agree(cs, os1, os, p as int);
                let evs = release_spec(cs, os, i).1;
                let evs_p = release_spec(cs, os1, p as int).1;
                assert(evs =~= seq![
                    (EventV::Destroyed { payload: cs[i].payload@ }),
                ] + evs_p);
                assert forall|j: int| 0 <= j < cascade_len(cs, os, i) implies evs[j] == (
                EventV::Destroyed { payload: cs[ancestor_at(cs, i, j as nat)].payload@ }) by {
                    if j > 0 {
                        assert(ancestor_at(cs, i, j as nat) == ancestor_at(
                            cs,
                            p as int,
                            (j - 1) as nat,
                        ));
                    }
                }
            },
        }
    }
}

/// A chain wholly owned from below — every node on it held by exactly one
/// reference — is destroyed in full: the cascade runs from the head to the
/// root, one event per node.
pub proof fn lemma_cascade_sole_chain(cs: Seq<Commit>, os: Seq<u128>, i: int)
    requires
        parents_decreasing(cs),
        os.len() == cs.len(),
        0 <= i < cs.len(),
        forall|j: nat| j <= depth_of(cs, i) ==> os[#[trigger] ancestor_at(cs, i, j)] == 1,
    ensures
        cascade_len(cs, os, i) == depth_of(cs, i) + 1,
    decreases i,
{
    assert(ancestor_at(cs, i, 0nat) == i);
    assert(os[i] == 1);
    match cs[i].parent {
        None => {},
        Some(p) => {
            assert forall|j: nat| j <= depth_of(cs, p as int) implies os[#[trigger] ancestor_at(
                cs,
                p as int,
                j,
            )] == 1 by {
                assert(ancestor_at(cs, i, (j + 1) as nat) == ancestor_at(cs, p as int, j));
                assert(j + 1 <= depth_of(cs, i));
            }
            lemma_cascade_sole_chain(cs, os, p as int);
        },
    }
}

/// Releases one reference to node `i`, destroying it if that was the last
/// one and cascading up the ancestry, emitting one destruction event per
/// destroyed node in child-before-parent order.
fn release(
    commits: &Vec<Commit>,
    owners: &mut Vec<u128>,
    events: &mut Vec<Event>,
    i: usize,
    Ghost(bs): Ghost<Seq<BranchEntry>>,
)
    requires
        commits@.len() == old(owners)@.len(),
        parents_decreasing(commits@),
        (i as int) < commits@.len(),
        pending_counts(commits@, old(owners)@, bs, i as int),
    ensures
        final(owners)@.len() == old(owners)@.len(),
        final(owners)@ == release_spec(commits@, old(owners)@, i as int).0,
        views_of(final(events)@) == views_of(old(events)@) + release_spec(
            commits@,
            old(owners)@,
            i as int,
        ).1,
        exact_counts(commits@, final(owners)@, bs),
{
    let ghost os0 = owners@;
    let ghost evs0 = views_of(events@);
    let mut cur: usize = i;
    loop
        invariant_except_break
            pending_counts(commits@, owners@, bs, cur as int),
            release_spec(commits@, os0, i as int).0 == release_spec(
                commits@,
                owners@,
                cur as int,
            ).0,
            evs0 + release_spec(commits@, os0, i as int).1 == views_of(events@) + release_spec(
                commits@,
                owners@,
                cur as int,
            ).1,
        invariant
            commits@.len() == owners@.len(),
            owners@.len() == os0.len(),
            parents_decreasing(commits@),
            (cur as int) < commits@.len(),
        ensures
            owners@ == release_spec(commits@, os0, i as int).0,
            views_of(events@) == evs0 + release_spec(commits@, os0, i as int).1,
            exact_counts(commits@, owners@, bs),
        decreases cur,
    {
        let ghost c = cur as int;
        let ghost os_pre = owners@;
        let o = owners[cur];
        proof {
            assert(o as nat == branch_refs(bs, c) + child_refs(commits@, os_pre, c) + 1);
        }
        let o1: u128 = o - 1;
        owners[cur] = o1;
        proof {
            assert forall|t: int| 0 <= t < owners@.len() implies child_refs(commits@, owners@, t)
                + child_contrib(commits@[c], os_pre[c], t) == child_refs(commits@, os_pre, t)
                + child_contrib(commits@[c], o1, t) by {
                crate::table::lemma_child_refs_update_owner(
                    commits@,
                    os_pre,
                    c,
                    o1,
                    t,
                    os_pre.len() as int,
                );
            }
        }
        if o1 > 0 {
            // the reference was shared: the node survives and the cascade stops
            proof {
                assert(release_spec(commits@, os_pre, c) == (owners@, Seq::<EventV>::empty()));
                assert(views_of(events@) + Seq::<EventV>::empty() =~= views_of(events@));
            }
            break ;
        }
        // that was the last reference: the node is destroyed
        let payload = commits[cur].payload.clone();
        proof {
            crate::events::lemma_views_of_push(events@, Event::Destroyed { payload });
        }
        events.push(Event::Destroyed { payload });
        let par = commits[cur].parent;
        match par {
            None => {
                proof {
                    let ev = EventV::Destroyed { payload: commits@[c].payload@ };
                    assert(release_spec(commits@, os_pre, c) == (owners@, seq![ev]));
                    assert(evs0 + release_spec(commits@, os0, i as int).1 =~= views_of(events@));
                }
                break ;
            },
            Some(p) => {
                proof {
                    let ev = EventV::Destroyed { payload: commits@[c].payload@ };
                    let rec = release_spec(commits@, owners@, p as int);
                    assert(release_spec(commits@, os_pre, c) == (rec.0, seq![ev] + rec.1));
                    assert((views_of(events@).drop_last()) + (seq![ev] + rec.1) =~= views_of(
                        events@,
                    ) + rec.1);
                }
                cur = p;
            },
        }
    }
}

} // verus!
