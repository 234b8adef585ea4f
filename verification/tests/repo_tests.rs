use minirepo::events::Event;
use minirepo::parser::Command;
use minirepo::repo::{RepoError, Repository};

fn bound(branch: &str, payload: &str) -> Event {
    Event::Bound { branch: branch.to_string(), payload: payload.to_string() }
}

fn removed(branch: &str) -> Event {
    Event::Removed { branch: branch.to_string() }
}

fn destroyed(payload: &str) -> Event {
    Event::Destroyed { payload: payload.to_string() }
}

fn head_of(repo: &Repository, name: &str) -> usize {
    for e in &repo.branches {
        if e.name == name {
            return e.head;
        }
    }
    panic!("no branch named {}", name);
}

fn has_branch(repo: &Repository, name: &str) -> bool {
    repo.branches.iter().any(|e| e.name == name)
}

#[test]
fn initialize_binds_master_to_root() {
    let repo = Repository::new("root".to_string());
    assert_eq!(repo.commits.len(), 1);
    assert_eq!(repo.commits[0].payload, "root");
    assert_eq!(repo.commits[0].parent, None);
    assert_eq!(repo.owners, vec![1u128]);
    assert_eq!(repo.branches.len(), 1);
    assert_eq!(repo.branches[0].name, "master");
    assert_eq!(repo.branches[0].head, 0);
    assert_eq!(repo.events, vec![bound("master", "root")]);
}

#[test]
fn commit_advances_head_and_keeps_old_head_alive() {
    let mut repo = Repository::new("root".to_string());
    let r = repo.commit(&"master".to_string(), "a".to_string());
    assert_eq!(r, Ok(()));
    let h = head_of(&repo, "master");
    assert_eq!(h, 1);
    assert_eq!(repo.commits[1].payload, "a");
    assert_eq!(repo.commits[1].parent, Some(0));
    // the old head gained the new child as owner: not destroyed
    assert_eq!(repo.owners, vec![1u128, 1u128]);
    assert_eq!(repo.events, vec![bound("master", "root"), bound("master", "a")]);
}

#[test]
fn commit_on_missing_branch_changes_nothing() {
    let mut repo = Repository::new("root".to_string());
    let before_events = repo.events.clone();
    let r = repo.commit(&"dev".to_string(), "a".to_string());
    assert_eq!(r, Err(RepoError::BranchNotFound));
    assert_eq!(repo.commits.len(), 1);
    assert_eq!(repo.branches.len(), 1);
    assert_eq!(repo.branches[0].name, "master");
    assert_eq!(repo.branches[0].head, 0);
    assert_eq!(repo.events, before_events);
}

#[test]
fn branch_offset_zero_aliases_the_head() {
    let mut repo = Repository::new("root".to_string());
    repo.commit(&"master".to_string(), "a".to_string()).unwrap();
    let r = repo.branch(&"dev".to_string(), &"master".to_string(), 0);
    assert_eq!(r, Ok(()));
    assert_eq!(head_of(&repo, "dev"), head_of(&repo, "master"));
    assert_eq!(*repo.events.last().unwrap(), bound("dev", "a"));
}

#[test]
fn branch_offsets_walk_the_ancestry() {
    let mut repo = Repository::new("root".to_string());
    repo.commit(&"master".to_string(), "a".to_string()).unwrap();
    repo.commit(&"master".to_string(), "b".to_string()).unwrap();
    // head is "b" (node 2), one hop up is "a" (node 1), two hops the root
    assert_eq!(repo.branch(&"dev".to_string(), &"master".to_string(), 1), Ok(()));
    assert_eq!(head_of(&repo, "dev"), 1);
    assert_eq!(*repo.events.last().unwrap(), bound("dev", "a"));
    // an offset equal to the depth lands exactly on the root: success
    assert_eq!(repo.branch(&"old".to_string(), &"master".to_string(), 2), Ok(()));
    assert_eq!(head_of(&repo, "old"), 0);
    // one step past the root fails, with no mutation
    let branches_before = repo.branches.clone();
    let events_before = repo.events.len();
    let r = repo.branch(&"deep".to_string(), &"master".to_string(), 3);
    assert_eq!(r, Err(RepoError::AncestorOutOfRange));
    assert!(!has_branch(&repo, "deep"));
    assert_eq!(repo.branches, branches_before);
    assert_eq!(repo.events.len(), events_before);
}

#[test]
fn branch_on_missing_source_changes_nothing() {
    let mut repo = Repository::new("root".to_string());
    let events_before = repo.events.clone();
    let r = repo.branch(&"dev".to_string(), &"ghost".to_string(), 0);
    assert_eq!(r, Err(RepoError::BranchNotFound));
    assert_eq!(repo.branches.len(), 1);
    assert_eq!(repo.events, events_before);
}

#[test]
fn delete_sole_owner_destroys_whole_chain_head_to_root() {
    let mut repo = Repository::new("root".to_string());
    repo.commit(&"master".to_string(), "a".to_string()).unwrap();
    repo.commit(&"master".to_string(), "b".to_string()).unwrap();
    let n = repo.events.len();
    let r = repo.delete_branch(&"master".to_string());
    assert_eq!(r, Ok(()));
    assert!(!has_branch(&repo, "master"));
    // the chain of length 3 was solely owned: 3 destructions, head to root
    assert_eq!(
        repo.events[n..].to_vec(),
        vec![removed("master"), destroyed("b"), destroyed("a"), destroyed("root")]
    );
    assert_eq!(repo.owners, vec![0u128, 0, 0]);
}

#[test]
fn delete_stops_at_node_still_referenced_elsewhere() {
    // initialize(root) -> commit(a) -> commit(b) -> branch dev at a -> delete master
    let mut repo = Repository::new("root".to_string());
    repo.commit(&"master".to_string(), "a".to_string()).unwrap();
    repo.commit(&"master".to_string(), "b".to_string()).unwrap();
    repo.branch(&"dev".to_string(), &"master".to_string(), 1).unwrap();
    let n = repo.events.len();
    let r = repo.delete_branch(&"master".to_string());
    assert_eq!(r, Ok(()));
    // exactly one destruction: "b"; "a" survives through dev, "root" through "a"
    assert_eq!(repo.events[n..].to_vec(), vec![removed("master"), destroyed("b")]);
    assert_eq!(head_of(&repo, "dev"), 1);
    assert_eq!(repo.commits[1].payload, "a");
    assert!(repo.owners[1] >= 1);
    assert!(repo.owners[0] >= 1);
    assert_eq!(repo.owners[2], 0);
}

#[test]
fn delete_on_missing_branch_changes_nothing() {
    let mut repo = Repository::new("root".to_string());
    let branches_before = repo.branches.clone();
    let events_before = repo.events.clone();
    let r = repo.delete_branch(&"dev".to_string());
    assert_eq!(r, Err(RepoError::BranchNotFound));
    assert_eq!(repo.branches, branches_before);
    assert_eq!(repo.events, events_before);
}

#[test]
fn rebinding_a_branch_releases_its_old_reference() {
    let mut repo = Repository::new("root".to_string());
    repo.branch(&"dev".to_string(), &"master".to_string(), 0).unwrap();
    repo.commit(&"dev".to_string(), "x".to_string()).unwrap();
    // dev solely owns "x"; rebinding dev back to master's head destroys it,
    // the destruction preceding the record of the new binding
    let n = repo.events.len();
    let r = repo.branch(&"dev".to_string(), &"master".to_string(), 0);
    assert_eq!(r, Ok(()));
    assert_eq!(repo.events[n..].to_vec(), vec![destroyed("x"), bound("dev", "root")]);
    assert_eq!(head_of(&repo, "dev"), head_of(&repo, "master"));
}

#[test]
fn rebinding_the_source_itself_secures_the_target_first() {
    let mut repo = Repository::new("root".to_string());
    repo.commit(&"master".to_string(), "a".to_string()).unwrap();
    repo.commit(&"master".to_string(), "b".to_string()).unwrap();
    // move master one step up: its old head "b" loses its only owner and
    // dies before the rebind is recorded, but the target "a" was secured
    // first and survives
    let n = repo.events.len();
    let r = repo.branch(&"master".to_string(), &"master".to_string(), 1);
    assert_eq!(r, Ok(()));
    assert_eq!(repo.events[n..].to_vec(), vec![destroyed("b"), bound("master", "a")]);
    assert_eq!(head_of(&repo, "master"), 1);
    assert_eq!(repo.owners, vec![1u128, 1, 0]);
}

#[test]
fn every_branch_head_reaches_the_root() {
    let mut repo = Repository::new("root".to_string());
    repo.commit(&"master".to_string(), "a".to_string()).unwrap();
    repo.commit(&"master".to_string(), "b".to_string()).unwrap();
    repo.branch(&"dev".to_string(), &"master".to_string(), 1).unwrap();
    repo.branch(&"old".to_string(), &"master".to_string(), 2).unwrap();
    repo.commit(&"dev".to_string(), "c".to_string()).unwrap();
    for e in &repo.branches {
        // follow parent links; the walk must end at node 0, the original root
        let mut cur = e.head;
        loop {
            match repo.commits[cur].parent {
                Some(p) => cur = p,
                None => break,
            }
        }
        assert_eq!(cur, 0);
    }
}

#[test]
fn do_command_dispatches_to_the_three_operations() {
    let mut repo = Repository::new("root".to_string());
    let r = repo.do_command(Command::NewCommit("master".to_string(), "a".to_string()));
    assert_eq!(r, Ok(()));
    assert_eq!(repo.commits[1].payload, "a");
    let r = repo.do_command(Command::NewBranch("dev".to_string(), "master".to_string(), 1));
    assert_eq!(r, Ok(()));
    assert_eq!(head_of(&repo, "dev"), 0);
    let r = repo.do_command(Command::DeleteBranch("dev".to_string()));
    assert_eq!(r, Ok(()));
    assert!(!has_branch(&repo, "dev"));
    let r = repo.do_command(Command::DeleteBranch("dev".to_string()));
    assert_eq!(r, Err(RepoError::BranchNotFound));
}
