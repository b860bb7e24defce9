use std::sync::Arc;

use jj_lib::backend;
use jj_lib::backend::BackendError;
use jj_lib::backend::BackendResult;
use jj_lib::backend::ChangeId;
use jj_lib::backend::CommitId;
use jj_lib::backend::MergedTreeId;
use jj_lib::backend::MillisSinceEpoch;
use jj_lib::backend::SecureSig;
use jj_lib::backend::Signature;
use jj_lib::backend::Timestamp;
use jj_lib::backend::TreeId;
use jj_lib::byte_order::Order;
use jj_lib::commit::Commit;
use jj_lib::commit::CommitByCommitterTimestamp;
use jj_lib::commit::CommitIteratorExt;
use jj_lib::repo::Repo;
use jj_lib::signing::SigStatus;
use jj_lib::signing::SignError;
use jj_lib::signing::SignResult;
use jj_lib::signing::SigningBackend;
use jj_lib::signing::Verification;
use jj_lib::store::MergedTree;
use jj_lib::store::Store;

fn id(byte: u8) -> CommitId {
    CommitId::new(vec![byte])
}

fn tree(byte: u8) -> MergedTreeId {
    MergedTreeId::Resolved(TreeId::new(vec![byte]))
}

fn signature(millis: i64) -> Signature {
    Signature {
        name: "Someone".to_string(),
        email: "someone@example.com".to_string(),
        timestamp: Timestamp { timestamp: MillisSinceEpoch(millis), tz_offset: 0 },
    }
}

fn record(parents: Vec<CommitId>, root_tree: MergedTreeId, description: &str) -> backend::Commit {
    backend::Commit {
        parents,
        predecessors: vec![],
        root_tree,
        change_id: ChangeId::new(vec![7]),
        description: description.to_string(),
        author: signature(1),
        committer: signature(2),
        secure_sig: None,
    }
}

/// Merges trees into the tree whose id joins the bytes of theirs.
struct JoiningRepo;

impl Repo for JoiningRepo {
    fn merge_trees(&self, trees: &Vec<MergedTree>) -> BackendResult<MergedTree> {
        let mut bytes = vec![];
        for tree in trees {
            match tree.id() {
                MergedTreeId::Resolved(id) => bytes.extend_from_slice(id.as_bytes()),
                MergedTreeId::Conflicted(_) => {
                    return Err(BackendError::Other("conflicted".to_string()))
                }
            }
        }
        Ok(MergedTree::new(MergedTreeId::Resolved(TreeId::new(bytes)), false))
    }
}

struct FixedSigner(SignResult<SigStatus>);

impl SigningBackend for FixedSigner {
    fn verify(
        &self,
        _commit_id: &CommitId,
        _data: &Vec<u8>,
        signature: &Vec<u8>,
    ) -> SignResult<Verification> {
        match &self.0 {
            Ok(status) => Ok(Verification {
                status: *status,
                key: Some(format!("{}", signature.len())),
                display: None,
            }),
            Err(SignError::InvalidSignatureFormat) => Err(SignError::InvalidSignatureFormat),
            Err(SignError::Backend(_)) => Err(SignError::Backend("no key ring".to_string())),
        }
    }
}

fn store_with(commits: Vec<(CommitId, backend::Commit)>, trees: Vec<(u8, bool)>) -> Arc<Store> {
    let mut store = Store::new();
    for (id, data) in commits {
        store.write_commit(id, data);
    }
    for (byte, has_conflict) in trees {
        store.write_tree(TreeId::new(vec![byte]), has_conflict);
    }
    Arc::new(store)
}

fn get(store: &Arc<Store>, byte: u8) -> Commit {
    Store::get_commit(store, &id(byte)).unwrap()
}

#[test]
fn commit_with_empty_description_and_parents_tree_is_discardable() {
    let store = store_with(
        vec![
            (id(1), record(vec![], tree(10), "root")),
            (id(2), record(vec![id(1)], tree(10), "")),
            (id(3), record(vec![id(1)], tree(10), "described")),
            (id(4), record(vec![id(1)], tree(11), "")),
            (id(5), record(vec![id(1), id(2)], tree(10), "")),
            (id(6), record(vec![], tree(10), "")),
        ],
        vec![(10, false), (11, false)],
    );
    assert_eq!(get(&store, 2).is_discardable(), Ok(true));
    assert_eq!(get(&store, 3).is_discardable(), Ok(false));
    assert_eq!(get(&store, 4).is_discardable(), Ok(false));
    assert_eq!(get(&store, 5).is_discardable(), Ok(false));
    assert_eq!(get(&store, 6).is_discardable(), Ok(false));
}

#[test]
fn missing_parent_is_reported_only_when_parents_are_read() {
    let store = store_with(
        vec![
            (id(2), record(vec![id(9)], tree(10), "")),
            (id(3), record(vec![id(9)], tree(10), "described")),
            (id(4), record(vec![id(2), id(8), id(9)], tree(10), "")),
        ],
        vec![(10, false)],
    );
    assert_eq!(get(&store, 2).is_discardable(), Err(BackendError::CommitNotFound(id(9))));
    assert_eq!(get(&store, 3).is_discardable(), Ok(false));
    assert_eq!(get(&store, 4).is_discardable(), Err(BackendError::CommitNotFound(id(8))));
    assert_eq!(
        get(&store, 4).is_empty(&JoiningRepo),
        Err(BackendError::CommitNotFound(id(8)))
    );
    assert_eq!(
        get(&store, 4).parent_tree(&JoiningRepo),
        Err(BackendError::CommitNotFound(id(8)))
    );
    let parents = get(&store, 4).parents();
    assert_eq!(parents.len(), 3);
    assert_eq!(parents[0].as_ref().map(|c| c.id().clone()), Ok(id(2)));
    assert_eq!(parents[1], Err(BackendError::CommitNotFound(id(8))));
    assert_eq!(parents[2], Err(BackendError::CommitNotFound(id(9))));
    assert_eq!(Store::get_commit(&store, &id(7)), Err(BackendError::CommitNotFound(id(7))));
}

#[test]
fn emptiness_compares_with_the_parent_tree() {
    let store = store_with(
        vec![
            (id(1), record(vec![], tree(10), "root")),
            (id(2), record(vec![id(1)], tree(10), "same tree, described")),
            (id(3), record(vec![id(1)], tree(11), "")),
            (id(4), record(vec![id(2), id(3)], MergedTreeId::Resolved(TreeId::new(vec![10, 11])), "")),
            (id(5), record(vec![id(2), id(3)], tree(10), "")),
            (id(6), record(vec![], MergedTreeId::Resolved(TreeId::new(vec![])), "")),
            (id(7), record(vec![id(2), id(8)], tree(10), "")),
            (id(8), record(vec![], tree(12), "")),
        ],
        vec![(10, false), (11, true)],
    );
    assert_eq!(get(&store, 2).is_empty(&JoiningRepo), Ok(true));
    assert_eq!(get(&store, 3).is_empty(&JoiningRepo), Ok(false));
    assert_eq!(get(&store, 4).is_empty(&JoiningRepo), Ok(true));
    assert_eq!(get(&store, 5).is_empty(&JoiningRepo), Ok(false));
    assert_eq!(get(&store, 6).is_empty(&JoiningRepo), Ok(true));
    assert_eq!(
        get(&store, 7).is_empty(&JoiningRepo),
        Err(BackendError::TreeNotFound(TreeId::new(vec![12])))
    );
    assert_eq!(
        get(&store, 2).parent_tree(&JoiningRepo),
        Ok(MergedTree::new(tree(10), false))
    );
    assert_eq!(
        get(&store, 4).parent_tree(&JoiningRepo),
        Ok(MergedTree::new(MergedTreeId::Resolved(TreeId::new(vec![10, 11])), false))
    );
    // The repository may be handed over as a trait object.
    let repo: &dyn Repo = &JoiningRepo;
    assert_eq!(get(&store, 4).is_empty(repo), Ok(true));
    let commit = get(&store, 3);
    assert_eq!(
        commit.is_empty_given_parent_tree(Ok(MergedTree::new(tree(11), false))),
        Ok(true)
    );
    assert_eq!(
        commit.is_empty_given_parent_tree(Err(BackendError::Other("x".to_string()))),
        Err(BackendError::Other("x".to_string()))
    );
}

#[test]
fn conflict_is_in_the_tree_reference_or_in_the_tree() {
    let conflicted =
        MergedTreeId::Conflicted(vec![TreeId::new(vec![10]), TreeId::new(vec![11]), TreeId::new(vec![12])]);
    let store = store_with(
        vec![
            (id(1), record(vec![], tree(10), "")),
            (id(2), record(vec![], tree(11), "")),
            (id(3), record(vec![], conflicted.clone(), "")),
            (id(4), record(vec![], tree(13), "")),
        ],
        vec![(10, false), (11, true), (12, false)],
    );
    assert_eq!(get(&store, 1).has_conflict(), Ok(false));
    assert_eq!(get(&store, 2).has_conflict(), Ok(true));
    assert_eq!(get(&store, 3).has_conflict(), Ok(true));
    assert_eq!(
        get(&store, 4).has_conflict(),
        Err(BackendError::TreeNotFound(TreeId::new(vec![13])))
    );
    assert_eq!(get(&store, 3).tree(), Ok(MergedTree::new(conflicted, true)));
    assert_eq!(get(&store, 1).tree(), Ok(MergedTree::new(tree(10), false)));
    let missing_side = MergedTreeId::Conflicted(vec![TreeId::new(vec![10]), TreeId::new(vec![14])]);
    assert_eq!(
        store.get_root_tree(&missing_side),
        Err(BackendError::TreeNotFound(TreeId::new(vec![14])))
    );
}

#[test]
fn unsigned_commit_has_no_verification_and_no_error() {
    let mut signed = record(vec![], tree(10), "signed");
    signed.secure_sig = Some(SecureSig { data: vec![1, 2], sig: vec![3, 4, 5] });
    let store = store_with(
        vec![(id(1), record(vec![], tree(10), "plain")), (id(2), signed)],
        vec![(10, false)],
    );
    let failing = FixedSigner(Err(SignError::Backend(String::new())));
    let malformed = FixedSigner(Err(SignError::InvalidSignatureFormat));
    assert_eq!(get(&store, 2).verification(&malformed), Err(SignError::InvalidSignatureFormat));
    assert_eq!(get(&store, 1).verification(&malformed), Ok(None));
    let good = FixedSigner(Ok(SigStatus::Good));
    assert!(!get(&store, 1).is_signed());
    assert!(get(&store, 2).is_signed());
    assert_eq!(get(&store, 1).verification(&failing), Ok(None));
    assert_eq!(
        get(&store, 2).verification(&failing),
        Err(SignError::Backend("no key ring".to_string()))
    );
    assert_eq!(
        get(&store, 2).verification(&good),
        Ok(Some(Verification { status: SigStatus::Good, key: Some("3".to_string()), display: None }))
    );
}

#[test]
fn commits_are_ordered_by_id_and_by_committer_time() {
    let mut late = record(vec![], tree(10), "late");
    late.committer = signature(50);
    let mut early = record(vec![], tree(10), "early");
    early.committer = signature(40);
    let mut tie = record(vec![], tree(10), "tie");
    tie.committer = signature(40);
    let store = store_with(vec![(id(1), late), (id(2), early), (id(3), tie)], vec![]);
    let c1 = get(&store, 1);
    let c2 = get(&store, 2);
    let c3 = get(&store, 3);
    assert_eq!(c1.order(&c2), Order::Less);
    assert_eq!(c2.order(&c1), Order::Greater);
    assert_eq!(c1.order(&c1.clone()), Order::Equal);
    assert!(c1 == get(&store, 1));
    assert!(c1 != c2);
    let t1 = CommitByCommitterTimestamp(c1.clone());
    let t2 = CommitByCommitterTimestamp(c2.clone());
    let t3 = CommitByCommitterTimestamp(c3.clone());
    assert_eq!(t1.order(&t2), Order::Greater);
    assert_eq!(t2.order(&t3), Order::Less);
    assert_eq!(t3.order(&t2), Order::Greater);
    assert_eq!(t2.order(&t2.clone()), Order::Equal);
    assert!(c1 < c2);
    assert!(c2 > c1);
    assert!(c1 <= c1.clone());
    assert!(t2 < t1);
    assert!(t2 < t3);
    assert!(t3 >= t2);
    let mut by_time = vec![t1.clone(), t3.clone(), t2.clone()];
    by_time.sort_by(|a, b| a.partial_cmp(b).unwrap());
    assert_eq!(by_time, vec![t2, t3, t1]);
    let commits = vec![c3, c1, c2];
    assert_eq!((&commits).ids(), vec![&id(3), &id(1), &id(2)]);
}

#[test]
fn commit_getters_return_the_record() {
    let mut data = record(vec![id(1), id(2)], tree(10), "hello");
    data.predecessors = vec![id(3)];
    let store = store_with(vec![(id(4), data)], vec![(10, false)]);
    let commit = get(&store, 4);
    assert_eq!(commit.id(), &id(4));
    assert_eq!(commit.parent_ids(), &[id(1), id(2)][..]);
    assert_eq!(commit.predecessor_ids(), &[id(3)][..]);
    assert_eq!(commit.tree_id(), &tree(10));
    assert_eq!(commit.change_id(), &ChangeId::new(vec![7]));
    assert_eq!(commit.description(), "hello");
    assert_eq!(commit.author(), &signature(1));
    assert_eq!(commit.committer(), &signature(2));
    assert_eq!(commit.store_commit().description, "hello");
    assert!(Arc::ptr_eq(commit.store(), &store));
    assert_eq!(commit.predecessors(), vec![Err(BackendError::CommitNotFound(id(3)))]);
    let rebuilt = Commit::new(store.clone(), id(4), Arc::new(record(vec![], tree(10), "other")));
    assert!(rebuilt == commit);
}
