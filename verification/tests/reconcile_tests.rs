use jj_lib::backend::CommitId;
use jj_lib::op_store;
use jj_lib::op_store::WorkspaceId;
use jj_lib::ref_name::RemoteRefSymbol;
use jj_lib::ref_target::RefTarget;
use jj_lib::ref_target::RemoteRef;
use jj_lib::ref_target::RemoteRefState;
use jj_lib::reconcile::merge_heads;
use jj_lib::reconcile::merge_remote_refs;
use jj_lib::reconcile::merge_views;
use jj_lib::view::View;

fn id(byte: u8) -> CommitId {
    CommitId::new(vec![byte])
}

fn ws(name: &str) -> WorkspaceId {
    WorkspaceId::new(name.to_string())
}

fn normal(byte: u8) -> RefTarget {
    RefTarget::normal(id(byte))
}

fn symbol<'a>(name: &'a str, remote: &'a str) -> RemoteRefSymbol<'a> {
    RemoteRefSymbol { name, remote }
}

fn remote_ref(byte: u8, state: RemoteRefState) -> RemoteRef {
    RemoteRef { target: normal(byte), state }
}

fn empty_view() -> View {
    View::new(op_store::View::empty())
}

fn base_view() -> View {
    let mut view = empty_view();
    view.set_local_bookmark_target("main", normal(1));
    view.add_head(&id(1));
    view.set_wc_commit(ws("default"), id(1));
    view
}

#[test]
fn concurrent_moves_of_a_bookmark_become_a_conflict() {
    let base = base_view();
    let mut first = base_view();
    first.set_local_bookmark_target("main", normal(2));
    let mut second = base_view();
    second.set_local_bookmark_target("main", normal(3));

    let merged = merge_views(&base, &first, &second);
    let main = merged.get_local_bookmark("main");
    assert!(main.has_conflict());
    assert_eq!(main.added_ids(), vec![id(2), id(3)]);
    assert_eq!(main.removed_ids(), vec![id(1)]);
    assert_eq!(main, &RefTarget::from_legacy_form(vec![id(1)], vec![id(2), id(3)]));
    // The other way round gives the same bookmark.
    let swapped = merge_views(&base, &second, &first);
    assert_eq!(swapped.get_local_bookmark("main"), main);
}

#[test]
fn a_change_on_one_side_is_taken_over() {
    let base = base_view();
    let mut first = base_view();
    first.set_local_bookmark_target("main", normal(2));
    first.set_tag_target("v1", normal(2));
    first.set_git_head_target(normal(2));
    let mut second = base_view();
    second.set_local_bookmark_target("dev", normal(3));
    second.set_git_ref_target("refs/heads/dev", normal(3));

    let merged = merge_views(&base, &first, &second);
    assert_eq!(merged.local_bookmarks(), vec![("dev", &normal(3)), ("main", &normal(2))]);
    assert_eq!(merged.get_tag("v1"), &normal(2));
    assert_eq!(merged.get_git_ref("refs/heads/dev"), &normal(3));
    assert_eq!(merged.git_head(), &normal(2));
    assert_eq!(merge_views(&base, &base, &second), second);
    assert_eq!(merge_views(&base, &first, &base), first);
    assert_eq!(merge_views(&base, &base, &base), base);
}

#[test]
fn a_bookmark_deleted_on_one_side_is_deleted() {
    let base = base_view();
    let mut first = base_view();
    first.set_local_bookmark_target("main", RefTarget::absent());
    let second = base_view();
    let merged = merge_views(&base, &first, &second);
    assert!(merged.get_local_bookmark("main").is_absent());
    assert_eq!(merged.local_bookmarks(), vec![]);
    // Deleted on both sides.
    let merged = merge_views(&base, &first, &first);
    assert_eq!(merged.local_bookmarks(), vec![]);
    // Deleted on one side, moved on the other: kept as a conflict.
    let mut moved = base_view();
    moved.set_local_bookmark_target("main", normal(2));
    let merged = merge_views(&base, &first, &moved);
    assert_eq!(
        merged.get_local_bookmark("main"),
        &RefTarget::from_legacy_form(vec![id(1)], vec![id(2)])
    );
}

#[test]
fn heads_are_merged_as_sets() {
    let base = base_view();
    let mut first = base_view();
    first.remove_head(&id(1));
    first.add_head(&id(2));
    let mut second = base_view();
    second.add_head(&id(3));
    let merged = merge_views(&base, &first, &second);
    assert_eq!(merged.heads().to_vec(), vec![id(2), id(3)]);

    let mut b = op_store::View::empty();
    b.head_ids.insert(id(1));
    b.head_ids.insert(id(2));
    let mut x = op_store::View::empty();
    x.head_ids.insert(id(1));
    x.head_ids.insert(id(4));
    let mut y = op_store::View::empty();
    y.head_ids.insert(id(1));
    y.head_ids.insert(id(2));
    y.head_ids.insert(id(4));
    y.head_ids.insert(id(5));
    assert_eq!(merge_heads(&b.head_ids, &x.head_ids, &y.head_ids).to_vec(), vec![id(1), id(4), id(5)]);
    assert_eq!(merge_heads(&b.head_ids, &y.head_ids, &x.head_ids).to_vec(), vec![id(1), id(4), id(5)]);
}

#[test]
fn the_later_side_wins_a_workspace() {
    let base = base_view();
    let mut first = base_view();
    first.set_wc_commit(ws("default"), id(2));
    first.set_wc_commit(ws("first"), id(4));
    let mut second = base_view();
    second.set_wc_commit(ws("default"), id(3));
    second.set_wc_commit(ws("second"), id(5));

    let merged = merge_views(&base, &first, &second);
    assert_eq!(merged.get_wc_commit_id(&ws("default")), Some(&id(3)));
    assert_eq!(merged.get_wc_commit_id(&ws("first")), Some(&id(4)));
    assert_eq!(merged.get_wc_commit_id(&ws("second")), Some(&id(5)));
    let merged = merge_views(&base, &second, &first);
    assert_eq!(merged.get_wc_commit_id(&ws("default")), Some(&id(2)));

    // What the later side left alone keeps the earlier side's change.
    let merged = merge_views(&base, &first, &base);
    assert_eq!(merged.get_wc_commit_id(&ws("default")), Some(&id(2)));
    // A workspace that the later side removed is gone.
    let mut removed = base_view();
    removed.remove_wc_commit(&ws("default"));
    let merged = merge_views(&base, &first, &removed);
    assert_eq!(merged.get_wc_commit_id(&ws("default")), None);
    // One that the earlier side removed stays gone if the later side left it alone.
    let merged = merge_views(&base, &removed, &base);
    assert_eq!(merged.get_wc_commit_id(&ws("default")), None);
}

#[test]
fn remote_bookmarks_are_merged_per_remote() {
    let mut base = base_view();
    base.set_remote_bookmark(symbol("main", "origin"), remote_ref(1, RemoteRefState::New));
    base.set_remote_bookmark(symbol("old", "gone"), remote_ref(1, RemoteRefState::New));
    let mut first = base_view();
    first.set_remote_bookmark(symbol("main", "origin"), remote_ref(2, RemoteRefState::New));
    first.set_remote_bookmark(symbol("old", "gone"), remote_ref(1, RemoteRefState::New));
    first.set_remote_bookmark(symbol("topic", "fork"), remote_ref(7, RemoteRefState::New));
    let mut second = base_view();
    second.set_remote_bookmark(symbol("main", "origin"), remote_ref(1, RemoteRefState::Tracking));
    second.set_remote_bookmark(symbol("old", "gone"), remote_ref(1, RemoteRefState::New));
    second.remove_remote("gone");

    let merged = merge_views(&base, &first, &second);
    assert_eq!(
        merged.get_remote_bookmark(symbol("main", "origin")),
        &remote_ref(2, RemoteRefState::Tracking)
    );
    assert_eq!(
        merged.get_remote_bookmark(symbol("topic", "fork")),
        &remote_ref(7, RemoteRefState::New)
    );
    assert!(merged.get_remote_bookmark(symbol("old", "gone")).is_absent());
    assert!(!merged.store_view().remote_views.contains_key(b"gone"));
    assert_eq!(merged.store_view().remote_views.len(), 2);
}

#[test]
fn remote_refs_merge_target_and_state_apart() {
    let new1 = remote_ref(1, RemoteRefState::New);
    let followed1 = remote_ref(1, RemoteRefState::Tracking);
    let new2 = remote_ref(2, RemoteRefState::New);
    assert_eq!(merge_remote_refs(&new1, &followed1, &new2), remote_ref(2, RemoteRefState::Tracking));
    assert_eq!(merge_remote_refs(&new1, &new2, &followed1), remote_ref(2, RemoteRefState::Tracking));
    assert_eq!(merge_remote_refs(&followed1, &new1, &followed1), new1);
    assert_eq!(merge_remote_refs(&new1, &new1, &new1), new1);
    let merged = merge_remote_refs(&new1, &new2, &remote_ref(3, RemoteRefState::New));
    assert!(merged.target.has_conflict());
    assert!(!merged.is_tracking());
}
