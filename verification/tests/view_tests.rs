use jj_lib::backend::CommitId;
use jj_lib::op_store;
use jj_lib::op_store::BookmarkTarget;
use jj_lib::op_store::WorkspaceId;
use jj_lib::ref_name::RemoteRefSymbol;
use jj_lib::ref_target::RefTarget;
use jj_lib::ref_target::RemoteRef;
use jj_lib::ref_target::RemoteRefState;
use jj_lib::refs::LocalAndRemoteRef;
use jj_lib::str_util::StringPattern;
use jj_lib::view::RenameWorkspaceError;
use jj_lib::view::View;

fn id(byte: u8) -> CommitId {
    CommitId::new(vec![byte])
}

fn ws(name: &str) -> WorkspaceId {
    WorkspaceId::new(name.to_string())
}

fn normal(byte: u8) -> RefTarget {
    RefTarget::normal(id(byte))
}

fn symbol<'a>(name: &'a str, remote: &'a str) -> RemoteRefSymbol<'a> {
    RemoteRefSymbol { name, remote }
}

fn followed(byte: u8) -> RemoteRef {
    RemoteRef { target: normal(byte), state: RemoteRefState::Tracking }
}

fn fresh(byte: u8) -> RemoteRef {
    RemoteRef { target: normal(byte), state: RemoteRefState::New }
}

fn empty_view() -> View {
    View::new(op_store::View::empty())
}

fn sorted(mut ids: Vec<CommitId>) -> Vec<CommitId> {
    ids.sort();
    ids
}

/// A view with bookmarks on two remotes whose names interleave.
fn view_with_remotes() -> View {
    let mut view = empty_view();
    view.set_local_bookmark_target("main", normal(1));
    view.set_local_bookmark_target("dev", normal(2));
    view.set_remote_bookmark(symbol("main", "origin"), followed(1));
    view.set_remote_bookmark(symbol("topic", "origin"), fresh(3));
    view.set_remote_bookmark(symbol("main", "backup"), fresh(4));
    view.set_remote_bookmark(symbol("archive", "backup"), fresh(5));
    view.set_remote_bookmark(symbol("zeta", "backup"), fresh(6));
    view
}

#[test]
fn setting_an_absent_target_removes_the_bookmark() {
    let mut view = empty_view();
    view.set_local_bookmark_target("main", normal(1));
    view.set_local_bookmark_target("dev", normal(2));
    assert_eq!(view.get_local_bookmark("main"), &normal(1));
    view.set_local_bookmark_target("main", RefTarget::absent());
    assert!(view.get_local_bookmark("main").is_absent());
    let names: Vec<&str> = view.local_bookmarks().into_iter().map(|(name, _)| name).collect();
    assert_eq!(names, vec!["dev"]);
    assert_eq!(view.store_view().local_bookmarks.len(), 1);
    // Removing what is not there changes nothing.
    view.set_local_bookmark_target("other", RefTarget::absent());
    assert_eq!(view.local_bookmarks(), vec![("dev", &normal(2))]);
}

#[test]
fn rename_workspace_to_a_taken_name_fails_and_changes_nothing() {
    let mut view = empty_view();
    view.set_wc_commit(ws("a"), id(1));
    view.set_wc_commit(ws("b"), id(2));
    let result = view.rename_workspace(&ws("a"), ws("b"));
    assert_eq!(
        result,
        Err(RenameWorkspaceError::WorkspaceAlreadyExists { workspace_id: "b".to_string() })
    );
    assert_eq!(view.get_wc_commit_id(&ws("a")), Some(&id(1)));
    assert_eq!(view.get_wc_commit_id(&ws("b")), Some(&id(2)));
    assert_eq!(view.wc_commit_ids().len(), 2);
}

#[test]
fn rename_workspace_moves_the_binding() {
    let mut view = empty_view();
    view.set_wc_commit(ws("a"), id(1));
    assert_eq!(view.rename_workspace(&ws("a"), ws("c")), Ok(()));
    assert_eq!(view.get_wc_commit_id(&ws("a")), None);
    assert_eq!(view.get_wc_commit_id(&ws("c")), Some(&id(1)));
    let result = view.rename_workspace(&ws("a"), ws("d"));
    assert_eq!(
        result,
        Err(RenameWorkspaceError::WorkspaceDoesNotExist { workspace_id: "a".to_string() })
    );
    let error = result.unwrap_err();
    assert_eq!(error.workspace_id(), "a");
    assert_eq!(error.message(), "Workspace a not found");
    assert_eq!(
        RenameWorkspaceError::WorkspaceAlreadyExists { workspace_id: "b".to_string() }.message(),
        "Workspace b already exists"
    );
    assert_eq!(view.get_wc_commit_id(&ws("d")), None);
    assert_eq!(view.get_wc_commit_id(&ws("c")), Some(&id(1)));
    // The new name is looked at first.
    let result = view.rename_workspace(&ws("missing"), ws("c"));
    assert_eq!(
        result,
        Err(RenameWorkspaceError::WorkspaceAlreadyExists { workspace_id: "c".to_string() })
    );
    // A workspace cannot be renamed to its own name.
    let result = view.rename_workspace(&ws("c"), ws("c"));
    assert_eq!(
        result,
        Err(RenameWorkspaceError::WorkspaceAlreadyExists { workspace_id: "c".to_string() })
    );
    assert_eq!(view.get_wc_commit_id(&ws("c")), Some(&id(1)));
}

#[test]
fn workspaces_are_found_by_their_commit() {
    let mut view = empty_view();
    view.set_wc_commit(ws("second"), id(1));
    view.set_wc_commit(ws("default"), id(1));
    view.set_wc_commit(ws("third"), id(2));
    assert_eq!(view.workspaces_for_wc_commit_id(&id(1)), vec![ws("default"), ws("second")]);
    assert_eq!(view.workspaces_for_wc_commit_id(&id(2)), vec![ws("third")]);
    assert_eq!(view.workspaces_for_wc_commit_id(&id(3)), vec![]);
    assert!(view.is_wc_commit_id(&id(1)));
    assert!(view.is_wc_commit_id(&id(2)));
    assert!(!view.is_wc_commit_id(&id(3)));
    view.set_wc_commit(ws("third"), id(3));
    assert!(!view.is_wc_commit_id(&id(2)));
    assert!(view.is_wc_commit_id(&id(3)));
    view.remove_wc_commit(&ws("third"));
    assert!(!view.is_wc_commit_id(&id(3)));
    assert_eq!(view.get_wc_commit_id(&ws("third")), None);
    view.remove_wc_commit(&ws("third"));
    assert_eq!(view.wc_commit_ids().len(), 2);
    assert!(!empty_view().is_wc_commit_id(&id(1)));
}

#[test]
fn heads_form_a_set() {
    let mut view = empty_view();
    view.add_head(&id(2));
    view.add_head(&id(1));
    view.add_head(&id(2));
    assert_eq!(view.heads().len(), 2);
    assert!(view.heads().contains(&id(1)));
    assert!(view.heads().contains(&id(2)));
    assert!(!view.heads().contains(&id(3)));
    assert_eq!(view.heads().to_vec(), vec![id(1), id(2)]);
    assert_eq!(view.heads().id_at(1), &id(2));
    view.remove_head(&id(1));
    view.remove_head(&id(3));
    assert_eq!(view.heads().to_vec(), vec![id(2)]);
}

#[test]
fn tags_and_git_refs_are_sparse_maps_too() {
    let mut view = empty_view();
    view.set_tag_target("v2", normal(2));
    view.set_tag_target("v1", normal(1));
    view.set_tag_target("beta", normal(3));
    assert_eq!(view.get_tag("v1"), &normal(1));
    assert!(view.get_tag("v3").is_absent());
    assert_eq!(view.tags().len(), 3);
    assert_eq!(
        view.tags_matching(&StringPattern::glob("v*")),
        vec![("v1", &normal(1)), ("v2", &normal(2))]
    );
    assert_eq!(
        view.tags_matching(&StringPattern::everything()),
        vec![("beta", &normal(3)), ("v1", &normal(1)), ("v2", &normal(2))]
    );
    view.set_tag_target("v1", RefTarget::absent());
    assert!(view.get_tag("v1").is_absent());
    assert_eq!(view.tags().len(), 2);

    view.set_git_ref_target("refs/heads/main", normal(1));
    assert_eq!(view.get_git_ref("refs/heads/main"), &normal(1));
    assert!(view.get_git_ref("refs/heads/other").is_absent());
    view.set_git_ref_target("refs/heads/main", RefTarget::absent());
    assert_eq!(view.git_refs().len(), 0);

    assert!(view.git_head().is_absent());
    view.set_git_head_target(normal(4));
    assert_eq!(view.git_head(), &normal(4));
    view.set_git_head_target(RefTarget::absent());
    assert!(view.git_head().is_absent());
}

#[test]
fn local_bookmarks_are_listed_in_name_order() {
    let mut view = empty_view();
    view.set_local_bookmark_target("main", normal(1));
    view.set_local_bookmark_target("dev", normal(2));
    view.set_local_bookmark_target("feature", RefTarget::from_legacy_form(vec![id(1)], vec![id(2), id(3)]));
    let conflicted = RefTarget::from_legacy_form(vec![id(1)], vec![id(2), id(3)]);
    assert_eq!(
        view.local_bookmarks(),
        vec![("dev", &normal(2)), ("feature", &conflicted), ("main", &normal(1))]
    );
    assert_eq!(
        view.local_bookmarks_matching(&StringPattern::substring("e")),
        vec![("dev", &normal(2)), ("feature", &conflicted)]
    );
    assert_eq!(
        view.local_bookmarks_matching(&StringPattern::exact("main")),
        vec![("main", &normal(1))]
    );
    assert_eq!(view.local_bookmarks_matching(&StringPattern::exact("nope")), vec![]);
    // A bookmark is found by any commit that its target adds, not by one it removes.
    assert_eq!(
        view.local_bookmarks_for_commit(&id(2)),
        vec![("dev", &normal(2)), ("feature", &conflicted)]
    );
    assert_eq!(view.local_bookmarks_for_commit(&id(3)), vec![("feature", &conflicted)]);
    assert_eq!(view.local_bookmarks_for_commit(&id(1)), vec![("main", &normal(1))]);
    assert_eq!(view.local_bookmarks_for_commit(&id(9)), vec![]);
}

#[test]
fn remote_bookmarks_are_kept_per_remote() {
    let mut view = view_with_remotes();
    assert_eq!(view.get_remote_bookmark(symbol("main", "origin")), &followed(1));
    assert_eq!(view.get_remote_bookmark(symbol("main", "backup")), &fresh(4));
    assert!(view.get_remote_bookmark(symbol("dev", "origin")).is_absent());
    assert!(view.get_remote_bookmark(symbol("main", "nowhere")).is_absent());
    assert_eq!(
        view.remote_bookmarks("origin"),
        vec![("main", &followed(1)), ("topic", &fresh(3))]
    );
    assert_eq!(
        view.remote_bookmarks("backup"),
        vec![("archive", &fresh(5)), ("main", &fresh(4)), ("zeta", &fresh(6))]
    );
    assert_eq!(view.remote_bookmarks("nowhere"), vec![]);

    // An absent target removes the bookmark and leaves the remote known.
    view.set_remote_bookmark(symbol("topic", "origin"), RemoteRef::absent());
    view.set_remote_bookmark(symbol("main", "origin"), RemoteRef::absent());
    assert_eq!(view.remote_bookmarks("origin"), vec![]);
    assert!(view.store_view().remote_views.contains_key(b"origin"));
    // On an unknown remote it does nothing.
    view.set_remote_bookmark(symbol("main", "nowhere"), RemoteRef::absent());
    assert!(!view.store_view().remote_views.contains_key(b"nowhere"));
    // An absent target is never stored, whatever the state says.
    view.set_remote_bookmark(
        symbol("ghost", "backup"),
        RemoteRef { target: RefTarget::absent(), state: RemoteRefState::Tracking },
    );
    assert_eq!(view.remote_bookmarks("backup").len(), 3);
}

#[test]
fn all_remote_bookmarks_are_listed_by_name_then_remote() {
    let view = view_with_remotes();
    assert_eq!(
        view.all_remote_bookmarks(),
        vec![
            (symbol("archive", "backup"), &fresh(5)),
            (symbol("main", "backup"), &fresh(4)),
            (symbol("main", "origin"), &followed(1)),
            (symbol("topic", "origin"), &fresh(3)),
            (symbol("zeta", "backup"), &fresh(6)),
        ]
    );
    assert_eq!(empty_view().all_remote_bookmarks(), vec![]);
}

#[test]
fn remote_bookmarks_matching_filters_both_names() {
    let view = view_with_remotes();
    let everything = StringPattern::everything();
    assert_eq!(
        view.remote_bookmarks_matching(&StringPattern::exact("main"), &everything),
        vec![(symbol("main", "backup"), &fresh(4)), (symbol("main", "origin"), &followed(1))]
    );
    assert_eq!(
        view.remote_bookmarks_matching(&everything, &StringPattern::exact("origin")),
        vec![(symbol("main", "origin"), &followed(1)), (symbol("topic", "origin"), &fresh(3))]
    );
    assert_eq!(
        view.remote_bookmarks_matching(&StringPattern::glob("*a*"), &StringPattern::glob("b*")),
        vec![
            (symbol("archive", "backup"), &fresh(5)),
            (symbol("main", "backup"), &fresh(4)),
            (symbol("zeta", "backup"), &fresh(6)),
        ]
    );
    assert_eq!(
        view.remote_bookmarks_matching(&StringPattern::exact("main"), &StringPattern::exact("x")),
        vec![]
    );
    assert_eq!(view.remote_bookmarks_matching(&everything, &everything), view.all_remote_bookmarks());
}

#[test]
fn local_and_remote_bookmarks_are_joined_by_name() {
    let view = view_with_remotes();
    let absent = RefTarget::absent();
    let absent_remote = RemoteRef::absent();
    assert_eq!(
        view.local_remote_bookmarks("origin"),
        vec![
            ("dev", LocalAndRemoteRef { local_target: &normal(2), remote_ref: &absent_remote }),
            ("main", LocalAndRemoteRef { local_target: &normal(1), remote_ref: &followed(1) }),
            ("topic", LocalAndRemoteRef { local_target: &absent, remote_ref: &fresh(3) }),
        ]
    );
    assert_eq!(
        view.local_remote_bookmarks("nowhere"),
        vec![
            ("dev", LocalAndRemoteRef { local_target: &normal(2), remote_ref: &absent_remote }),
            ("main", LocalAndRemoteRef { local_target: &normal(1), remote_ref: &absent_remote }),
        ]
    );
    assert_eq!(
        view.local_remote_bookmarks_matching(&StringPattern::substring("i"), "backup"),
        vec![
            ("archive", LocalAndRemoteRef { local_target: &absent, remote_ref: &fresh(5) }),
            ("main", LocalAndRemoteRef { local_target: &normal(1), remote_ref: &fresh(4) }),
        ]
    );
    assert_eq!(
        view.local_remote_bookmarks_matching(&StringPattern::exact("dev"), "backup"),
        vec![("dev", LocalAndRemoteRef { local_target: &normal(2), remote_ref: &absent_remote })]
    );
    assert_eq!(
        view.local_remote_bookmarks_matching(&StringPattern::exact("none"), "backup"),
        vec![]
    );
}

#[test]
fn bookmarks_join_the_local_and_all_remotes() {
    let view = view_with_remotes();
    let absent = RefTarget::absent();
    assert_eq!(
        view.bookmarks(),
        vec![
            (
                "archive",
                BookmarkTarget { local_target: &absent, remote_refs: vec![("backup", &fresh(5))] }
            ),
            ("dev", BookmarkTarget { local_target: &normal(2), remote_refs: vec![] }),
            (
                "main",
                BookmarkTarget {
                    local_target: &normal(1),
                    remote_refs: vec![("backup", &fresh(4)), ("origin", &followed(1))]
                }
            ),
            (
                "topic",
                BookmarkTarget { local_target: &absent, remote_refs: vec![("origin", &fresh(3))] }
            ),
            (
                "zeta",
                BookmarkTarget { local_target: &absent, remote_refs: vec![("backup", &fresh(6))] }
            ),
        ]
    );
    assert_eq!(empty_view().bookmarks(), vec![]);
}

#[test]
fn remotes_can_be_removed_and_renamed() {
    let mut view = view_with_remotes();
    view.rename_remote("origin", "mirror");
    assert_eq!(view.remote_bookmarks("origin"), vec![]);
    assert_eq!(
        view.remote_bookmarks("mirror"),
        vec![("main", &followed(1)), ("topic", &fresh(3))]
    );
    // Renaming an unknown remote changes nothing.
    view.rename_remote("origin", "backup");
    assert_eq!(view.remote_bookmarks("backup").len(), 3);
    // Renaming onto a known remote replaces it.
    view.rename_remote("mirror", "backup");
    assert_eq!(
        view.remote_bookmarks("backup"),
        vec![("main", &followed(1)), ("topic", &fresh(3))]
    );
    view.remove_remote("backup");
    assert_eq!(view.all_remote_bookmarks(), vec![]);
    view.remove_remote("backup");
    assert_eq!(view.store_view().remote_views.len(), 0);
}

#[test]
fn all_referenced_commit_ids_include_both_sides_of_a_conflict() {
    let mut view = empty_view();
    // adds = {X, Y}, removes = {Z}
    view.set_local_bookmark_target(
        "main",
        RefTarget::from_legacy_form(vec![id(30)], vec![id(10), id(20)]),
    );
    let ids = view.all_referenced_commit_ids();
    assert!(ids.contains(&id(10)));
    assert!(ids.contains(&id(20)));
    assert!(ids.contains(&id(30)));
    assert_eq!(sorted(ids), vec![id(10), id(20), id(30)]);
}

#[test]
fn all_referenced_commit_ids_cover_every_field() {
    let mut view = empty_view();
    assert_eq!(view.all_referenced_commit_ids(), vec![]);
    view.add_head(&id(1));
    view.set_local_bookmark_target("main", normal(2));
    view.set_tag_target("v1", RefTarget::from_legacy_form(vec![id(4)], vec![id(3)]));
    view.set_remote_bookmark(symbol("main", "origin"), followed(5));
    view.set_remote_bookmark(
        symbol("dev", "backup"),
        RemoteRef {
            target: RefTarget::from_legacy_form(vec![id(6)], vec![id(7), id(8)]),
            state: RemoteRefState::New,
        },
    );
    view.set_git_ref_target("refs/heads/main", normal(9));
    view.set_git_head_target(RefTarget::from_legacy_form(vec![id(10)], vec![id(11), id(12)]));
    view.set_wc_commit(ws("default"), id(13));
    view.set_wc_commit(ws("second"), id(1));
    let mut ids = sorted(view.all_referenced_commit_ids());
    ids.dedup();
    assert_eq!(ids, (1..=13).map(id).collect::<Vec<_>>());
}

#[test]
fn the_data_of_a_view_can_be_read_and_replaced() {
    let mut view = empty_view();
    view.set_local_bookmark_target("main", normal(1));
    assert_eq!(view.store_view().local_bookmarks.len(), 1);
    view.store_view_mut().git_head = normal(2);
    assert_eq!(view.git_head(), &normal(2));
    let mut data = op_store::View::empty();
    data.head_ids.insert(id(7));
    view.set_view(data);
    assert!(view.get_local_bookmark("main").is_absent());
    assert!(view.heads().contains(&id(7)));
    assert!(view.git_head().is_absent());
    assert_eq!(view, {
        let mut other = empty_view();
        other.add_head(&id(7));
        other
    });
}

#[test]
fn a_clone_of_a_view_is_a_view_of_its_own() {
    let view = view_with_remotes();
    let mut copy = view.clone();
    assert_eq!(copy, view);
    copy.set_local_bookmark_target("main", normal(9));
    copy.add_head(&id(9));
    assert_eq!(view.get_local_bookmark("main"), &normal(1));
    assert_eq!(copy.get_local_bookmark("main"), &normal(9));
    assert!(!view.heads().contains(&id(9)));
    assert!(copy != view);
}

/// A small generator of numbers that look random.
struct Numbers(u64);

impl Numbers {
    fn next(&mut self, below: u64) -> u64 {
        self.0 = self.0.wrapping_mul(6364136223846793005).wrapping_add(1442695040888963407);
        (self.0 >> 33) % below
    }
}

#[test]
fn remote_bookmarks_agree_with_a_map_kept_beside() {
    let names = ["a", "b", "c", "main", "x/y"];
    let remotes = ["backup", "fork", "origin"];
    let mut numbers = Numbers(7);
    let mut view = empty_view();
    let mut beside = std::collections::BTreeMap::new();
    for step in 0..400 {
        let name = names[numbers.next(5) as usize];
        let remote = remotes[numbers.next(3) as usize];
        let byte = numbers.next(4) as u8;
        if byte == 0 {
            view.set_remote_bookmark(symbol(name, remote), RemoteRef::absent());
            beside.remove(&(name, remote));
        } else {
            view.set_remote_bookmark(symbol(name, remote), fresh(byte));
            beside.insert((name, remote), fresh(byte));
        }
        if step % 10 == 0 {
            let expected: Vec<_> =
                beside.iter().map(|((name, remote), r)| (symbol(name, remote), r)).collect();
            assert_eq!(view.all_remote_bookmarks(), expected);
            for remote in remotes {
                let expected: Vec<_> = beside
                    .iter()
                    .filter(|((_, r), _)| *r == remote)
                    .map(|((name, _), r)| (*name, r))
                    .collect();
                assert_eq!(view.remote_bookmarks(remote), expected);
            }
        }
    }
}

#[test]
fn local_bookmarks_agree_with_a_map_kept_beside() {
    let names = ["a", "b", "c", "main", "x/y", ""];
    let mut numbers = Numbers(11);
    let mut view = empty_view();
    let mut beside = std::collections::BTreeMap::new();
    for _ in 0..400 {
        let name = names[numbers.next(6) as usize];
        let byte = numbers.next(4) as u8;
        if byte == 0 {
            view.set_local_bookmark_target(name, RefTarget::absent());
            beside.remove(name);
        } else {
            view.set_local_bookmark_target(name, normal(byte));
            beside.insert(name, normal(byte));
        }
        let expected: Vec<_> = beside.iter().map(|(name, target)| (*name, target)).collect();
        assert_eq!(view.local_bookmarks(), expected);
        for name in names {
            assert_eq!(view.get_local_bookmark(name), beside.get(name).unwrap_or(&RefTarget::absent()));
        }
    }
}
