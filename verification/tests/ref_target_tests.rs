use jj_lib::backend::CommitId;
use jj_lib::ref_target::RefTarget;
use jj_lib::ref_target::RemoteRef;
use jj_lib::ref_target::RemoteRefState;
use jj_lib::refs::merge_ref_targets;

fn id(byte: u8) -> CommitId {
    CommitId::new(vec![byte])
}

fn normal(byte: u8) -> RefTarget {
    RefTarget::normal(id(byte))
}

fn conflict(removes: &[u8], adds: &[u8]) -> RefTarget {
    RefTarget::from_legacy_form(
        removes.iter().map(|b| id(*b)).collect(),
        adds.iter().map(|b| id(*b)).collect(),
    )
}

fn samples() -> Vec<RefTarget> {
    vec![
        RefTarget::absent(),
        normal(1),
        normal(2),
        normal(3),
        conflict(&[1], &[2, 3]),
        conflict(&[], &[2, 3]),
        conflict(&[1], &[2]),
        conflict(&[1, 4], &[2, 3, 5]),
        conflict(&[2], &[]),
        conflict(&[1], &[3, 3]),
    ]
}

#[test]
fn merge_of_diverged_sides_is_a_conflict() {
    let merged = merge_ref_targets(&normal(1), &normal(2), &normal(3));
    assert!(merged.has_conflict());
    assert!(merged.is_present());
    assert_eq!(merged.as_normal(), None);
    assert_eq!(merged.added_ids(), vec![id(2), id(3)]);
    assert_eq!(merged.removed_ids(), vec![id(1)]);
    assert_eq!(merged, conflict(&[1], &[3, 2]));
}

#[test]
fn merge_of_diverged_sides_from_absent_base_removes_nothing() {
    let merged = merge_ref_targets(&RefTarget::absent(), &normal(2), &normal(3));
    assert!(merged.has_conflict());
    assert_eq!(merged.added_ids(), vec![id(2), id(3)]);
    assert_eq!(merged.removed_ids(), vec![]);
}

#[test]
fn merge_is_commutative_in_the_two_sides() {
    for base in samples() {
        for a in samples() {
            for b in samples() {
                assert_eq!(merge_ref_targets(&base, &a, &b), merge_ref_targets(&base, &b, &a));
            }
        }
    }
}

#[test]
fn merge_of_unchanged_target_is_the_target() {
    for t in samples() {
        assert_eq!(merge_ref_targets(&t, &t, &t), t);
    }
}

#[test]
fn merge_takes_the_side_that_changed() {
    for base in samples() {
        for other in samples() {
            assert_eq!(merge_ref_targets(&base, &base, &other), other);
            assert_eq!(merge_ref_targets(&base, &other, &base), other);
        }
    }
    assert_eq!(merge_ref_targets(&normal(1), &normal(1), &normal(2)), normal(2));
    assert_eq!(merge_ref_targets(&normal(1), &RefTarget::absent(), &normal(1)), RefTarget::absent());
}

#[test]
fn sides_that_agree_merge_to_what_they_say() {
    assert_eq!(merge_ref_targets(&normal(1), &normal(2), &normal(2)), normal(2));
    assert_eq!(
        merge_ref_targets(&normal(1), &RefTarget::absent(), &RefTarget::absent()),
        RefTarget::absent()
    );
    let c = conflict(&[1], &[2, 3]);
    assert_eq!(merge_ref_targets(&normal(1), &c, &c), c);
}

#[test]
fn deleting_on_one_side_and_moving_on_the_other_is_a_conflict() {
    let merged = merge_ref_targets(&normal(1), &RefTarget::absent(), &normal(2));
    assert!(merged.has_conflict());
    assert!(!merged.is_absent());
    assert_eq!(merged.as_normal(), None);
    assert_eq!(merged.added_ids(), vec![id(2)]);
    assert_eq!(merged.removed_ids(), vec![id(1)]);
}

#[test]
fn merging_a_conflict_with_its_resolution_resolves_it() {
    // One side resolved the conflict to 2, the other left it.
    let c = conflict(&[1], &[2, 3]);
    assert_eq!(merge_ref_targets(&c, &normal(2), &c), normal(2));
    // Both sides took a different way out.
    let merged = merge_ref_targets(&c, &normal(2), &normal(3));
    assert_eq!(merged, normal(1));
}

#[test]
fn legacy_form_is_put_in_order_and_cancelled() {
    let t = conflict(&[5, 1], &[9, 1, 3]);
    assert_eq!(t.added_ids(), vec![id(3), id(9)]);
    assert_eq!(t.removed_ids(), vec![id(5)]);
    assert!(t.has_conflict());
    assert_eq!(conflict(&[], &[]), RefTarget::absent());
    assert_eq!(conflict(&[], &[4]), normal(4));
    assert_eq!(conflict(&[7], &[7, 4]), normal(4));
    assert_eq!(conflict(&[7], &[7]), RefTarget::absent());
    let twice = conflict(&[], &[4, 4]);
    assert!(twice.has_conflict());
    assert_eq!(twice.added_ids(), vec![id(4), id(4)]);
    assert_eq!(conflict(&[4], &[4, 4]), normal(4));
}

#[test]
fn ids_are_ordered_by_their_bytes() {
    let t = RefTarget::from_legacy_form(
        vec![],
        vec![CommitId::new(vec![2]), CommitId::new(vec![1, 255]), CommitId::new(vec![1]), CommitId::new(vec![])],
    );
    assert_eq!(
        t.added_ids(),
        vec![CommitId::new(vec![]), CommitId::new(vec![1]), CommitId::new(vec![1, 255]), CommitId::new(vec![2])]
    );
}

#[test]
fn queries_tell_the_three_states_apart() {
    let absent = RefTarget::absent();
    assert!(absent.is_absent());
    assert!(!absent.is_present());
    assert!(!absent.has_conflict());
    assert_eq!(absent.as_normal(), None);
    assert_eq!(absent.added_ids(), vec![]);
    assert_eq!(absent.removed_ids(), vec![]);

    let resolved = normal(1);
    assert!(!resolved.is_absent());
    assert!(resolved.is_present());
    assert!(!resolved.has_conflict());
    assert_eq!(resolved.as_normal(), Some(&id(1)));
    assert_eq!(resolved.added_ids(), vec![id(1)]);
    assert_eq!(resolved.removed_ids(), vec![]);

    let conflicted = conflict(&[1], &[2, 3]);
    assert!(!conflicted.is_absent());
    assert!(conflicted.is_present());
    assert!(conflicted.has_conflict());
    assert_eq!(conflicted.as_normal(), None);

    assert_eq!(RefTarget::resolved(None), absent);
    assert_eq!(RefTarget::resolved(Some(id(1))), resolved);
    assert!(resolved.same_target(&resolved.clone()));
    assert!(!resolved.same_target(&normal(2)));
    assert!(conflicted.same_target(&conflict(&[1], &[3, 2])));
    assert!(!conflicted.same_target(&conflict(&[1], &[2, 4])));
    assert_eq!(conflicted.to_parts(), (vec![id(2), id(3)], vec![id(1)]));
    assert_eq!(
        RefTarget::from_sorted_parts(vec![id(2), id(3)], vec![id(1)]),
        conflicted
    );
    assert_eq!(RefTarget::from_sorted_parts(vec![id(2)], vec![]), normal(2));
    assert_eq!(RefTarget::from_sorted_parts(vec![], vec![]), absent);
}

#[test]
fn absent_ref_is_absent() {
    assert!(RefTarget::absent_ref().is_absent());
    assert_eq!(RefTarget::absent_ref(), &RefTarget::absent());
    assert!(RemoteRef::absent_ref().is_absent());
    assert!(!RemoteRef::absent_ref().is_tracking());
    assert_eq!(RemoteRef::absent_ref(), &RemoteRef::absent());
}

#[test]
fn remote_ref_says_whether_it_is_followed() {
    let followed = RemoteRef { target: normal(1), state: RemoteRefState::Tracking };
    let new = RemoteRef { target: normal(1), state: RemoteRefState::New };
    assert!(followed.is_tracking());
    assert!(!new.is_tracking());
    assert!(followed.is_present());
    assert!(!followed.is_absent());
    assert_eq!(followed.clone(), followed);
    assert!(followed != new);
}
