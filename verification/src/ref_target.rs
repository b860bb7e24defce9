//! The target of a named reference: absent, one commit, or an unresolved
//! merge of several.

use vstd::prelude::*;
use vstd::multiset::Multiset;
use crate::backend::CommitId;
use crate::byte_order::Order;
use crate::byte_order::lemma_lex_total;
use crate::sorted_ids::bag;
use crate::sorted_ids::cancel;
use crate::sorted_ids::clone_ids;
use crate::sorted_ids::compare_ids;
use crate::sorted_ids::disjoint;
use crate::sorted_ids::increasing;
use crate::sorted_ids::lemma_bag_contains;
use crate::sorted_ids::lemma_bag_single;
use crate::sorted_ids::lemma_increasing_unique;
use crate::sorted_ids::lemma_same_ids_same_bag;
use crate::sorted_ids::same_ids;
use crate::sorted_ids::sort_ids;

verus! {

/// What a reference target says: the commits it adds and the commits it
/// removes, each as often as it names them.
pub struct TargetModel {
    pub adds: Multiset<Seq<u8>>,
    pub removes: Multiset<Seq<u8>>,
}

impl TargetModel {
    /// The target of a reference that points nowhere.
    pub open spec fn absent() -> Self {
        TargetModel { adds: Multiset::empty(), removes: Multiset::empty() }
    }

    /// The target that points at the single commit `id`.
    pub open spec fn resolved(id: Seq<u8>) -> Self {
        TargetModel { adds: Multiset::singleton(id), removes: Multiset::empty() }
    }

    /// What is left of `pos` added and `neg` removed once every commit that
    /// is both added and removed has been struck from both sides.
    pub open spec fn normalized(pos: Multiset<Seq<u8>>, neg: Multiset<Seq<u8>>) -> Self {
        TargetModel { adds: pos.sub(neg), removes: neg.sub(pos) }
    }

    /// No commit is both added and removed.
    pub open spec fn wf(self) -> bool {
        forall|v: Seq<u8>| self.adds.count(v) == 0 || self.removes.count(v) == 0
    }

    /// The target points nowhere.
    pub open spec fn is_absent(self) -> bool {
        self.adds.len() == 0 && self.removes.len() == 0
    }

    /// The target points at exactly one commit.
    pub open spec fn is_resolved(self) -> bool {
        self.adds.len() == 1 && self.removes.len() == 0
    }

    /// The target is neither absent nor a single commit.
    pub open spec fn has_conflict(self) -> bool {
        !self.is_absent() && !self.is_resolved()
    }

    /// Every commit the target names, added or removed.
    pub open spec fn ids(self) -> Set<Seq<u8>> {
        self.adds.dom().union(self.removes.dom())
    }
}

/// A target is absent exactly when it is the absent target, and resolved
/// exactly when it is the resolved target of some commit.
pub proof fn lemma_target_states(t: TargetModel)
    ensures
        t.is_absent() <==> t == TargetModel::absent(),
        t.is_resolved() <==> exists|id: Seq<u8>| t == TargetModel::resolved(id),
        t.is_resolved() ==> t == TargetModel::resolved(t.adds.choose()),
{
    broadcast use vstd::multiset::group_multiset_axioms;

    if t.is_absent() {
        assert(t.adds =~= Multiset::empty());
        assert(t.removes =~= Multiset::empty());
    }
    if t.is_resolved() {
        assert(t.removes =~= Multiset::empty());
        Multiset::lemma_is_singleton(t.adds);
        t.adds.lemma_is_singleton_contains_elem_equal_singleton(t.adds.choose());
        assert(t == TargetModel::resolved(t.adds.choose()));
    }
}

#[derive(Debug, PartialEq, Eq)]
enum TargetState {
    Absent,
    Normal(CommitId),
    Conflicted { adds: Vec<CommitId>, removes: Vec<CommitId> },
}

/// The target of a bookmark, tag or other named reference.
///
/// A conflicted target keeps its added and its removed commits in
/// increasing order, with no commit on both sides, so that equal targets
/// are stored identically.
#[derive(Debug, PartialEq, Eq)]
pub struct RefTarget {
    state: TargetState,
}

impl View for RefTarget {
    type V = TargetModel;

    closed spec fn view(&self) -> TargetModel {
        match self.state {
            TargetState::Absent => TargetModel::absent(),
            TargetState::Normal(id) => TargetModel::resolved(id@),
            TargetState::Conflicted { adds, removes } => TargetModel {
                adds: bag(adds@),
                removes: bag(removes@),
            },
        }
    }
}

impl RefTarget {
    /// The stored form is canonical: a conflict is held in order, names no
    /// commit on both sides, and is used only where nothing simpler fits.
    pub closed spec fn wf(&self) -> bool {
        match self.state {
            TargetState::Conflicted { adds, removes } => {
                &&& increasing(adds@)
                &&& increasing(removes@)
                &&& disjoint(adds@, removes@)
                &&& (removes.len() > 0 || adds.len() >= 2)
            },
            _ => true,
        }
    }

    /// A well-formed target names no commit on both sides.
    pub proof fn lemma_wf_model(&self)
        requires
            self.wf(),
        ensures
            self@.wf(),
    {
        broadcast use vstd::multiset::group_multiset_axioms;

        match self.state {
            TargetState::Conflicted { adds, removes } => {
                assert forall|v: Seq<u8>| self@.adds.count(v) == 0 || self@.removes.count(v)
                    == 0 by {
                    lemma_bag_contains(adds@, v);
                    lemma_bag_contains(removes@, v);
                }
            },
            _ => {},
        }
    }

    /// The target of a reference that points nowhere.
    pub fn absent() -> (r: Self)
        ensures
            r.wf(),
            r@ == TargetModel::absent(),
    {
        RefTarget { state: TargetState::Absent }
    }

    /// A shared absent target.
    pub fn absent_ref() -> (r: &'static Self)
        ensures
            r.wf(),
            r@ == TargetModel::absent(),
    {
        &RefTarget { state: TargetState::Absent }
    }

    /// The target that points at the commit `id`.
    pub fn normal(id: CommitId) -> (r: Self)
        ensures
            r.wf(),
            r@ == TargetModel::resolved(id@),
    {
        RefTarget { state: TargetState::Normal(id) }
    }

    /// The target that points at `id`, or nowhere if there is none.
    pub fn resolved(id: Option<CommitId>) -> (r: Self)
        ensures
            r.wf(),
            r@ == match id {
                Some(id) => TargetModel::resolved(id@),
                None => TargetModel::absent(),
            },
    {
        match id {
            Some(id) => RefTarget::normal(id),
            None => RefTarget::absent(),
        }
    }

    /// The target made of increasing lists of added and removed commits
    /// that have no commit in common.
    pub fn from_sorted_parts(adds: Vec<CommitId>, removes: Vec<CommitId>) -> (r: Self)
        requires
            increasing(adds@),
            increasing(removes@),
            disjoint(adds@, removes@),
        ensures
            r.wf(),
            r@.adds == bag(adds@),
            r@.removes == bag(removes@),
    {
        broadcast use vstd::multiset::group_multiset_axioms;

        let mut adds = adds;
        if removes.len() == 0 && adds.len() == 0 {
            RefTarget::absent()
        } else if removes.len() == 0 && adds.len() == 1 {
            let ghost before = adds@;
            let id = adds.remove(0);
            proof {
                lemma_bag_single(before);
            }
            RefTarget::normal(id)
        } else {
            RefTarget { state: TargetState::Conflicted { adds, removes } }
        }
    }

    /// The target that adds `adds` and removes `removes`, in any order and
    /// with repeats; a commit named on both sides is struck from both.
    pub fn from_legacy_form(removes: Vec<CommitId>, adds: Vec<CommitId>) -> (r: Self)
        ensures
            r.wf(),
            r@ == TargetModel::normalized(
                bag(adds@),
                bag(removes@),
            ),
    {
        let pos = sort_ids(&adds);
        let neg = sort_ids(&removes);
        let (a, b) = cancel(&pos, &neg);
        RefTarget::from_sorted_parts(a, b)
    }

    /// The added and the removed commits, each in increasing order.
    pub fn to_parts(&self) -> (r: (Vec<CommitId>, Vec<CommitId>))
        requires
            self.wf(),
        ensures
            increasing(r.0@),
            increasing(r.1@),
            disjoint(r.0@, r.1@),
            bag(r.0@) == self@.adds,
            bag(r.1@) == self@.removes,
    {
        broadcast use vstd::multiset::group_multiset_axioms;

        match &self.state {
            TargetState::Absent => (Vec::new(), Vec::new()),
            TargetState::Normal(id) => {
                let mut adds: Vec<CommitId> = Vec::new();
                adds.push(id.clone());
                proof {
                    lemma_bag_single(adds@);
                }
                (adds, Vec::new())
            },
            TargetState::Conflicted { adds, removes } => {
                let a = clone_ids(adds);
                let b = clone_ids(removes);
                proof {
                    lemma_same_ids_same_bag(a@, adds@);
                    lemma_same_ids_same_bag(b@, removes@);
                }
                (a, b)
            },
        }
    }

    /// The commits that the target adds, in increasing order.
    pub fn added_ids(&self) -> (r: Vec<CommitId>)
        ensures
            bag(r@) == self@.adds,
    {
        broadcast use vstd::multiset::group_multiset_axioms;

        match &self.state {
            TargetState::Absent => Vec::new(),
            TargetState::Normal(id) => {
                let mut adds: Vec<CommitId> = Vec::new();
                adds.push(id.clone());
                proof {
                    lemma_bag_single(adds@);
                }
                adds
            },
            TargetState::Conflicted { adds, removes } => {
                let a = clone_ids(adds);
                proof {
                    lemma_same_ids_same_bag(a@, adds@);
                }
                a
            },
        }
    }

    /// The commits that the target removes, in increasing order.
    pub fn removed_ids(&self) -> (r: Vec<CommitId>)
        ensures
            bag(r@) == self@.removes,
    {
        match &self.state {
            TargetState::Conflicted { adds, removes } => {
                let b = clone_ids(removes);
                proof {
                    lemma_same_ids_same_bag(b@, removes@);
                }
                b
            },
            _ => Vec::new(),
        }
    }

    /// Whether the target points nowhere.
    pub fn is_absent(&self) -> (r: bool)
        ensures
            r == self@.is_absent(),
    {
        broadcast use vstd::multiset::group_multiset_axioms;

        match &self.state {
            TargetState::Absent => true,
            TargetState::Normal(_) => false,
            TargetState::Conflicted { adds, removes } => {
                proof {
                    lemma_bag_contains(adds@, arbitrary());
                    lemma_bag_contains(removes@, arbitrary());
                }
                adds.len() == 0 && removes.len() == 0
            },
        }
    }

    /// Whether the target points somewhere, be it at a conflict.
    pub fn is_present(&self) -> (r: bool)
        ensures
            r == !self@.is_absent(),
    {
        !self.is_absent()
    }

    /// The single commit that the target points at, or `None` if it is
    /// absent or conflicted.
    pub fn as_normal(&self) -> (r: Option<&CommitId>)
        ensures
            match r {
                Some(id) => self@ == TargetModel::resolved(id@),
                None => !self@.is_resolved(),
            },
    {
        broadcast use vstd::multiset::group_multiset_axioms;

        match &self.state {
            TargetState::Absent => None,
            TargetState::Normal(id) => Some(id),
            TargetState::Conflicted { adds, removes } => {
                proof {
                    lemma_bag_contains(adds@, arbitrary());
                    lemma_bag_contains(removes@, arbitrary());
                }
                if adds.len() == 1 && removes.len() == 0 {
                    proof {
                        lemma_bag_single(adds@);
                    }
                    Some(&adds[0])
                } else {
                    None
                }
            },
        }
    }

    /// Whether the target is an unresolved merge.
    pub fn has_conflict(&self) -> (r: bool)
        ensures
            r == self@.has_conflict(),
    {
        !self.is_absent() && self.as_normal().is_none()
    }

    /// Whether two targets say the same.
    pub fn same_target(&self, other: &RefTarget) -> (r: bool)
        requires
            self.wf(),
            other.wf(),
        ensures
            r == (self@ == other@),
    {
        let (a1, r1) = self.to_parts();
        let (a2, r2) = other.to_parts();
        let same = same_id_lists(&a1, &a2) && same_id_lists(&r1, &r2);
        proof {
            if same {
                lemma_same_ids_same_bag(a1@, a2@);
                lemma_same_ids_same_bag(r1@, r2@);
            }
            if self@ == other@ {
                lemma_increasing_unique(a1@, a2@);
                lemma_increasing_unique(r1@, r2@);
            }
        }
        same
    }
}

impl Clone for RefTarget {
    fn clone(&self) -> (r: Self)
        ensures
            r@ == self@,
            self.wf() ==> r.wf(),
    {
        match &self.state {
            TargetState::Absent => RefTarget::absent(),
            TargetState::Normal(id) => RefTarget::normal(id.clone()),
            TargetState::Conflicted { adds, removes } => {
                let a = clone_ids(adds);
                let b = clone_ids(removes);
                proof {
                    lemma_same_ids_same_bag(a@, adds@);
                    lemma_same_ids_same_bag(b@, removes@);
                }
                RefTarget { state: TargetState::Conflicted { adds: a, removes: b } }
            },
        }
    }
}

/// Whether the local bookmark of the same name follows a remote bookmark.
#[derive(Clone, Copy, Debug, PartialEq, Eq, Structural)]
pub enum RemoteRefState {
    /// The remote bookmark is known but not followed.
    New,
    /// The local bookmark of the same name follows the remote bookmark.
    Tracking,
}

/// What a remote bookmark says: where it points and whether the local
/// bookmark of the same name follows it.
pub struct RemoteRefModel {
    pub target: TargetModel,
    pub tracking: bool,
}

/// The last known position of a bookmark on a remote.
#[derive(Debug, PartialEq, Eq)]
pub struct RemoteRef {
    pub target: RefTarget,
    pub state: RemoteRefState,
}

impl View for RemoteRef {
    type V = RemoteRefModel;

    open spec fn view(&self) -> RemoteRefModel {
        RemoteRefModel { target: self.target@, tracking: self.state == RemoteRefState::Tracking }
    }
}

impl RemoteRef {
    /// The target is in canonical form.
    pub open spec fn wf(&self) -> bool {
        self.target.wf()
    }

    /// The remote bookmark that does not exist.
    pub fn absent() -> (r: Self)
        ensures
            r.wf(),
            r@ == (RemoteRefModel { target: TargetModel::absent(), tracking: false }),
    {
        RemoteRef { target: RefTarget::absent(), state: RemoteRefState::New }
    }

    /// A shared remote bookmark that does not exist.
    pub fn absent_ref() -> (r: &'static Self)
        ensures
            r.wf(),
            r@ == (RemoteRefModel { target: TargetModel::absent(), tracking: false }),
    {
        &RemoteRef { target: RefTarget { state: TargetState::Absent }, state: RemoteRefState::New }
    }

    /// Whether the remote bookmark does not exist.
    pub fn is_absent(&self) -> (r: bool)
        ensures
            r == self@.target.is_absent(),
    {
        self.target.is_absent()
    }

    /// Whether the remote bookmark exists.
    pub fn is_present(&self) -> (r: bool)
        ensures
            r == !self@.target.is_absent(),
    {
        self.target.is_present()
    }

    /// Whether the local bookmark of the same name follows this one.
    pub fn is_tracking(&self) -> (r: bool)
        ensures
            r == self@.tracking,
    {
        match self.state {
            RemoteRefState::Tracking => true,
            RemoteRefState::New => false,
        }
    }
}

impl Clone for RemoteRef {
    fn clone(&self) -> (r: Self)
        ensures
            r@ == self@,
            self.wf() ==> r.wf(),
    {
        RemoteRef { target: self.target.clone(), state: self.state }
    }
}

/// Whether two lists hold the same ids in the same places.
pub fn same_id_lists(a: &Vec<CommitId>, b: &Vec<CommitId>) -> (r: bool)
    ensures
        r == same_ids(a@, b@),
{
    if a.len() != b.len() {
        return false;
    }
    let mut i: usize = 0;
    while i < a.len()
        invariant
            a.len() == b.len(),
            i <= a.len(),
            forall|k: int| 0 <= k < i ==> #[trigger] a[k]@ == b[k]@,
        decreases a.len() - i,
    {
        proof {
            lemma_lex_total(a[i as int]@, b[i as int]@);
        }
        match compare_ids(&a[i], &b[i]) {
            Order::Equal => {},
            _ => {
                return false;
            },
        }
        i += 1;
    }
    true
}

} // verus!
