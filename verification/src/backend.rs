//! Identifiers of stored objects and the record that a commit consists of.

use vstd::prelude::*;
use vstd::std_specs::cmp::PartialEqSpecImpl;
use crate::sorted_map::OrderedKey;

verus! {

/// Identifies an immutable commit record by its content.
#[derive(Debug, Eq, Hash, PartialOrd, Ord)]
pub struct CommitId {
    bytes: Vec<u8>,
}

impl View for CommitId {
    type V = Seq<u8>;

    closed spec fn view(&self) -> Seq<u8> {
        self.bytes@
    }
}

impl CommitId {
    /// The id that consists of `bytes`.
    pub fn new(bytes: Vec<u8>) -> (r: Self)
        ensures
            r@ == bytes@,
    {
        CommitId { bytes }
    }

    /// The id that consists of a copy of `bytes`.
    pub fn from_bytes(bytes: &[u8]) -> (r: Self)
        ensures
            r@ == bytes@,
    {
        CommitId { bytes: copy_bytes(bytes) }
    }

    /// The bytes of the id.
    pub fn as_bytes(&self) -> (r: &[u8])
        ensures
            r@ == self@,
    {
        self.bytes.as_slice()
    }

    /// A copy of the bytes of the id.
    pub fn to_bytes(&self) -> (r: Vec<u8>)
        ensures
            r@ == self@,
    {
        copy_bytes(self.bytes.as_slice())
    }
}

impl Clone for CommitId {
    fn clone(&self) -> (r: Self)
        ensures
            r@ == self@,
    {
        CommitId { bytes: copy_bytes(self.bytes.as_slice()) }
    }
}

impl PartialEq for CommitId {
    fn eq(&self, other: &Self) -> (r: bool) {
        same_bytes(self.bytes.as_slice(), other.bytes.as_slice())
    }
}

impl PartialEqSpecImpl for CommitId {
    open spec fn obeys_eq_spec() -> bool {
        true
    }

    open spec fn eq_spec(&self, other: &Self) -> bool {
        self@ == other@
    }
}

impl OrderedKey for CommitId {
    open spec fn key(&self) -> Seq<u8> {
        self@
    }

    fn key_bytes(&self) -> (r: &[u8]) {
        self.bytes.as_slice()
    }
}

/// Identifies a change through all the commits that rewrite it.
#[derive(Debug, Eq, Hash, PartialOrd, Ord)]
pub struct ChangeId {
    bytes: Vec<u8>,
}

impl View for ChangeId {
    type V = Seq<u8>;

    closed spec fn view(&self) -> Seq<u8> {
        self.bytes@
    }
}

impl ChangeId {
    /// The id that consists of `bytes`.
    pub fn new(bytes: Vec<u8>) -> (r: Self)
        ensures
            r@ == bytes@,
    {
        ChangeId { bytes }
    }

    /// The id that consists of a copy of `bytes`.
    pub fn from_bytes(bytes: &[u8]) -> (r: Self)
        ensures
            r@ == bytes@,
    {
        ChangeId { bytes: copy_bytes(bytes) }
    }

    /// The bytes of the id.
    pub fn as_bytes(&self) -> (r: &[u8])
        ensures
            r@ == self@,
    {
        self.bytes.as_slice()
    }

    /// A copy of the bytes of the id.
    pub fn to_bytes(&self) -> (r: Vec<u8>)
        ensures
            r@ == self@,
    {
        copy_bytes(self.bytes.as_slice())
    }
}

impl Clone for ChangeId {
    fn clone(&self) -> (r: Self)
        ensures
            r@ == self@,
    {
        ChangeId { bytes: copy_bytes(self.bytes.as_slice()) }
    }
}

impl PartialEq for ChangeId {
    fn eq(&self, other: &Self) -> (r: bool) {
        same_bytes(self.bytes.as_slice(), other.bytes.as_slice())
    }
}

impl PartialEqSpecImpl for ChangeId {
    open spec fn obeys_eq_spec() -> bool {
        true
    }

    open spec fn eq_spec(&self, other: &Self) -> bool {
        self@ == other@
    }
}

/// Identifies an immutable tree record by its content.
#[derive(Debug, Eq, Hash, PartialOrd, Ord)]
pub struct TreeId {
    bytes: Vec<u8>,
}

impl View for TreeId {
    type V = Seq<u8>;

    closed spec fn view(&self) -> Seq<u8> {
        self.bytes@
    }
}

impl TreeId {
    /// The id that consists of `bytes`.
    pub fn new(bytes: Vec<u8>) -> (r: Self)
        ensures
            r@ == bytes@,
    {
        TreeId { bytes }
    }

    /// The id that consists of a copy of `bytes`.
    pub fn from_bytes(bytes: &[u8]) -> (r: Self)
        ensures
            r@ == bytes@,
    {
        TreeId { bytes: copy_bytes(bytes) }
    }

    /// The bytes of the id.
    pub fn as_bytes(&self) -> (r: &[u8])
        ensures
            r@ == self@,
    {
        self.bytes.as_slice()
    }

    /// A copy of the bytes of the id.
    pub fn to_bytes(&self) -> (r: Vec<u8>)
        ensures
            r@ == self@,
    {
        copy_bytes(self.bytes.as_slice())
    }
}

impl Clone for TreeId {
    fn clone(&self) -> (r: Self)
        ensures
            r@ == self@,
    {
        TreeId { bytes: copy_bytes(self.bytes.as_slice()) }
    }
}

impl PartialEq for TreeId {
    fn eq(&self, other: &Self) -> (r: bool) {
        same_bytes(self.bytes.as_slice(), other.bytes.as_slice())
    }
}

impl PartialEqSpecImpl for TreeId {
    open spec fn obeys_eq_spec() -> bool {
        true
    }

    open spec fn eq_spec(&self, other: &Self) -> bool {
        self@ == other@
    }
}

impl OrderedKey for TreeId {
    open spec fn key(&self) -> Seq<u8> {
        self@
    }

    fn key_bytes(&self) -> (r: &[u8]) {
        self.bytes.as_slice()
    }
}

/// A point in time, in milliseconds since the start of 1970.
#[derive(Clone, Copy, Debug, PartialEq, Eq, Structural, PartialOrd, Ord, Hash)]
pub struct MillisSinceEpoch(pub i64);

/// A point in time with the offset of the time zone it was noted in.
#[derive(Clone, Copy, Debug, PartialEq, Eq, Structural, PartialOrd, Ord, Hash)]
pub struct Timestamp {
    pub timestamp: MillisSinceEpoch,
    /// The offset of the time zone, in minutes.
    pub tz_offset: i32,
}

/// Who wrote or committed a commit, and when.
#[derive(Clone, Debug, PartialEq, Eq)]
pub struct Signature {
    pub name: String,
    pub email: String,
    pub timestamp: Timestamp,
}

/// A cryptographic signature over the content of a commit.
#[derive(Clone, Debug, PartialEq, Eq)]
pub struct SecureSig {
    /// The bytes that were signed.
    pub data: Vec<u8>,
    /// The signature over them.
    pub sig: Vec<u8>,
}

/// What a reference to a root tree says.
pub enum MergedTreeIdModel {
    Resolved(Seq<u8>),
    Conflicted(Seq<Seq<u8>>),
}

/// The reference from a commit to its root tree: one tree, or the trees of
/// an unresolved merge.
#[derive(Debug, Eq)]
pub enum MergedTreeId {
    /// The commit has one root tree.
    Resolved(TreeId),
    /// The commit's root is an unresolved merge of these trees.
    Conflicted(Vec<TreeId>),
}

/// The ids of a list of trees.
pub open spec fn tree_ids(ids: Seq<TreeId>) -> Seq<Seq<u8>> {
    Seq::new(ids.len(), |i: int| ids[i]@)
}

impl View for MergedTreeId {
    type V = MergedTreeIdModel;

    open spec fn view(&self) -> MergedTreeIdModel {
        match *self {
            MergedTreeId::Resolved(id) => MergedTreeIdModel::Resolved(id@),
            MergedTreeId::Conflicted(ids) => MergedTreeIdModel::Conflicted(tree_ids(ids@)),
        }
    }
}

impl MergedTreeId {
    /// Whether the reference names one tree.
    pub fn is_resolved(&self) -> (r: bool)
        ensures
            r == (self@ is Resolved),
    {
        match self {
            MergedTreeId::Resolved(_) => true,
            MergedTreeId::Conflicted(_) => false,
        }
    }
}

impl Clone for MergedTreeId {
    fn clone(&self) -> (r: Self)
        ensures
            r@ == self@,
    {
        match self {
            MergedTreeId::Resolved(id) => MergedTreeId::Resolved(id.clone()),
            MergedTreeId::Conflicted(ids) => {
                let mut out: Vec<TreeId> = Vec::new();
                let mut i: usize = 0;
                while i < ids.len()
                    invariant
                        i <= ids.len(),
                        out.len() == i,
                        forall|j: int| 0 <= j < i ==> #[trigger] out[j]@ == ids[j]@,
                    decreases ids.len() - i,
                {
                    out.push(ids[i].clone());
                    i += 1;
                }
                proof {
                    assert(tree_ids(out@) =~= tree_ids(ids@));
                }
                MergedTreeId::Conflicted(out)
            },
        }
    }
}

/// Whether two lists name the same trees in the same places.
pub fn same_tree_lists(a: &Vec<TreeId>, b: &Vec<TreeId>) -> (r: bool)
    ensures
        r == (tree_ids(a@) == tree_ids(b@)),
{
    if a.len() != b.len() {
        return false;
    }
    let mut i: usize = 0;
    while i < a.len()
        invariant
            a.len() == b.len(),
            i <= a.len(),
            forall|j: int| 0 <= j < i ==> #[trigger] a[j]@ == b[j]@,
        decreases a.len() - i,
    {
        if !(a[i] == b[i]) {
            proof {
                assert(tree_ids(a@)[i as int] != tree_ids(b@)[i as int]);
            }
            return false;
        }
        i += 1;
    }
    proof {
        assert(tree_ids(a@) =~= tree_ids(b@));
    }
    true
}

impl PartialEq for MergedTreeId {
    fn eq(&self, other: &Self) -> (r: bool) {
        match (self, other) {
            (MergedTreeId::Resolved(a), MergedTreeId::Resolved(b)) => a == b,
            (MergedTreeId::Conflicted(a), MergedTreeId::Conflicted(b)) => same_tree_lists(a, b),
            _ => false,
        }
    }
}

impl PartialEqSpecImpl for MergedTreeId {
    open spec fn obeys_eq_spec() -> bool {
        true
    }

    open spec fn eq_spec(&self, other: &Self) -> bool {
        self@ == other@
    }
}

/// The record of a commit as the object store holds it.
#[derive(Clone, Debug, PartialEq, Eq)]
pub struct Commit {
    pub parents: Vec<CommitId>,
    /// The commits that this one replaced.
    pub predecessors: Vec<CommitId>,
    pub root_tree: MergedTreeId,
    pub change_id: ChangeId,
    pub description: String,
    pub author: Signature,
    pub committer: Signature,
    pub secure_sig: Option<SecureSig>,
}

/// Why the object store could not hand out an object.
#[derive(Clone, Debug, PartialEq, Eq)]
pub enum BackendError {
    /// The store holds no commit with this id.
    CommitNotFound(CommitId),
    /// The store holds no tree with this id.
    TreeNotFound(TreeId),
    /// Any other failure, in words.
    Other(String),
}

/// What the object store answers: the object, or why there is none.
pub type BackendResult<T> = Result<T, BackendError>;

/// A fresh vector holding the bytes of `bytes`.
pub fn copy_bytes(bytes: &[u8]) -> (r: Vec<u8>)
    ensures
        r@ == bytes@,
{
    let mut out: Vec<u8> = Vec::new();
    let mut i: usize = 0;
    while i < bytes.len()
        invariant
            i <= bytes.len(),
            out@ == bytes@.take(i as int),
        decreases bytes.len() - i,
    {
        out.push(bytes[i]);
        i += 1;
    }
    out
}

/// Whether two byte strings hold the same bytes.
pub fn same_bytes(a: &[u8], b: &[u8]) -> (r: bool)
    ensures
        r == (a@ == b@),
{
    if a.len() != b.len() {
        return false;
    }
    let mut i: usize = 0;
    while i < a.len()
        invariant
            a.len() == b.len(),
            i <= a.len(),
            forall|j: int| 0 <= j < i ==> a@[j] == b@[j],
        decreases a.len() - i,
    {
        if a[i] != b[i] {
            return false;
        }
        i += 1;
    }
    proof {
        assert(a@ =~= b@);
    }
    true
}

} // verus!
