//! Names of references and of remotes.

use vstd::prelude::*;

verus! {

/// The name of a bookmark or tag.
pub type RefName = str;

/// An owned name of a bookmark or tag.
pub type RefNameBuf = String;

/// The name of a remote.
pub type RemoteName = str;

/// An owned name of a remote.
pub type RemoteNameBuf = String;

/// Names a bookmark on a remote.
#[derive(Clone, Copy, Debug, PartialEq, Eq)]
pub struct RemoteRefSymbol<'a> {
    /// The bookmark's name.
    pub name: &'a RefName,
    /// The remote's name.
    pub remote: &'a RemoteName,
}

} // verus!
