//! One registered synchronization endpoint: its root, the set of paths
//! watched on its behalf, and the set of relative paths with pending
//! changes.

use vstd::prelude::*;

use crate::path::{path_starts_with, MPath, PathV};

verus! {

/// The mathematical value of a replica.
#[verifier::ext_equal]
pub ghost struct ReplicaV {
    /// The base against which relative paths are reported.
    pub root: PathV,
    /// The watched-paths set, as the distinct values of this sequence.
    pub paths: Seq<PathV>,
    /// The pending-changes set, as the distinct values of this sequence.
    pub pending: Seq<PathV>,
}

/// One registered synchronization endpoint.
pub struct Replica {
    /// The base against which relative paths are reported.
    pub root: MPath,
    /// Currently watched paths. Kept duplicate-free: a set.
    pub paths: Vec<MPath>,
    /// Relative paths with pending changes. Kept duplicate-free: a set.
    pub pending_changes: Vec<MPath>,
}

impl View for Replica {
    type V = ReplicaV;

    open spec fn view(&self) -> ReplicaV {
        ReplicaV {
            root: self.root@,
            paths: self.paths.deep_view(),
            pending: self.pending_changes.deep_view(),
        }
    }
}

impl DeepView for Replica {
    type V = ReplicaV;

    open spec fn deep_view(&self) -> ReplicaV {
        self.view()
    }
}

/// Whether some watched path of `r` covers `p`: events at or under a
/// watched path need no further watch.
pub open spec fn replica_watching(r: ReplicaV, p: PathV) -> bool {
    exists|i: int| 0 <= i < r.paths.len() && path_starts_with(p, r.paths[i])
}

impl Replica {
    /// A fresh replica: no watched paths, no pending changes.
    pub fn new(root: MPath) -> (r: Replica)
        ensures
            r@ == (ReplicaV { root: root@, paths: Seq::empty(), pending: Seq::empty() }),
    {
        let r = Replica { root, paths: Vec::new(), pending_changes: Vec::new() };
        proof {
            assert(r@ =~~= (ReplicaV {
                root: r.root@,
                paths: Seq::empty(),
                pending: Seq::empty(),
            }));
        }
        r
    }

    /// Whether `path` is already covered by a watched path of this replica.
    pub fn is_watching(&self, path: &MPath) -> (r: bool)
        ensures
            r == replica_watching(self@, path@),
    {
        let mut i: usize = 0;
        while i < self.paths.len()
            invariant
                i <= self.paths.len(),
                forall|j: int|
                    0 <= j < i ==> !path_starts_with(path@, self.paths.deep_view()[j]),
            decreases self.paths.len() - i,
        {
            if path.starts_with(&self.paths[i]) {
                proof {
                    assert(0 <= i < self@.paths.len() && path_starts_with(
                        path@,
                        self@.paths[i as int],
                    ));
                    assert(replica_watching(self@, path@));
                }
                return true;
            }
            i += 1;
        }
        false
    }
}

} // verus!
