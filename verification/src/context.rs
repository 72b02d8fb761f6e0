//! The resolution context: a stateless façade bound to one repository
//! snapshot.
//!
//! Commit-id queries go to the snapshot's pre-built commit index; change-id
//! queries go to the change-id index the repository materializes over the
//! `(change id, commit id)` pairs of its visible commits.  One change id
//! may map to several commit ids (divergence), so a single change-id match
//! carries a list of commit ids.

use vstd::prelude::*;

use crate::ids::{ChangeId, CommitId, Id};
use crate::index::{matched_of, shortest_unique_len_of, IdIndex};
use crate::order::eq_bytes;
use crate::prefix::HexPrefix;
use crate::resolution::{all_same_key, PrefixResolution};

verus! {

/// A façade over one repository snapshot.  It holds the snapshot's two
/// indexes and no other state; every query is a pure read.
pub struct IdPrefixContext {
    commit_index: IdIndex<()>,
    change_index: IdIndex<CommitId>,
}

impl IdPrefixContext {
    /// Both indexes are sorted.
    pub closed spec fn wf(self) -> bool {
        self.commit_index.wf() && self.change_index.wf()
    }

    /// The entries of the snapshot's commit index, keyed by commit id.
    pub closed spec fn commit_entries(self) -> Seq<(Id, ())> {
        self.commit_index@
    }

    /// The entries of the snapshot's change-id index: one `(change id,
    /// commit id)` pair per visible commit.
    pub closed spec fn change_entries(self) -> Seq<(Id, CommitId)> {
        self.change_index@
    }

    /// Binds a context to a repository snapshot, given as the snapshot's
    /// commit index and its materialized change-id index.
    pub fn new(commit_index: IdIndex<()>, change_index: IdIndex<CommitId>) -> (r: IdPrefixContext)
        requires
            commit_index.wf(),
            change_index.wf(),
        ensures
            r.wf(),
            r.commit_entries() == commit_index@,
            r.change_entries() == change_index@,
    {
        IdPrefixContext { commit_index, change_index }
    }

    /// Resolve an unambiguous commit ID prefix.
    pub fn resolve_commit_prefix(&self, prefix: &HexPrefix) -> (r: PrefixResolution<CommitId>)
        requires
            self.wf(),
            prefix.wf(),
        ensures
            ({
                let m = matched_of(self.commit_entries(), prefix@);
                match r {
                    PrefixResolution::NoMatch => m.len() == 0,
                    PrefixResolution::SingleMatch(id) => m.len() > 0 && all_same_key(m) && id@
                        == m[0].0@,
                    PrefixResolution::AmbiguousMatch => m.len() > 0 && !all_same_key(m),
                }
            }),
    {
        let ghost m = matched_of(self.commit_entries(), prefix@);
        let matched = self.commit_index.resolve_prefix_range(prefix);
        if matched.len() == 0 {
            return PrefixResolution::NoMatch;
        }
        let mut i: usize = 1;
        while i < matched.len()
            invariant
                1 <= i <= matched@.len(),
                m == matched_of(self.commit_entries(), prefix@),
                matched@.len() == m.len(),
                forall|k: int|
                    0 <= k < m.len() ==> (#[trigger] matched@[k]).0@ == m[k].0@,
                forall|k: int| 0 <= k < i ==> (#[trigger] matched@[k]).0@ == matched@[0].0@,
            decreases matched@.len() - i,
        {
            if !eq_bytes(matched[i].0.as_bytes(), matched[0].0.as_bytes()) {
                proof {
                    assert(m[i as int].0@ != m[0].0@);
                }
                return PrefixResolution::AmbiguousMatch;
            }
            i = i + 1;
        }
        proof {
            assert forall|k: int| 0 <= k < m.len() implies (#[trigger] m[k]).0@ == m[0].0@ by {
                assert(matched@[k].0@ == matched@[0].0@);
            }
        }
        let first = &matched[0];
        PrefixResolution::SingleMatch(first.0.clone())
    }

    /// Returns the shortest length of a prefix of `commit_id` that can
    /// still be resolved by `resolve_commit_prefix()`.
    pub fn shortest_commit_prefix_len(&self, commit_id: &CommitId) -> (r: usize)
        requires
            self.wf(),
            2 * commit_id@.len() < usize::MAX,
        ensures
            r == shortest_unique_len_of(self.commit_entries(), commit_id@),
    {
        self.commit_index.shortest_unique_prefix_len(commit_id)
    }

    /// Resolve an unambiguous change ID prefix to the commit IDs attached
    /// to that change id in the snapshot.
    pub fn resolve_change_prefix(&self, prefix: &HexPrefix) -> (r: PrefixResolution<
        Vec<CommitId>,
    >)
        requires
            self.wf(),
            prefix.wf(),
        ensures
            ({
                let m = matched_of(self.change_entries(), prefix@);
                match r {
                    PrefixResolution::NoMatch => m.len() == 0,
                    PrefixResolution::SingleMatch(vs) => {
                        &&& m.len() > 0
                        &&& all_same_key(m)
                        &&& vs@.len() == m.len()
                        &&& forall|i: int| 0 <= i < m.len() ==> (#[trigger] vs@[i])@ == m[i].1@
                    },
                    PrefixResolution::AmbiguousMatch => m.len() > 0 && !all_same_key(m),
                }
            }),
    {
        let clone_commit = |v: &CommitId| -> (c: CommitId)
            ensures
                c@ == v@,
            { v.clone() };
        let res = self.change_index.resolve_prefix_with(prefix, clone_commit);
        proof {
            let m = matched_of(self.change_entries(), prefix@);
            match &res {
                PrefixResolution::SingleMatch(vs) => {
                    assert forall|i: int| 0 <= i < m.len() implies (#[trigger] vs@[i])@
                        == m[i].1@ by {
                        assert(call_ensures(clone_commit, (&m[i].1,), vs@[i]));
                    }
                },
                _ => {},
            }
        }
        res
    }

    /// Returns the shortest length of a prefix of `change_id` that can
    /// still be resolved by `resolve_change_prefix()`.
    pub fn shortest_change_prefix_len(&self, change_id: &ChangeId) -> (r: usize)
        requires
            self.wf(),
            2 * change_id@.len() < usize::MAX,
        ensures
            r == shortest_unique_len_of(self.change_entries(), change_id@),
    {
        self.change_index.shortest_unique_prefix_len(change_id)
    }
}

} // verus!
