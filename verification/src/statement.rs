//! Statement identities, lock-guard metadata, and the read-only table that
//! maps a statement to the lock resource its guard refers to.

use vstd::prelude::*;

verus! {

/// Identifies a lock-guard-producing statement: the owning function's
/// identity plus a statement index local to that function.
#[derive(Clone, Copy, Debug, PartialEq, Eq, Structural)]
pub struct StatementId {
    pub fn_id: u64,
    pub index: u64,
}

/// Metadata for one lock guard: the identity of the underlying lock resource,
/// the blocks where the guard becomes live, and the blocks where it dies.
///
/// Two guards relate to each other through `resource_id` alone: guards with
/// equal `resource_id` denote the same lock, whatever their statement ids.
pub struct StatementInfo {
    pub resource_id: u64,
    pub gen_bbs: Vec<usize>,
    pub kill_bbs: Vec<usize>,
}

/// An ordered pair recording that `second`'s guard became live while
/// `first`'s guard was already live and the two denote different resources.
#[derive(Clone, Copy, Debug, PartialEq, Eq, Structural)]
pub struct OperationSequenceInfo {
    pub first: StatementId,
    pub second: StatementId,
}

/// One entry of the lock-guard table.
pub struct LockGuardEntry {
    pub id: StatementId,
    pub info: StatementInfo,
}

/// The read-only lock-guard table: statement id to guard metadata, with
/// each statement id listed at most once.
pub struct LockGuardTable {
    pub entries: Vec<LockGuardEntry>,
}

impl LockGuardTable {
    /// Each statement id appears in at most one entry.
    pub open spec fn wf(self) -> bool {
        forall|i: int, j: int|
            0 <= i < self.entries@.len() && 0 <= j < self.entries@.len() && i != j
                ==> self.entries@[i].id != self.entries@[j].id
    }

    /// Whether `id` has an entry in the table.
    pub open spec fn spec_contains(self, id: StatementId) -> bool {
        exists|i: int| 0 <= i < self.entries@.len() && self.entries@[i].id == id
    }

    /// The index of `id`'s entry (meaningful only when `spec_contains(id)`).
    pub open spec fn spec_index_of(self, id: StatementId) -> int {
        choose|i: int| 0 <= i < self.entries@.len() && self.entries@[i].id == id
    }

    /// The resource identity of `id`'s guard (meaningful only when
    /// `spec_contains(id)`).
    pub open spec fn spec_rid(self, id: StatementId) -> u64 {
        self.entries@[self.spec_index_of(id)].info.resource_id
    }

    /// Looks up the resource identity of a statement known to be in the table.
    pub fn resource_of(&self, id: StatementId) -> (r: u64)
        requires
            self.wf(),
            self.spec_contains(id),
        ensures
            r == self.spec_rid(id),
    {
        let n = self.entries.len();
        let mut i: usize = 0;
        while i < n
            invariant
                n == self.entries@.len(),
                i <= n,
                self.wf(),
                self.spec_contains(id),
                forall|k: int| 0 <= k < i ==> self.entries@[k].id != id,
            decreases n - i,
        {
            if self.entries[i].id == id {
                proof {
                    let j = self.spec_index_of(id);
                    assert(0 <= j < self.entries@.len() && self.entries@[j].id == id);
                    assert(j == i);
                }
                return self.entries[i].info.resource_id;
            }
            i = i + 1;
        }
        proof {
            let j = self.spec_index_of(id);
            assert(0 <= j < self.entries@.len() && self.entries@[j].id == id);
            assert(false);
        }
        0
    }

    /// In a well-formed table, any entry index holding `id` is the index
    /// `spec_index_of(id)` names, so facts about one entry for `id` are facts
    /// about the entry every lookup sees.
    pub proof fn lemma_index_of_unique(self, k: int, id: StatementId)
        requires
            self.wf(),
            0 <= k < self.entries@.len(),
            self.entries@[k].id == id,
        ensures
            self.spec_contains(id),
            self.spec_index_of(id) == k,
    {
        assert(self.spec_contains(id));
        let j = self.spec_index_of(id);
        assert(0 <= j < self.entries@.len() && self.entries@[j].id == id);
        if j != k {
            assert(self.entries@[j].id != self.entries@[k].id);
        }
    }

    /// Whether `id` has an entry in the table.
    pub fn contains(&self, id: StatementId) -> (r: bool)
        ensures
            r == self.spec_contains(id),
    {
        let n = self.entries.len();
        let mut i: usize = 0;
        while i < n
            invariant
                n == self.entries@.len(),
                i <= n,
                forall|k: int| 0 <= k < i ==> self.entries@[k].id != id,
            decreases n - i,
        {
            if self.entries[i].id == id {
                return true;
            }
            i = i + 1;
        }
        false
    }
}

} // verus!
