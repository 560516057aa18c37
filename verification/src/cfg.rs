//! A function's control-flow graph: basic blocks numbered `0..n`, with the
//! entry block fixed at index `START_BLOCK`, and predecessor/successor edge
//! lists that mirror each other.

use vstd::prelude::*;

verus! {

/// The entry block of every control-flow graph.
pub const START_BLOCK: usize = 0;

/// A control-flow graph over blocks `0..self.len()`. `preds[b]` lists the
/// predecessors of block `b` and `succs[b]` its successors.
pub struct Cfg {
    pub preds: Vec<Vec<usize>>,
    pub succs: Vec<Vec<usize>>,
}

impl Cfg {
    /// The number of basic blocks.
    pub open spec fn spec_len(self) -> nat {
        self.preds@.len()
    }

    /// Well-formed: the two edge tables cover the same blocks, every edge
    /// endpoint is a block of the graph, and an edge `p -> b` is recorded in
    /// both `succs[p]` and `preds[b]`.
    pub open spec fn wf(self) -> bool {
        &&& self.succs@.len() == self.preds@.len()
        &&& forall|b: int, k: int|
            0 <= b < self.preds@.len() && 0 <= k < self.preds@[b]@.len()
                ==> self.preds@[b]@[k] < self.preds@.len()
        &&& forall|b: int, k: int|
            0 <= b < self.succs@.len() && 0 <= k < self.succs@[b]@.len()
                ==> self.succs@[b]@[k] < self.preds@.len()
        &&& forall|p: usize, b: usize|
            p < self.preds@.len() && b < self.preds@.len()
                ==> (#[trigger] self.preds@[b as int]@.contains(p)
                    <==> self.succs@[p as int]@.contains(b))
    }

    /// The number of basic blocks.
    pub fn len(&self) -> (n: usize)
        ensures
            n == self.spec_len(),
    {
        self.preds.len()
    }
}

/// Whether block `b` occurs in a block list.
pub fn block_list_contains(v: &Vec<usize>, b: usize) -> (r: bool)
    ensures
        r == v@.contains(b),
{
    let n = v.len();
    let mut i: usize = 0;
    while i < n
        invariant
            n == v@.len(),
            i <= n,
            forall|k: int| 0 <= k < i ==> v@[k] != b,
        decreases n - i,
    {
        if v[i] == b {
            return true;
        }
        i = i + 1;
    }
    false
}

} // verus!
