//! What the dependency graph keeps for a cell.
use vstd::prelude::*;
use crate::common::structs::AbsCell;

verus! {

/// The cells whose formulas read a cell, each once.
#[derive(Debug, Default)]
pub struct CellMetadata {
    pub dependents: Vec<AbsCell>,
}

impl CellMetadata {
    /// Whether no cell is listed twice.
    pub open spec fn wf(&self) -> bool {
        self.dependents@.no_duplicates()
    }

    /// What the graph keeps for a cell that no cell reads.
    pub fn new() -> (meta: Self)
        ensures
            meta.wf(),
            meta.dependents@.len() == 0,
    {
        CellMetadata { dependents: Vec::new() }
    }

    /// The place of `cell` in the list, if it is there.
    pub fn position(&self, cell: AbsCell) -> (at: Option<usize>)
        ensures
            match at {
                Some(i) => i < self.dependents@.len() && self.dependents@[i as int] == cell,
                None => !self.dependents@.contains(cell),
            },
    {
        let mut i: usize = 0;
        while i < self.dependents.len()
            invariant
                i <= self.dependents@.len(),
                forall|j: int| 0 <= j < i ==> self.dependents@[j] != cell,
            decreases self.dependents@.len() - i,
        {
            if self.dependents[i] == cell {
                return Some(i);
            }
            i += 1;
        }
        None
    }

    /// Lists `cell`, unless it is listed.
    pub fn add(&mut self, cell: AbsCell)
        requires
            old(self).wf(),
        ensures
            final(self).wf(),
            final(self).dependents@.to_set() == old(self).dependents@.to_set().insert(cell),
    {
        match self.position(cell) {
            Some(_) => {
                assert(self.dependents@.to_set() =~= old(self).dependents@.to_set().insert(cell));
            },
            None => {
                self.dependents.push(cell);
                assert forall|c: AbsCell| self.dependents@.to_set().contains(c) <==> old(
                    self,
                ).dependents@.to_set().insert(cell).contains(c) by {
                    if self.dependents@.contains(c) {
                        let k = choose|k: int| 0 <= k < self.dependents@.len() && self.dependents@[k] == c;
                        if k < old(self).dependents@.len() {
                            assert(old(self).dependents@[k] == c);
                        }
                    }
                    if old(self).dependents@.contains(c) {
                        let k = choose|k: int| 0 <= k < old(self).dependents@.len() && old(self).dependents@[k] == c;
                        assert(self.dependents@[k] == c);
                    }
                    if c == cell {
                        assert(self.dependents@[self.dependents@.len() - 1] == c);
                    }
                }
                assert(self.dependents@.to_set() =~= old(self).dependents@.to_set().insert(cell));
            },
        }
    }

    /// Strikes `cell` from the list, if it is listed.
    pub fn drop(&mut self, cell: AbsCell)
        requires
            old(self).wf(),
        ensures
            final(self).wf(),
            final(self).dependents@.to_set() == old(self).dependents@.to_set().remove(cell),
    {
        match self.position(cell) {
            None => {
                assert(self.dependents@.to_set() =~= old(self).dependents@.to_set().remove(cell));
            },
            Some(i) => {
                self.dependents.remove(i);
                assert forall|c: AbsCell| self.dependents@.to_set().contains(c) <==> old(
                    self,
                ).dependents@.to_set().remove(cell).contains(c) by {
                    if self.dependents@.contains(c) {
                        let k = choose|k: int| 0 <= k < self.dependents@.len() && self.dependents@[k] == c;
                        let ok = if k < i { k } else { k + 1 };
                        assert(old(self).dependents@[ok] == c);
                    }
                    if old(self).dependents@.contains(c) && c != cell {
                        let ok = choose|k: int| 0 <= k < old(self).dependents@.len() && old(self).dependents@[k] == c;
                        let k = if ok < i { ok } else { ok - 1 };
                        assert(self.dependents@[k] == c);
                    }
                }
                assert(self.dependents@.to_set() =~= old(self).dependents@.to_set().remove(cell));
            },
        }
    }
}

} // verus!
