//! A map from cells to values that keeps its entries in row-major order of
//! their cells, so that what lies in a band of a row can be found by
//! bisection and walked in order.
use vstd::prelude::*;
use crate::common::structs::AbsCell;

verus! {

/// Whether each cell of `keys` comes before the next in row-major order.
pub open spec fn ascending(keys: Seq<AbsCell>) -> bool {
    forall|i: int, j: int| 0 <= i < j < keys.len() ==> (#[trigger] keys[i]).precedes(#[trigger] keys[j])
}

/// A map from cells to values of `V`.
pub struct CellMap<V> {
    keys: Vec<AbsCell>,
    values: Vec<V>,
}

impl<V> CellMap<V> {
    /// The cells that have an entry, in row-major order.
    pub closed spec fn cells(&self) -> Seq<AbsCell> {
        self.keys@
    }

    /// The values of the entries, in the order of their cells.
    pub closed spec fn items(&self) -> Seq<V> {
        self.values@
    }

    /// Whether the map is sound: one value for each cell, cells in order and
    /// none twice.
    pub open spec fn wf(&self) -> bool {
        self.cells().len() == self.items().len() && ascending(self.cells())
    }

    /// The place of `cell` among the entries.
    pub open spec fn slot(&self, cell: AbsCell) -> int {
        choose|i: int| 0 <= i < self.cells().len() && self.cells()[i] == cell
    }

    /// The map as a mathematical one.
    pub open spec fn view(&self) -> Map<AbsCell, V> {
        Map::new(|cell: AbsCell| self.cells().contains(cell), |cell: AbsCell| self.items()[self.slot(cell)])
    }

    /// The cells of a sound map stand in row-major order.
    pub proof fn cells_ascend(&self)
        requires
            self.wf(),
        ensures
            ascending(self.cells()),
    {
    }

    /// No cell has an entry that comes after the cell at place `i - 1`, if
    /// there is one, and before the cell at place `i`, if there is one.
    pub proof fn nothing_between(&self, i: int, cell: AbsCell)
        requires
            self.wf(),
            0 <= i <= self.cells().len(),
            i == 0 || self.cells()[i - 1].precedes(cell),
            i == self.cells().len() || cell.precedes(self.cells()[i]),
        ensures
            !self@.contains_key(cell),
    {
        if self@.contains_key(cell) {
            self.view_in_entries(cell);
            let k = self.slot(cell);
            if k < i {
                if k < i - 1 {
                    assert(self.cells()[k].precedes(self.cells()[i - 1]));
                }
            } else {
                if k > i {
                    assert(self.cells()[i].precedes(self.cells()[k]));
                }
            }
        }
    }

    /// The entry at place `i` is the entry of the map for the cell there.
    pub proof fn entry_in_view(&self, i: int)
        requires
            self.wf(),
            0 <= i < self.cells().len(),
        ensures
            self@.contains_key(self.cells()[i]),
            self@[self.cells()[i]] == self.items()[i],
            self.slot(self.cells()[i]) == i,
    {
        let cell = self.cells()[i];
        let j = self.slot(cell);
        assert(self.cells().contains(cell));
        if j < i {
            assert(self.cells()[j].precedes(self.cells()[i]));
        } else if i < j {
            assert(self.cells()[i].precedes(self.cells()[j]));
        }
    }

    /// Every entry of the map stands at some place.
    pub proof fn view_in_entries(&self, cell: AbsCell)
        requires
            self.wf(),
            self@.contains_key(cell),
        ensures
            0 <= self.slot(cell) < self.cells().len(),
            self.cells()[self.slot(cell)] == cell,
            self.items()[self.slot(cell)] == self@[cell],
    {
        assert(self.cells().contains(cell));
    }

    /// A map without entries.
    pub fn new() -> (map: Self)
        ensures
            map.wf(),
            map@ == Map::<AbsCell, V>::empty(),
            map.cells().len() == 0,
    {
        let map = CellMap { keys: Vec::new(), values: Vec::new() };
        assert(map@ =~= Map::<AbsCell, V>::empty());
        map
    }

    /// The number of entries.
    pub fn len(&self) -> (n: usize)
        requires
            self.wf(),
        ensures
            n == self.cells().len(),
    {
        self.keys.len()
    }

    /// The cell of the entry at place `i`.
    pub fn cell_at(&self, i: usize) -> (cell: AbsCell)
        requires
            self.wf(),
            i < self.cells().len(),
        ensures
            cell == self.cells()[i as int],
    {
        self.keys[i]
    }

    /// The value of the entry at place `i`.
    pub fn item_at(&self, i: usize) -> (item: &V)
        requires
            self.wf(),
            i < self.cells().len(),
        ensures
            *item == self.items()[i as int],
    {
        &self.values[i]
    }

    /// Puts `item` at place `i` and hands out the value that stood there.
    pub fn exchange(&mut self, i: usize, item: V) -> (before: V)
        requires
            old(self).wf(),
            i < old(self).cells().len(),
        ensures
            final(self).wf(),
            final(self).cells() == old(self).cells(),
            final(self).items() == old(self).items().update(i as int, item),
            before == old(self).items()[i as int],
            final(self)@ == old(self)@.insert(old(self).cells()[i as int], item),
    {
        let mut item = item;
        core::mem::swap(&mut self.values[i], &mut item);
        proof {
            assert(self.values@ =~= old(self).values@.update(i as int, self.values@[i as int]));
            assert forall|c: AbsCell| self@.contains_key(c) implies #[trigger] self@[c] == old(
                self,
            )@.insert(old(self).cells()[i as int], self.values@[i as int])[c] by {
                self.view_in_entries(c);
                let k = self.slot(c);
                old(self).entry_in_view(k);
                self.entry_in_view(i as int);
            }
            assert(self@ =~= old(self)@.insert(old(self).cells()[i as int], self.values@[i as int]));
        }
        item
    }

    /// The first place whose cell does not come before `cell`: the place of
    /// `cell` if it has an entry, else the place where its entry would stand.
    pub fn seek(&self, cell: AbsCell) -> (i: usize)
        requires
            self.wf(),
        ensures
            i <= self.cells().len(),
            forall|j: int| 0 <= j < i ==> (#[trigger] self.cells()[j]).precedes(cell),
            forall|j: int| i <= j < self.cells().len() ==> !(#[trigger] self.cells()[j]).precedes(cell),
            self@.contains_key(cell) <==> (i < self.cells().len() && self.cells()[i as int] == cell),
    {
        let mut low: usize = 0;
        let mut high: usize = self.keys.len();
        while low < high
            invariant
                self.wf(),
                low <= high <= self.keys@.len(),
                forall|j: int| 0 <= j < low ==> (#[trigger] self.keys@[j]).precedes(cell),
                forall|j: int| high <= j < self.keys@.len() ==> !(#[trigger] self.keys@[j]).precedes(cell),
            decreases high - low,
        {
            let mid = low + (high - low) / 2;
            if self.keys[mid].before(&cell) {
                assert forall|j: int| 0 <= j < mid + 1 implies (#[trigger] self.keys@[j]).precedes(cell) by {
                    if j < mid {
                        assert(self.keys@[j].precedes(self.keys@[mid as int]));
                    }
                }
                low = mid + 1;
            } else {
                assert forall|j: int| mid <= j < self.keys@.len() implies !(#[trigger] self.keys@[j]).precedes(cell) by {
                    if mid < j {
                        assert(self.keys@[mid as int].precedes(self.keys@[j]));
                    }
                }
                high = mid;
            }
        }
        proof {
            if self@.contains_key(cell) {
                self.view_in_entries(cell);
                let k = self.slot(cell);
                if k < low {
                    assert(self.keys@[k].precedes(cell));
                }
                if k > low {
                    assert(self.keys@[low as int].precedes(self.keys@[k]));
                }
            }
            if low < self.keys@.len() && self.keys@[low as int] == cell {
                self.entry_in_view(low as int);
            }
        }
        low
    }

    /// Whether `cell` has an entry.
    pub fn contains(&self, cell: AbsCell) -> (b: bool)
        requires
            self.wf(),
        ensures
            b == self@.contains_key(cell),
    {
        let i = self.seek(cell);
        i < self.keys.len() && self.keys[i] == cell
    }

    /// The value of `cell`, if it has one.
    pub fn get(&self, cell: AbsCell) -> (item: Option<&V>)
        requires
            self.wf(),
        ensures
            match item {
                Some(v) => self@.contains_key(cell) && *v == self@[cell],
                None => !self@.contains_key(cell),
            },
    {
        let i = self.seek(cell);
        if i < self.keys.len() && self.keys[i] == cell {
            proof {
                self.entry_in_view(i as int);
            }
            Some(&self.values[i])
        } else {
            None
        }
    }

    /// Gives `cell` the value `item`, in place of the one it had, if any.
    pub fn insert(&mut self, cell: AbsCell, item: V)
        requires
            old(self).wf(),
        ensures
            final(self).wf(),
            final(self)@ == old(self)@.insert(cell, item),
    {
        let i = self.seek(cell);
        if i < self.keys.len() && self.keys[i] == cell {
            self.values.set(i, item);
            proof {
                assert forall|c: AbsCell| self@.contains_key(c) implies #[trigger] self@[c] == old(self)@.insert(cell, item)[c] by {
                    self.view_in_entries(c);
                    let k = self.slot(c);
                    old(self).entry_in_view(k);
                    self.entry_in_view(i as int);
                }
                assert(self@ =~= old(self)@.insert(cell, item));
            }
        } else {
            self.keys.insert(i, cell);
            self.values.insert(i, item);
            proof {
                assert forall|a: int, b: int| 0 <= a < b < self.keys@.len() implies (#[trigger] self.keys@[a]).precedes(#[trigger] self.keys@[b]) by {
                    let oa = if a < i { a } else { a - 1 };
                    let ob = if b < i { b } else { b - 1 };
                    if a != i && b != i {
                        assert(old(self).keys@[oa].precedes(old(self).keys@[ob]));
                    } else if a == i {
                        assert(!old(self).keys@[ob].precedes(cell));
                        assert(old(self).keys@[ob] != cell) by {
                            if old(self).keys@[ob] == cell {
                                old(self).entry_in_view(ob);
                            }
                        }
                    } else {
                        assert(old(self).keys@[oa].precedes(cell));
                    }
                }
                assert forall|c: AbsCell| self@.contains_key(c) <==> old(self)@.insert(cell, item).contains_key(c) by {
                    if self@.contains_key(c) {
                        self.view_in_entries(c);
                        let k = self.slot(c);
                        if k != i {
                            let ok = if k < i { k } else { k - 1 };
                            old(self).entry_in_view(ok);
                        }
                    }
                    if old(self)@.contains_key(c) {
                        old(self).view_in_entries(c);
                        let ok = old(self).slot(c);
                        let k = if ok < i { ok } else { ok + 1 };
                        self.entry_in_view(k);
                    }
                    if c == cell {
                        self.entry_in_view(i as int);
                    }
                }
                assert forall|c: AbsCell| self@.contains_key(c) implies #[trigger] self@[c] == old(self)@.insert(cell, item)[c] by {
                    self.view_in_entries(c);
                    let k = self.slot(c);
                    if k != i {
                        let ok = if k < i { k } else { k - 1 };
                        old(self).entry_in_view(ok);
                    } else {
                        self.entry_in_view(i as int);
                    }
                }
                assert(self@ =~= old(self)@.insert(cell, item));
            }
        }
    }

    /// Takes the entry of `cell` out of the map and hands its value out.
    pub fn remove(&mut self, cell: AbsCell) -> (item: Option<V>)
        requires
            old(self).wf(),
        ensures
            final(self).wf(),
            final(self)@ == old(self)@.remove(cell),
            match item {
                Some(v) => old(self)@.contains_key(cell) && v == old(self)@[cell],
                None => !old(self)@.contains_key(cell),
            },
    {
        let i = self.seek(cell);
        if i < self.keys.len() && self.keys[i] == cell {
            proof {
                old(self).entry_in_view(i as int);
            }
            self.keys.remove(i);
            let item = self.values.remove(i);
            proof {
                assert forall|a: int, b: int| 0 <= a < b < self.keys@.len() implies (#[trigger] self.keys@[a]).precedes(#[trigger] self.keys@[b]) by {
                    let oa = if a < i { a } else { a + 1 };
                    let ob = if b < i { b } else { b + 1 };
                    assert(old(self).keys@[oa].precedes(old(self).keys@[ob]));
                }
                assert forall|c: AbsCell| self@.contains_key(c) <==> old(self)@.remove(cell).contains_key(c) by {
                    if self@.contains_key(c) {
                        self.view_in_entries(c);
                        let k = self.slot(c);
                        let ok = if k < i { k } else { k + 1 };
                        old(self).entry_in_view(ok);
                        if ok < i {
                            assert(old(self).keys@[ok].precedes(old(self).keys@[i as int]));
                        } else {
                            assert(old(self).keys@[i as int].precedes(old(self).keys@[ok]));
                        }
                    }
                    if old(self)@.contains_key(c) && c != cell {
                        old(self).view_in_entries(c);
                        let ok = old(self).slot(c);
                        let k = if ok < i { ok } else { ok - 1 };
                        self.entry_in_view(k);
                    }
                }
                assert forall|c: AbsCell| self@.contains_key(c) implies #[trigger] self@[c] == old(self)@.remove(cell)[c] by {
                    self.view_in_entries(c);
                    let k = self.slot(c);
                    let ok = if k < i { k } else { k + 1 };
                    old(self).entry_in_view(ok);
                }
                assert(self@ =~= old(self)@.remove(cell));
            }
            Some(item)
        } else {
            assert(self@ =~= old(self)@.remove(cell));
            None
        }
    }
}

} // verus!
