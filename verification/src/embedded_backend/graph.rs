//! The dependency graph. An edge leads from a cell to each cell whose
//! formula reads it, so that a change can be carried forward along the
//! edges.
use vstd::prelude::*;
use vstd::set_lib::{lemma_int_range, lemma_len_subset, set_int_range};
use crate::common::cell_data::CellMetadata;
use crate::common::cell_map::CellMap;
use crate::common::structs::AbsCell;

verus! {

/// An edge: the cell that is read, then the cell that reads it.
pub type Edge = (AbsCell, AbsCell);

/// Whether the cell at place `i` of `path` has an edge to the next.
pub open spec fn hop(edges: Set<Edge>, path: Seq<AbsCell>, i: int) -> bool {
    edges.contains((path[i], path[i + 1]))
}

/// Whether each cell of `path` has an edge to the next.
pub open spec fn linked(edges: Set<Edge>, path: Seq<AbsCell>) -> bool {
    forall|i: int| 0 <= i < path.len() - 1 ==> #[trigger] hop(edges, path, i)
}

/// Whether `path` leads from `from` to `to` along one edge or more.
pub open spec fn leads(edges: Set<Edge>, path: Seq<AbsCell>, from: AbsCell, to: AbsCell) -> bool {
    linked(edges, path) && path.len() >= 2 && path[0] == from && path.last() == to
}

/// Whether a path of one edge or more leads from `from` to `to`.
pub open spec fn connected(edges: Set<Edge>, from: AbsCell, to: AbsCell) -> bool {
    exists|path: Seq<AbsCell>| #[trigger] leads(edges, path, from, to)
}

/// Whether no cell leads back to itself.
pub open spec fn acyclic(edges: Set<Edge>) -> bool {
    forall|cell: AbsCell| !#[trigger] connected(edges, cell, cell)
}

/// An edge is a path.
pub proof fn edge_connects(edges: Set<Edge>, from: AbsCell, to: AbsCell)
    requires
        edges.contains((from, to)),
    ensures
        connected(edges, from, to),
{
    let path = seq![from, to];
    assert forall|i: int| 0 <= i < path.len() - 1 implies #[trigger] hop(edges, path, i) by {}
    assert(leads(edges, path, from, to));
}

/// A path goes on along an edge.
pub proof fn path_extends(edges: Set<Edge>, from: AbsCell, via: AbsCell, to: AbsCell)
    requires
        connected(edges, from, via),
        edges.contains((via, to)),
    ensures
        connected(edges, from, to),
{
    let path = choose|path: Seq<AbsCell>| #[trigger] leads(edges, path, from, via);
    let longer = path.push(to);
    assert forall|i: int| 0 <= i < longer.len() - 1 implies #[trigger] hop(edges, longer, i) by {
        if i < path.len() - 1 {
            assert(hop(edges, path, i));
        }
    }
    assert(leads(edges, longer, from, to));
}

/// A path in a graph is a path in every graph that has its edges.
pub proof fn more_edges_connect(fewer: Set<Edge>, more: Set<Edge>, from: AbsCell, to: AbsCell)
    requires
        fewer.subset_of(more),
        connected(fewer, from, to),
    ensures
        connected(more, from, to),
{
    let path = choose|path: Seq<AbsCell>| #[trigger] leads(fewer, path, from, to);
    assert forall|i: int| 0 <= i < path.len() - 1 implies #[trigger] hop(more, path, i) by {
        assert(hop(fewer, path, i));
    }
    assert(leads(more, path, from, to));
}

/// A graph with fewer edges than one without cycles has no cycle.
pub proof fn fewer_edges_acyclic(fewer: Set<Edge>, more: Set<Edge>)
    requires
        fewer.subset_of(more),
        acyclic(more),
    ensures
        acyclic(fewer),
{
    assert forall|cell: AbsCell| !#[trigger] connected(fewer, cell, cell) by {
        if connected(fewer, cell, cell) {
            more_edges_connect(fewer, more, cell, cell);
        }
    }
}

/// Where a graph without cycles is given new edges that all lead to one
/// cell, every cycle of the new graph passes through that cell: if no path
/// leads from the cell back to it, the new graph has no cycle.
pub proof fn edges_to_one_cell_acyclic(before: Set<Edge>, after: Set<Edge>, cell: AbsCell)
    requires
        acyclic(before),
        forall|e: Edge| #[trigger] after.contains(e) && !before.contains(e) ==> e.1 == cell,
        !connected(after, cell, cell),
    ensures
        acyclic(after),
{
    assert forall|c: AbsCell| !#[trigger] connected(after, c, c) by {
        if connected(after, c, c) {
            let path = choose|path: Seq<AbsCell>| #[trigger] leads(after, path, c, c);
            if forall|i: int| 0 <= i < path.len() - 1 ==> #[trigger] hop(before, path, i) {
                assert(leads(before, path, c, c));
                assert(connected(before, c, c));
            } else {
                let i = choose|i: int| 0 <= i < path.len() - 1 && !#[trigger] hop(before, path, i);
                assert(hop(after, path, i));
                assert(after.contains((path[i], path[i + 1])));
                assert(path[i + 1] == cell);
                let round = path.subrange(i + 1, path.len() as int) + path.subrange(1, i + 2);
                assert forall|k: int| 0 <= k < round.len() - 1 implies #[trigger] hop(
                    after,
                    round,
                    k,
                ) by {
                    let first = path.len() - (i + 1);
                    if k < first - 1 {
                        assert(hop(after, path, i + 1 + k));
                    } else if k == first - 1 {
                        assert(hop(after, path, 0));
                    } else {
                        assert(hop(after, path, k - first + 1));
                    }
                }
                assert(leads(after, round, cell, cell));
            }
        }
    }
}

/// How many of the counts are zero.
pub open spec fn untouched_places(counts: Seq<usize>) -> nat
    decreases counts.len(),
{
    if counts.len() == 0 {
        0
    } else {
        untouched_places(counts.drop_last()) + if counts.last() == 0 {
            1nat
        } else {
            0nat
        }
    }
}

/// Raising a count from zero leaves one fewer at zero; raising another
/// count leaves as many.
pub proof fn touching_places(counts: Seq<usize>, i: int, to: usize)
    requires
        0 <= i < counts.len(),
        to > 0,
    ensures
        untouched_places(counts.update(i, to)) + (if counts[i] == 0 {
            1nat
        } else {
            0nat
        }) == untouched_places(counts),
    decreases counts.len(),
{
    let after = counts.update(i, to);
    if i == counts.len() - 1 {
        assert(after.drop_last() =~= counts.drop_last());
    } else {
        assert(after.drop_last() =~= counts.drop_last().update(i, to));
        touching_places(counts.drop_last(), i, to);
    }
}

/// The total of the counts.
pub open spec fn total(counts: Seq<usize>) -> nat
    decreases counts.len(),
{
    if counts.len() == 0 {
        0
    } else {
        total(counts.drop_last()) + counts.last() as nat
    }
}

/// Lowering a count by one lowers the total by one.
pub proof fn lowering_counts(counts: Seq<usize>, i: int)
    requires
        0 <= i < counts.len(),
        counts[i] > 0,
    ensures
        total(counts.update(i, (counts[i] - 1) as usize)) + 1 == total(counts),
    decreases counts.len(),
{
    let after = counts.update(i, (counts[i] - 1) as usize);
    if i == counts.len() - 1 {
        assert(after.drop_last() =~= counts.drop_last());
    } else {
        assert(after.drop_last() =~= counts.drop_last().update(i, (counts[i] - 1) as usize));
        lowering_counts(counts.drop_last(), i);
    }
}

/// How many of the marks are not set.
pub open spec fn unset(marks: Seq<bool>) -> nat
    decreases marks.len(),
{
    if marks.len() == 0 {
        0
    } else {
        unset(marks.drop_last()) + if marks.last() {
            0nat
        } else {
            1nat
        }
    }
}

/// Setting a mark leaves one fewer unset.
pub proof fn setting_counts(marks: Seq<bool>, i: int)
    requires
        0 <= i < marks.len(),
        !marks[i],
    ensures
        unset(marks.update(i, true)) + 1 == unset(marks),
    decreases marks.len(),
{
    let after = marks.update(i, true);
    if i == marks.len() - 1 {
        assert(after.drop_last() =~= marks.drop_last());
    } else {
        assert(after.drop_last() =~= marks.drop_last().update(i, true));
        setting_counts(marks.drop_last(), i);
    }
}

/// Whether the search has marked `x`: `x` is not the cell that the search
/// looks for, and the place of `x` among `cells` is marked.
pub open spec fn marked(cells: Seq<AbsCell>, seen: Seq<bool>, cell: AbsCell, x: AbsCell) -> bool {
    x != cell && exists|k: int|
        0 <= k < cells.len() && k < seen.len() && #[trigger] cells[k] == x && seen[k]
}

/// Whether the search is done with the cell at place `i`: each of its
/// dependents is marked.
pub open spec fn settled(
    cells: Seq<AbsCell>,
    lists: Seq<Seq<AbsCell>>,
    seen: Seq<bool>,
    cell: AbsCell,
    i: int,
) -> bool {
    forall|j: int| 0 <= j < lists[i].len() ==> marked(cells, seen, cell, #[trigger] lists[i][j])
}

/// A mark stays when more is marked.
pub proof fn mark_stays(
    cells: Seq<AbsCell>,
    before: Seq<bool>,
    after: Seq<bool>,
    cell: AbsCell,
    x: AbsCell,
)
    requires
        before.len() == after.len(),
        forall|k: int| 0 <= k < before.len() && before[k] ==> after[k],
        marked(cells, before, cell, x),
    ensures
        marked(cells, after, cell, x),
{
    let k = choose|k: int|
        0 <= k < cells.len() && k < before.len() && #[trigger] cells[k] == x && before[k];
    assert(cells[k] == x && after[k]);
}

/// A cell that the search is done with stays so when more is marked.
pub proof fn marks_stay(
    cells: Seq<AbsCell>,
    lists: Seq<Seq<AbsCell>>,
    before: Seq<bool>,
    after: Seq<bool>,
    cell: AbsCell,
    i: int,
)
    requires
        before.len() == after.len(),
        forall|k: int| 0 <= k < before.len() && before[k] ==> after[k],
        settled(cells, lists, before, cell, i),
    ensures
        settled(cells, lists, after, cell, i),
{
    assert forall|j: int| 0 <= j < lists[i].len() implies marked(
        cells,
        after,
        cell,
        #[trigger] lists[i][j],
    ) by {
        mark_stays(cells, before, after, cell, lists[i][j]);
    }
}

/// Where the search is done with the cell it started from and with every
/// marked cell, a path from that cell never comes back to it: each cell on the
/// path is marked.
pub proof fn walk_stays_marked(
    edges: Set<Edge>,
    cells: Seq<AbsCell>,
    lists: Seq<Seq<AbsCell>>,
    seen: Seq<bool>,
    cell: AbsCell,
    start: int,
    path: Seq<AbsCell>,
    upto: int,
)
    requires
        cells.len() == lists.len(),
        cells.len() == seen.len(),
        0 <= start < cells.len(),
        cells[start] == cell,
        forall|i: int, x: AbsCell|
            0 <= i < cells.len() ==> (edges.contains((cells[i], x)) <==> #[trigger] lists[i].contains(
                x,
            )),
        forall|i: int|
            0 <= i < cells.len() && (seen[i] || i == start) ==> #[trigger] settled(
                cells,
                lists,
                seen,
                cell,
                i,
            ),
        linked(edges, path),
        path.len() >= 2,
        path[0] == cell,
        1 <= upto < path.len(),
    ensures
        marked(cells, seen, cell, path[upto]),
    decreases upto,
{
    assert(hop(edges, path, upto - 1));
    let i = if upto == 1 {
        start
    } else {
        walk_stays_marked(edges, cells, lists, seen, cell, start, path, upto - 1);
        choose|k: int|
            0 <= k < cells.len() && k < seen.len() && #[trigger] cells[k] == path[upto - 1]
                && seen[k]
    };
    assert(cells[i] == path[upto - 1]);
    assert(lists[i].contains(path[upto]));
    let j = choose|j: int| 0 <= j < lists[i].len() && lists[i][j] == path[upto];
    assert(settled(cells, lists, seen, cell, i));
    assert(marked(cells, seen, cell, lists[i][j]));
}

/// The places, among `members` and beside them `top` as far as its list is
/// given by `upto`, of the cells with an edge to the cell at place `k`.
pub open spec fn feeders_with(
    cells: Seq<AbsCell>,
    lists: Seq<Seq<AbsCell>>,
    members: Set<int>,
    top: int,
    upto: Seq<AbsCell>,
    k: int,
) -> Set<int> {
    Set::new(
        |p: int|
            0 <= p < lists.len() && ((members.contains(p) && lists[p].contains(cells[k])) || (p
                == top && upto.contains(cells[k]))),
    )
}

/// The places among `members` of the cells with an edge to the cell at
/// place `k`.
pub open spec fn feeders(
    cells: Seq<AbsCell>,
    lists: Seq<Seq<AbsCell>>,
    members: Set<int>,
    k: int,
) -> Set<int> {
    Set::new(|p: int| 0 <= p < lists.len() && members.contains(p) && lists[p].contains(cells[k]))
}

/// A set of places is finite and no larger than the number of places.
pub proof fn places_are_few(places: Set<int>, n: int)
    requires
        0 <= n,
        forall|p: int| places.contains(p) ==> 0 <= p < n,
    ensures
        places.finite(),
        places.len() <= n,
{
    lemma_int_range(0, n);
    assert(places.subset_of(set_int_range(0, n)));
    lemma_len_subset(places, set_int_range(0, n));
}

/// Whether the cell after place `i` of `walk` has an edge to the cell at
/// place `i` of it.
pub open spec fn led(edges: Set<Edge>, walk: Seq<AbsCell>, i: int) -> bool {
    edges.contains((walk[i + 1], walk[i]))
}

/// Whether every cell of `cells` has an edge to it from a cell of `cells`.
pub open spec fn closed_backward(edges: Set<Edge>, cells: Set<AbsCell>) -> bool {
    forall|c: AbsCell| #[trigger]
        cells.contains(c) ==> exists|r: AbsCell| cells.contains(r) && #[trigger] edges.contains(
            (r, c),
        )
}

/// Where every cell of a set has an edge to it from a cell of the set, a
/// walk backward along such edges can be made as long as one likes.
pub proof fn walk_back(edges: Set<Edge>, cells: Set<AbsCell>, from: AbsCell, steps: nat) -> (walk:
    Seq<AbsCell>)
    requires
        cells.contains(from),
        closed_backward(edges, cells),
    ensures
        walk.len() == steps + 1,
        forall|i: int| 0 <= i < walk.len() ==> cells.contains(#[trigger] walk[i]),
        forall|i: int| 0 <= i < walk.len() - 1 ==> #[trigger] led(edges, walk, i),
    decreases steps,
{
    if steps == 0 {
        seq![from]
    } else {
        let shorter = walk_back(edges, cells, from, (steps - 1) as nat);
        let last = shorter[shorter.len() - 1];
        assert(cells.contains(last));
        let r = choose|r: AbsCell| cells.contains(r) && #[trigger] edges.contains((r, last));
        let walk = shorter.push(r);
        assert forall|i: int| 0 <= i < walk.len() implies cells.contains(#[trigger] walk[i]) by {
            if i < shorter.len() {
                assert(cells.contains(shorter[i]));
            }
        }
        assert forall|i: int| 0 <= i < walk.len() - 1 implies #[trigger] led(edges, walk, i) by {
            if i < shorter.len() - 1 {
                assert(led(edges, shorter, i));
            }
        }
        walk
    }
}

/// In a graph without cycles, a finite set of cells in which every cell has
/// an edge to it from a cell of the set is empty.
pub proof fn closed_set_is_empty(edges: Set<Edge>, cells: Set<AbsCell>)
    requires
        acyclic(edges),
        cells.finite(),
        closed_backward(edges, cells),
    ensures
        forall|c: AbsCell| !cells.contains(c),
{
    assert forall|c: AbsCell| !cells.contains(c) by {
        if cells.contains(c) {
            let walk = walk_back(edges, cells, c, cells.len());
            let pair = if walk.no_duplicates() {
                walk.unique_seq_to_set();
                assert(walk.to_set().subset_of(cells)) by {
                    assert forall|x: AbsCell| walk.to_set().contains(x) implies cells.contains(
                        x,
                    ) by {
                        let i = choose|i: int| 0 <= i < walk.len() && walk[i] == x;
                        assert(cells.contains(walk[i]));
                    }
                }
                lemma_len_subset(walk.to_set(), cells);
                (0int, 0int)
            } else {
                let (i, j) = choose|i: int, j: int|
                    0 <= i < walk.len() && 0 <= j < walk.len() && i != j && walk[i] == walk[j];
                if i < j {
                    (i, j)
                } else {
                    (j, i)
                }
            };
            let i = pair.0;
            let j = pair.1;
            assert(0 <= i < j < walk.len() && walk[i] == walk[j]);
            let path = Seq::new((j - i + 1) as nat, |m: int| walk[j - m]);
            assert forall|m: int| 0 <= m < path.len() - 1 implies #[trigger] hop(edges, path, m) by {
                assert(led(edges, walk, j - m - 1));
            }
            assert(leads(edges, path, walk[j], walk[j]));
            assert(connected(edges, walk[j], walk[j]));
        }
    }
}

/// Whether the place `p` is listed in `order` before place `before` of it.
pub open spec fn listed(order: Seq<usize>, p: int, before: int) -> bool {
    exists|j: int| 0 <= j < before && j < order.len() && #[trigger] order[j] == p
}

/// Whether `cell` stands at a place of `members` that is not in `done`: its
/// formula is still to be evaluated.
pub open spec fn awaited(cells: Seq<AbsCell>, members: Set<int>, done: Set<int>, cell: AbsCell) -> bool {
    exists|k: int|
        0 <= k < cells.len() && #[trigger] cells[k] == cell && members.contains(k)
            && !done.contains(k)
}

/// The places that are listed in `order` before place `before` of it.
pub open spec fn earlier(order: Seq<usize>, before: int) -> Set<int> {
    Set::new(|p: int| listed(order, p, before))
}

/// Among more places than there are, one comes twice.
pub proof fn some_place_twice(walk: Seq<int>, n: int)
    requires
        0 <= n < walk.len(),
        forall|i: int| 0 <= i < walk.len() ==> 0 <= #[trigger] walk[i] < n,
    ensures
        exists|i: int, j: int| 0 <= i < j < walk.len() && walk[i] == walk[j],
{
    if walk.no_duplicates() {
        walk.unique_seq_to_set();
        assert forall|p: int| walk.to_set().contains(p) implies 0 <= p < n by {
            let i = choose|i: int| 0 <= i < walk.len() && walk[i] == p;
            assert(0 <= walk[i] < n);
        }
        places_are_few(walk.to_set(), n);
    } else {
        let (i, j) = choose|i: int, j: int|
            0 <= i < walk.len() && 0 <= j < walk.len() && i != j && walk[i] == walk[j];
        if i < j {
            assert(0 <= i < j < walk.len() && walk[i] == walk[j]);
        } else {
            assert(0 <= j < i < walk.len() && walk[j] == walk[i]);
        }
    }
}

/// Whether the cell at the place after place `i` of `walk` has an edge to
/// the cell at place `i` of it.
pub open spec fn fed(cells: Seq<AbsCell>, lists: Seq<Seq<AbsCell>>, walk: Seq<int>, i: int) -> bool {
    lists[walk[i + 1]].contains(cells[walk[i]])
}

/// Whether `walk` goes backward along edges through places of `active`.
pub open spec fn descends(
    cells: Seq<AbsCell>,
    lists: Seq<Seq<AbsCell>>,
    active: Set<int>,
    walk: Seq<int>,
) -> bool {
    &&& forall|i: int| 0 <= i < walk.len() ==> active.contains(#[trigger] walk[i])
    &&& forall|i: int| 0 <= i < walk.len() - 1 ==> #[trigger] fed(cells, lists, walk, i)
}

/// Whether every place of `active` has an edge to it from a place of
/// `active`.
pub open spec fn feeds_itself(cells: Seq<AbsCell>, lists: Seq<Seq<AbsCell>>, active: Set<int>) -> bool {
    forall|k: int| #[trigger]
        active.contains(k) ==> 0 <= k < cells.len() && feeders(cells, lists, active, k).len() > 0
}

/// Where every place of `active` has an edge to it from a place of
/// `active`, a walk backward along such edges can be made as long as one
/// likes.
pub proof fn descend(
    cells: Seq<AbsCell>,
    lists: Seq<Seq<AbsCell>>,
    active: Set<int>,
    from: int,
    steps: nat,
) -> (walk: Seq<int>)
    requires
        cells.len() == lists.len(),
        active.contains(from),
        feeds_itself(cells, lists, active),
    ensures
        walk.len() == steps + 1,
        walk[0] == from,
        descends(cells, lists, active, walk),
    decreases steps,
{
    if steps == 0 {
        let walk = seq![from];
        assert forall|i: int| 0 <= i < walk.len() - 1 implies #[trigger] fed(cells, lists, walk, i) by {}
        walk
    } else {
        let shorter = descend(cells, lists, active, from, (steps - 1) as nat);
        let last = shorter.last();
        assert(active.contains(shorter[shorter.len() - 1]));
        let sources = feeders(cells, lists, active, last);
        assert forall|p: int| sources.contains(p) implies 0 <= p < cells.len() by {}
        places_are_few(sources, cells.len() as int);
        let p = sources.choose();
        assert(sources.contains(p));
        let walk = shorter.push(p);
        assert forall|i: int| 0 <= i < walk.len() implies active.contains(#[trigger] walk[i]) by {
            if i < shorter.len() {
                assert(active.contains(shorter[i]));
            }
        }
        assert forall|i: int| 0 <= i < walk.len() - 1 implies #[trigger] fed(cells, lists, walk, i) by {
            if i < shorter.len() - 1 {
                assert(fed(cells, lists, shorter, i));
            }
        }
        walk
    }
}

/// The dependency graph: for each cell that it knows, the cells whose
/// formulas read that cell.
pub struct DependencyGraph {
    nodes: CellMap<CellMetadata>,
}

impl DependencyGraph {
    /// The cells that the graph knows, in row-major order.
    pub closed spec fn cells(&self) -> Seq<AbsCell> {
        self.nodes.cells()
    }

    /// The dependents of each known cell, in the order of the cells.
    pub closed spec fn lists(&self) -> Seq<Seq<AbsCell>> {
        Seq::new(self.nodes.items().len(), |i: int| self.nodes.items()[i].dependents@)
    }

    /// The edges of the graph.
    pub closed spec fn edges(&self) -> Set<Edge> {
        Set::new(
            |e: Edge| self.nodes@.contains_key(e.0) && self.nodes@[e.0].dependents@.contains(e.1),
        )
    }

    /// Whether `cell` is known to the graph.
    pub closed spec fn knows(&self, cell: AbsCell) -> bool {
        self.nodes@.contains_key(cell)
    }

    /// Whether the graph is sound: no dependent is listed twice, and every
    /// dependent is itself known.
    pub closed spec fn wf(&self) -> bool {
        &&& self.nodes.wf()
        &&& forall|cell: AbsCell| #[trigger]
            self.nodes@.contains_key(cell) ==> self.nodes@[cell].wf()
        &&& forall|cell: AbsCell, other: AbsCell|
            self.nodes@.contains_key(cell) && #[trigger] self.nodes@[cell].dependents@.contains(
                other,
            ) ==> self.nodes@.contains_key(other)
    }

    /// What the lists say of the edges.
    pub proof fn lists_are_edges(&self)
        requires
            self.wf(),
        ensures
            self.cells().len() == self.lists().len(),
            crate::common::cell_map::ascending(self.cells()),
            forall|i: int|
                0 <= i < self.cells().len() ==> self.knows(#[trigger] self.cells()[i]),
            forall|i: int, x: AbsCell|
                0 <= i < self.cells().len() ==> (self.edges().contains((self.cells()[i], x))
                    <==> #[trigger] self.lists()[i].contains(x)),
            forall|from: AbsCell, to: AbsCell| #[trigger]
                self.edges().contains((from, to)) ==> self.knows(from) && self.knows(to),
            forall|cell: AbsCell|
                self.knows(cell) ==> exists|i: int|
                    0 <= i < self.cells().len() && #[trigger] self.cells()[i] == cell,
    {
        assert forall|i: int| 0 <= i < self.cells().len() implies self.knows(
            #[trigger] self.cells()[i],
        ) by {
            self.nodes.entry_in_view(i);
        }
        assert forall|i: int, x: AbsCell| 0 <= i < self.cells().len() implies (self.edges().contains(
            (self.cells()[i], x),
        ) <==> #[trigger] self.lists()[i].contains(x)) by {
            self.nodes.entry_in_view(i);
        }
        assert forall|from: AbsCell, to: AbsCell| #[trigger]
            self.edges().contains((from, to)) implies self.knows(from) && self.knows(to) by {
            assert(self.nodes@[from].dependents@.contains(to));
        }
        assert forall|cell: AbsCell| self.knows(cell) implies exists|i: int|
            0 <= i < self.cells().len() && #[trigger] self.cells()[i] == cell by {
            self.nodes.view_in_entries(cell);
            assert(self.cells()[self.nodes.slot(cell)] == cell);
        }
    }

    /// No cell is known at two places.
    pub proof fn cells_differ(&self, i: int, j: int)
        requires
            self.wf(),
            0 <= i < self.cells().len(),
            0 <= j < self.cells().len(),
            i != j,
        ensures
            self.cells()[i] != self.cells()[j],
    {
        self.lists_are_edges();
        if i < j {
            assert(self.cells()[i].precedes(self.cells()[j]));
        } else {
            assert(self.cells()[j].precedes(self.cells()[i]));
        }
    }

    /// A graph that knows no cell, and so holds no edge.
    pub fn new() -> (graph: Self)
        ensures
            graph.wf(),
            graph.cells() == Seq::<AbsCell>::empty(),
            graph.lists() == Seq::<Seq<AbsCell>>::empty(),
            graph.edges() == Set::<Edge>::empty(),
    {
        let graph = DependencyGraph { nodes: CellMap::new() };
        assert(graph.edges() =~= Set::<Edge>::empty());
        graph
    }

    /// The number of known cells.
    pub fn len(&self) -> (n: usize)
        requires
            self.wf(),
        ensures
            n == self.cells().len(),
    {
        self.nodes.len()
    }

    /// The place of `cell` among the known cells, if it is known.
    pub fn place(&self, cell: AbsCell) -> (at: Option<usize>)
        requires
            self.wf(),
        ensures
            match at {
                Some(i) => i < self.cells().len() && self.cells()[i as int] == cell && self.knows(
                    cell,
                ),
                None => !self.knows(cell),
            },
    {
        let i = self.nodes.seek(cell);
        if i < self.nodes.len() && self.nodes.cell_at(i) == cell {
            Some(i)
        } else {
            None
        }
    }

    /// The known cell at place `i`.
    pub fn cell_at(&self, i: usize) -> (cell: AbsCell)
        requires
            self.wf(),
            i < self.cells().len(),
        ensures
            cell == self.cells()[i as int],
    {
        self.nodes.cell_at(i)
    }

    /// The dependents of the known cell at place `i`.
    pub fn dependents_at(&self, i: usize) -> (list: &Vec<AbsCell>)
        requires
            self.wf(),
            i < self.cells().len(),
        ensures
            list@ == self.lists()[i as int],
            list@.no_duplicates(),
    {
        proof {
            self.nodes.entry_in_view(i as int);
        }
        &self.nodes.item_at(i).dependents
    }

    /// Adds the edge from `on` to `cell`, unless it is there; both cells are
    /// known afterwards.
    pub fn add_edge(&mut self, on: AbsCell, cell: AbsCell)
        requires
            old(self).wf(),
        ensures
            final(self).wf(),
            final(self).edges() == old(self).edges().insert((on, cell)),
            forall|c: AbsCell| old(self).knows(c) ==> final(self).knows(c),
    {
        let i = self.nodes.seek(on);
        if i < self.nodes.len() && self.nodes.cell_at(i) == on {
            proof {
                self.nodes.entry_in_view(i as int);
            }
            let mut meta = self.nodes.exchange(i, CellMetadata::new());
            meta.add(cell);
            let _ = self.nodes.exchange(i, meta);
        } else {
            let mut meta = CellMetadata::new();
            meta.add(cell);
            self.nodes.insert(on, meta);
        }
        if !self.nodes.contains(cell) {
            self.nodes.insert(cell, CellMetadata::new());
        }
        proof {
            assert forall|e: Edge| self.edges().contains(e) <==> old(self).edges().insert(
                (on, cell),
            ).contains(e) by {
                if e.0 == on {
                    assert(self.nodes@[on].dependents@.to_set().contains(e.1)
                        <==> self.nodes@[on].dependents@.contains(e.1));
                    if old(self).nodes@.contains_key(on) {
                        assert(old(self).nodes@[on].dependents@.to_set().contains(e.1) <==> old(
                            self,
                        ).nodes@[on].dependents@.contains(e.1));
                    }
                }
            }
            assert(self.edges() =~= old(self).edges().insert((on, cell)));
            assert forall|c: AbsCell, other: AbsCell|
                self.nodes@.contains_key(c) && #[trigger] self.nodes@[c].dependents@.contains(
                    other,
                ) implies self.nodes@.contains_key(other) by {
                if c == on {
                    assert(self.nodes@[on].dependents@.to_set().contains(other));
                    if other != cell {
                        assert(old(self).nodes@[on].dependents@.to_set().contains(other));
                        assert(old(self).nodes@[on].dependents@.contains(other));
                    }
                } else {
                    assert(old(self).nodes@[c].dependents@.contains(other));
                }
            }
        }
    }

    /// Takes the edge from `on` to `cell` away, if it is there.
    pub fn remove_edge(&mut self, on: AbsCell, cell: AbsCell)
        requires
            old(self).wf(),
        ensures
            final(self).wf(),
            final(self).edges() == old(self).edges().remove((on, cell)),
            forall|c: AbsCell| old(self).knows(c) <==> final(self).knows(c),
    {
        let i = self.nodes.seek(on);
        if i < self.nodes.len() && self.nodes.cell_at(i) == on {
            proof {
                self.nodes.entry_in_view(i as int);
            }
            let mut meta = self.nodes.exchange(i, CellMetadata::new());
            meta.drop(cell);
            let _ = self.nodes.exchange(i, meta);
            proof {
                assert forall|e: Edge| self.edges().contains(e) <==> old(self).edges().remove(
                    (on, cell),
                ).contains(e) by {
                    if e.0 == on {
                        assert(self.nodes@[on].dependents@.to_set().contains(e.1)
                            <==> self.nodes@[on].dependents@.contains(e.1));
                        assert(old(self).nodes@[on].dependents@.to_set().contains(e.1) <==> old(
                            self,
                        ).nodes@[on].dependents@.contains(e.1));
                    }
                }
                assert forall|c: AbsCell, other: AbsCell|
                    self.nodes@.contains_key(c) && #[trigger] self.nodes@[c].dependents@.contains(
                        other,
                    ) implies self.nodes@.contains_key(other) by {
                    if c == on {
                        assert(self.nodes@[on].dependents@.to_set().contains(other));
                        assert(old(self).nodes@[on].dependents@.to_set().contains(other));
                        assert(old(self).nodes@[on].dependents@.contains(other));
                    } else {
                        assert(old(self).nodes@[c].dependents@.contains(other));
                    }
                }
                assert forall|c: AbsCell| old(self).knows(c) <==> self.knows(c) by {}
            }
        }
        assert(self.edges() =~= old(self).edges().remove((on, cell)));
    }

    /// Whether a path of one edge or more leads from `cell` back to `cell`.
    /// The search walks forward along the edges and marks what it has seen,
    /// so that no cell is walked from twice.
    pub fn returns_to(&self, cell: AbsCell) -> (found: bool)
        requires
            self.wf(),
        ensures
            found == connected(self.edges(), cell, cell),
    {
        proof {
            self.lists_are_edges();
        }
        let n = self.nodes.len();
        let start = match self.place(cell) {
            Some(i) => i,
            None => {
                proof {
                    if connected(self.edges(), cell, cell) {
                        let path = choose|path: Seq<AbsCell>| #[trigger]
                            leads(self.edges(), path, cell, cell);
                        assert(hop(self.edges(), path, 0));
                    }
                }
                return false;
            },
        };
        let mut seen: Vec<bool> = Vec::new();
        while seen.len() < n
            invariant
                seen@.len() <= n,
                forall|i: int| 0 <= i < seen@.len() ==> !seen@[i],
            decreases n - seen@.len(),
        {
            seen.push(false);
        }
        let mut stack: Vec<usize> = Vec::new();
        stack.push(start);
        assert(stack@[0] == start);
        loop
            invariant
                self.wf(),
                n == self.cells().len(),
                seen@.len() == n,
                start < n,
                self.cells()[start as int] == cell,
                !seen@[start as int],
                stack@.no_duplicates(),
                forall|k: int|
                    0 <= k < stack@.len() ==> (#[trigger] stack@[k]) < n && (stack@[k] == start
                        || seen@[stack@[k] as int]),
                forall|i: int|
                    0 <= i < n && #[trigger] seen@[i] ==> connected(
                        self.edges(),
                        cell,
                        self.cells()[i],
                    ),
                forall|i: int|
                    0 <= i < n && (seen@[i] || i == start) && !stack@.contains(i as usize)
                        ==> #[trigger] settled(self.cells(), self.lists(), seen@, cell, i),
            decreases unset(seen@), stack@.len(),
        {
            proof {
                self.lists_are_edges();
            }
            let ghost marks = seen@;
            let ghost waiting = stack@;
            let top = match stack.pop() {
                Some(top) => top,
                None => {
                    proof {
                        if connected(self.edges(), cell, cell) {
                            let path = choose|path: Seq<AbsCell>| #[trigger]
                                leads(self.edges(), path, cell, cell);
                            assert forall|i: int| 0 <= i < n && (seen@[i] || i == start) implies #[trigger] settled(
                                self.cells(),
                                self.lists(),
                                seen@,
                                cell,
                                i,
                            ) by {
                                assert(!stack@.contains(i as usize));
                            }
                            walk_stays_marked(
                                self.edges(),
                                self.cells(),
                                self.lists(),
                                seen@,
                                cell,
                                start as int,
                                path,
                                path.len() - 1,
                            );
                        }
                    }
                    return false;
                },
            };
            assert(waiting == stack@.push(top));
            assert(top == waiting[waiting.len() - 1]);
            assert(!stack@.contains(top)) by {
                if stack@.contains(top) {
                    let k = choose|k: int| 0 <= k < stack@.len() && stack@[k] == top;
                    assert(waiting[k] == waiting[waiting.len() - 1]);
                }
            }
            assert(stack@.no_duplicates()) by {
                assert forall|a: int, b: int|
                    0 <= a < stack@.len() && 0 <= b < stack@.len() && a != b implies stack@[a]
                    != stack@[b] by {
                    assert(waiting[a] == stack@[a] && waiting[b] == stack@[b]);
                }
            }
            assert forall|k: int| 0 <= k < stack@.len() implies (#[trigger] stack@[k]) < n && (
            stack@[k] == start || seen@[stack@[k] as int]) by {
                assert(waiting[k] == stack@[k]);
            }
            assert forall|i: int|
                0 <= i < n && i != top && (seen@[i] || i == start) && !stack@.contains(
                    i as usize,
                ) implies #[trigger] settled(self.cells(), self.lists(), seen@, cell, i) by {
                if waiting.contains(i as usize) {
                    let k = choose|k: int| 0 <= k < waiting.len() && waiting[k] == i as usize;
                    if k < stack@.len() {
                        assert(stack@[k] == i as usize);
                    }
                }
            }
            let list = self.dependents_at(top);
            let mut j: usize = 0;
            while j < list.len()
                invariant
                    self.wf(),
                    n == self.cells().len(),
                    seen@.len() == n,
                    start < n,
                    top < n,
                    top == start || seen@[top as int],
                    !stack@.contains(top),
                    list@ == self.lists()[top as int],
                    j <= list@.len(),
                    self.cells()[start as int] == cell,
                    !seen@[start as int],
                    stack@.no_duplicates(),
                    stack@.len() >= waiting.len() - 1,
                    unset(seen@) + (stack@.len() - (waiting.len() - 1)) == unset(marks),
                    forall|k: int|
                        0 <= k < stack@.len() ==> (#[trigger] stack@[k]) < n && (stack@[k] == start
                            || seen@[stack@[k] as int]),
                    forall|i: int|
                        0 <= i < n && #[trigger] seen@[i] ==> connected(
                            self.edges(),
                            cell,
                            self.cells()[i],
                        ),
                    forall|i: int|
                        0 <= i < n && i != top && (seen@[i] || i == start) && !stack@.contains(
                            i as usize,
                        ) ==> #[trigger] settled(self.cells(), self.lists(), seen@, cell, i),
                    forall|i: int|
                        0 <= i < j ==> marked(self.cells(), seen@, cell, #[trigger] list@[i]),
                decreases list@.len() - j,
            {
                proof {
                    self.lists_are_edges();
                }
                let x = list[j];
                assert(self.lists()[top as int].contains(x));
                assert(self.edges().contains((self.cells()[top as int], x)));
                proof {
                    if top == start {
                        edge_connects(self.edges(), cell, x);
                    } else {
                        path_extends(self.edges(), cell, self.cells()[top as int], x);
                    }
                }
                if x == cell {
                    return true;
                }
                let at = self.place(x).unwrap();
                assert(at != start) by {
                    if at == start {
                        assert(self.cells()[at as int] == cell);
                    }
                }
                if !seen[at] {
                    let ghost before = seen@;
                    let ghost held = stack@;
                    seen.set(at, true);
                    stack.push(at);
                    proof {
                        setting_counts(before, at as int);
                        assert(at != top);
                        assert(!held.contains(at)) by {
                            if held.contains(at) {
                                let k = choose|k: int| 0 <= k < held.len() && held[k] == at;
                                assert(held[k] == start || before[held[k] as int]);
                            }
                        }
                        assert(stack@.no_duplicates()) by {
                            assert forall|a: int, b: int|
                                0 <= a < stack@.len() && 0 <= b < stack@.len() && a
                                    != b implies stack@[a] != stack@[b] by {
                                if a < held.len() && b < held.len() {
                                    assert(held[a] != held[b]);
                                } else if a < held.len() {
                                    assert(held.contains(held[a]));
                                } else if b < held.len() {
                                    assert(held.contains(held[b]));
                                }
                            }
                        }
                        assert(!stack@.contains(top)) by {
                            if stack@.contains(top) {
                                let k = choose|k: int| 0 <= k < stack@.len() && stack@[k] == top;
                                if k < held.len() {
                                    assert(held[k] == top);
                                    assert(held.contains(top));
                                }
                            }
                        }
                        assert forall|k: int| 0 <= k < stack@.len() implies (#[trigger] stack@[k])
                            < n && (stack@[k] == start || seen@[stack@[k] as int]) by {
                            if k < held.len() {
                                assert(held[k] == stack@[k]);
                            }
                        }
                        assert forall|i: int|
                            0 <= i < n && i != top && (seen@[i] || i == start) && !stack@.contains(
                                i as usize,
                            ) implies #[trigger] settled(
                            self.cells(),
                            self.lists(),
                            seen@,
                            cell,
                            i,
                        ) by {
                            assert(i != at) by {
                                if i == at {
                                    assert(stack@[stack@.len() - 1] == at);
                                }
                            }
                            assert(before[i] || i == start);
                            assert(!held.contains(i as usize)) by {
                                if held.contains(i as usize) {
                                    let k = choose|k: int|
                                        0 <= k < held.len() && held[k] == i as usize;
                                    assert(stack@[k] == i as usize);
                                }
                            }
                            assert(settled(self.cells(), self.lists(), before, cell, i));
                            marks_stay(self.cells(), self.lists(), before, seen@, cell, i);
                        }
                        assert forall|i: int| 0 <= i < j implies marked(
                            self.cells(),
                            seen@,
                            cell,
                            #[trigger] list@[i],
                        ) by {
                            mark_stays(self.cells(), before, seen@, cell, list@[i]);
                        }
                    }
                }
                assert(marked(self.cells(), seen@, cell, x)) by {
                    assert(self.cells()[at as int] == x && seen@[at as int]);
                }
                j += 1;
            }
            assert(settled(self.cells(), self.lists(), seen@, cell, top as int));
        }
    }

    /// Adds an edge to `cell` from every cell of `referenced`.
    pub fn add_edges_to(&mut self, cell: AbsCell, referenced: &Vec<AbsCell>)
        requires
            old(self).wf(),
        ensures
            final(self).wf(),
            forall|e: Edge|
                #[trigger] final(self).edges().contains(e) <==> old(self).edges().contains(e) || (
                e.1 == cell && referenced@.contains(e.0)),
    {
        let mut i: usize = 0;
        while i < referenced.len()
            invariant
                self.wf(),
                i <= referenced@.len(),
                forall|e: Edge|
                    #[trigger] self.edges().contains(e) <==> old(self).edges().contains(e) || (e.1
                        == cell && exists|k: int| 0 <= k < i && referenced@[k] == e.0),
            decreases referenced@.len() - i,
        {
            let ghost before = self.edges();
            self.add_edge(referenced[i], cell);
            assert forall|e: Edge|
                #[trigger] self.edges().contains(e) <==> old(self).edges().contains(e) || (e.1
                    == cell && exists|k: int| 0 <= k < i + 1 && referenced@[k] == e.0) by {
                assert(self.edges().contains(e) <==> before.contains(e) || e == (
                    referenced@[i as int],
                    cell,
                ));
                if before.contains(e) && !old(self).edges().contains(e) {
                    let k = choose|k: int| 0 <= k < i && referenced@[k] == e.0;
                    assert(0 <= k < i + 1 && referenced@[k] == e.0);
                }
            }
            i += 1;
        }
    }

    /// Takes the edge to `cell` away from every cell of `referenced`.
    pub fn remove_edges_to(&mut self, cell: AbsCell, referenced: &Vec<AbsCell>)
        requires
            old(self).wf(),
        ensures
            final(self).wf(),
            forall|e: Edge|
                #[trigger] final(self).edges().contains(e) <==> old(self).edges().contains(e) && !(
                e.1 == cell && referenced@.contains(e.0)),
    {
        let mut i: usize = 0;
        while i < referenced.len()
            invariant
                self.wf(),
                i <= referenced@.len(),
                forall|e: Edge|
                    #[trigger] self.edges().contains(e) <==> old(self).edges().contains(e) && !(e.1
                        == cell && exists|k: int| 0 <= k < i && referenced@[k] == e.0),
            decreases referenced@.len() - i,
        {
            let ghost before = self.edges();
            self.remove_edge(referenced[i], cell);
            assert forall|e: Edge|
                #[trigger] self.edges().contains(e) <==> old(self).edges().contains(e) && !(e.1
                    == cell && exists|k: int| 0 <= k < i + 1 && referenced@[k] == e.0) by {
                assert(self.edges().contains(e) <==> before.contains(e) && e != (
                    referenced@[i as int],
                    cell,
                ));
                if e.1 == cell && exists|k: int| 0 <= k < i + 1 && referenced@[k] == e.0 {
                    let k = choose|k: int| 0 <= k < i + 1 && referenced@[k] == e.0;
                    if k < i {
                        assert(!before.contains(e));
                    }
                }
            }
            i += 1;
        }
    }

    /// Whether `members` and `dirty` describe what a change of the cell at
    /// place `start` reaches: `members` holds `start` and, with each place,
    /// the places of its dependents; `dirty` counts, for each place, the
    /// members with an edge to it; and every member but `start` has such
    /// an edge.
    pub open spec fn spread_from(&self, start: int, members: Set<int>, dirty: Seq<usize>) -> bool {
        &&& dirty.len() == self.cells().len()
        &&& members.contains(start)
        &&& forall|p: int| members.contains(p) ==> 0 <= p < self.cells().len()
        &&& forall|p: int, k: int|
            #![trigger members.contains(p), self.lists()[p].contains(self.cells()[k])]
            members.contains(p) && 0 <= k < self.cells().len() && self.lists()[p].contains(
                self.cells()[k],
            ) ==> members.contains(k)
        &&& forall|k: int|
            0 <= k < self.cells().len() ==> dirty[k] == (#[trigger] feeders(
                self.cells(),
                self.lists(),
                members,
                k,
            )).len()
        &&& forall|k: int| members.contains(k) && k != start ==> #[trigger] dirty[k] > 0
        &&& dirty[start] == 0
    }

    /// Counts, for every cell that a change of the cell at place `start`
    /// reaches, the edges that lead to it from the cells of the change. The
    /// walk goes forward from `start`; a cell is walked from when the first
    /// edge to it is counted.
    pub fn count_feeders(&self, start: usize) -> (out: (Vec<usize>, Ghost<Set<int>>))
        requires
            self.wf(),
            acyclic(self.edges()),
            start < self.cells().len(),
        ensures
            self.spread_from(start as int, out.1@, out.0@),
    {
        proof {
            self.lists_are_edges();
        }
        let n = self.nodes.len();
        let ghost cells = self.cells();
        let ghost lists = self.lists();
        let ghost edges = self.edges();
        let ghost origin = cells[start as int];
        let mut dirty: Vec<usize> = Vec::new();
        while dirty.len() < n
            invariant
                dirty@.len() <= n,
                forall|k: int| 0 <= k < dirty@.len() ==> dirty@[k] == 0,
            decreases n - dirty@.len(),
        {
            dirty.push(0);
        }
        let mut stack: Vec<usize> = Vec::new();
        stack.push(start);
        let ghost mut expanded: Set<int> = Set::empty();
        proof {
            assert(stack@[0] == start);
            assert forall|k: int| 0 <= k < n implies dirty@[k] == (#[trigger] feeders(
                cells,
                lists,
                expanded,
                k,
            )).len() by {
                assert(feeders(cells, lists, expanded, k) =~= Set::<int>::empty());
            }
        }
        while stack.len() > 0
            invariant
                self.wf(),
                acyclic(edges),
                cells == self.cells(),
                lists == self.lists(),
                edges == self.edges(),
                origin == cells[start as int],
                n == cells.len(),
                n == lists.len(),
                start < n,
                dirty@.len() == n,
                dirty@[start as int] == 0,
                stack@.no_duplicates(),
                forall|i: int| 0 <= i < stack@.len() ==> (#[trigger] stack@[i]) < n
                    && !expanded.contains(stack@[i] as int) && (stack@[i] == start
                    || dirty@[stack@[i] as int] > 0),
                forall|p: int| expanded.contains(p) ==> 0 <= p < n && (p == start || dirty@[p] > 0),
                forall|k: int|
                    0 <= k < n && (k == start || #[trigger] dirty@[k] > 0) ==> expanded.contains(k)
                        || stack@.contains(k as usize),
                forall|k: int|
                    0 <= k < n && k != start && #[trigger] dirty@[k] > 0 ==> connected(
                        edges,
                        origin,
                        cells[k],
                    ),
                forall|k: int|
                    0 <= k < n ==> dirty@[k] == (#[trigger] feeders(cells, lists, expanded, k)).len(),
            decreases untouched_places(dirty@), stack@.len(),
        {
            proof {
                self.lists_are_edges();
            }
            let ghost waiting = stack@;
            let ghost counts = dirty@;
            let top = stack.pop().unwrap();
            proof {
                assert(waiting == stack@.push(top));
                assert(top == waiting[waiting.len() - 1]);
                assert(!stack@.contains(top)) by {
                    if stack@.contains(top) {
                        let i = choose|i: int| 0 <= i < stack@.len() && stack@[i] == top;
                        assert(waiting[i] == waiting[waiting.len() - 1]);
                    }
                }
                assert forall|a: int, b: int|
                    0 <= a < stack@.len() && 0 <= b < stack@.len() && a != b implies stack@[a]
                    != stack@[b] by {
                    assert(waiting[a] == stack@[a] && waiting[b] == stack@[b]);
                }
                assert forall|i: int| 0 <= i < stack@.len() implies (#[trigger] stack@[i]) < n
                    && !expanded.contains(stack@[i] as int) && (stack@[i] == start
                    || dirty@[stack@[i] as int] > 0) by {
                    assert(waiting[i] == stack@[i]);
                }
                assert forall|k: int|
                    0 <= k < n && (k == start || #[trigger] dirty@[k] > 0) implies expanded.contains(
                    k,
                ) || stack@.contains(k as usize) || k == top by {
                    if waiting.contains(k as usize) && k != top {
                        let i = choose|i: int| 0 <= i < waiting.len() && waiting[i] == k as usize;
                        assert(stack@[i] == k as usize);
                    }
                }
                assert forall|k: int| 0 <= k < n implies dirty@[k] == (#[trigger] feeders_with(
                    cells,
                    lists,
                    expanded,
                    top as int,
                    lists[top as int].take(0),
                    k,
                )).len() by {
                    assert(feeders_with(
                        cells,
                        lists,
                        expanded,
                        top as int,
                        lists[top as int].take(0),
                        k,
                    ) =~= feeders(cells, lists, expanded, k));
                }
            }
            let list = self.dependents_at(top);
            let mut j: usize = 0;
            while j < list.len()
                invariant
                    self.wf(),
                    acyclic(edges),
                    cells == self.cells(),
                    lists == self.lists(),
                    edges == self.edges(),
                    origin == cells[start as int],
                    n == cells.len(),
                    n == lists.len(),
                    start < n,
                    top < n,
                    top == start || dirty@[top as int] > 0,
                    !expanded.contains(top as int),
                    !stack@.contains(top),
                    list@ == lists[top as int],
                    list@.no_duplicates(),
                    j <= list@.len(),
                    dirty@.len() == n,
                    dirty@[start as int] == 0,
                    stack@.no_duplicates(),
                    stack@.len() >= waiting.len() - 1,
                    untouched_places(dirty@) + (stack@.len() - (waiting.len() - 1))
                        == untouched_places(counts),
                    forall|i: int| 0 <= i < stack@.len() ==> (#[trigger] stack@[i]) < n
                        && !expanded.contains(stack@[i] as int) && (stack@[i] == start
                        || dirty@[stack@[i] as int] > 0),
                    forall|p: int|
                        expanded.contains(p) ==> 0 <= p < n && (p == start || dirty@[p] > 0),
                    forall|k: int|
                        0 <= k < n && (k == start || #[trigger] dirty@[k] > 0)
                            ==> expanded.contains(k) || stack@.contains(k as usize) || k == top,
                    forall|k: int|
                        0 <= k < n && k != start && #[trigger] dirty@[k] > 0 ==> connected(
                            edges,
                            origin,
                            cells[k],
                        ),
                    forall|k: int|
                        0 <= k < n ==> dirty@[k] == (#[trigger] feeders_with(
                            cells,
                            lists,
                            expanded,
                            top as int,
                            list@.take(j as int),
                            k,
                        )).len(),
                decreases list@.len() - j,
            {
                proof {
                    self.lists_are_edges();
                }
                let x = list[j];
                assert(lists[top as int].contains(x));
                assert(edges.contains((cells[top as int], x)));
                let at = self.place(x).unwrap();
                proof {
                    if top == start {
                        edge_connects(edges, origin, x);
                    } else {
                        path_extends(edges, origin, cells[top as int], x);
                    }
                    assert(at != start) by {
                        if at == start {
                            assert(connected(edges, origin, origin));
                        }
                    }
                    let before = feeders_with(
                        cells,
                        lists,
                        expanded,
                        top as int,
                        list@.take(j as int),
                        at as int,
                    );
                    let after = feeders_with(
                        cells,
                        lists,
                        expanded,
                        top as int,
                        list@.take(j + 1),
                        at as int,
                    );
                    assert(list@.take(j + 1)[j as int] == x);
                    assert(!list@.take(j as int).contains(x)) by {
                        if list@.take(j as int).contains(x) {
                            let i = choose|i: int|
                                0 <= i < list@.take(j as int).len() && list@.take(j as int)[i] == x;
                            assert(list@[i] == list@[j as int]);
                        }
                    }
                    assert(after =~= before.insert(top as int));
                    assert(!before.contains(top as int));
                    assert forall|p: int| after.contains(p) implies 0 <= p < n by {}
                    places_are_few(after, n as int);
                    places_are_few(before, n as int);
                }
                let count = dirty[at];
                proof {
                    touching_places(dirty@, at as int, (count + 1) as usize);
                }
                dirty.set(at, count + 1);
                let ghost held = stack@;
                if count == 0 {
                    stack.push(at);
                }
                proof {
                    if count == 0 {
                        assert(!held.contains(at)) by {
                            if held.contains(at) {
                                let i = choose|i: int| 0 <= i < held.len() && held[i] == at;
                                assert(held[i] == start || counts.len() == n);
                            }
                        }
                        assert forall|a: int, b: int|
                            0 <= a < stack@.len() && 0 <= b < stack@.len() && a
                                != b implies stack@[a] != stack@[b] by {
                            if a < held.len() && b < held.len() {
                                assert(held[a] != held[b]);
                            } else if a < held.len() {
                                assert(held.contains(held[a]));
                            } else if b < held.len() {
                                assert(held.contains(held[b]));
                            }
                        }
                        assert(at != top);
                        assert(!stack@.contains(top)) by {
                            if stack@.contains(top) {
                                let i = choose|i: int| 0 <= i < stack@.len() && stack@[i] == top;
                                if i < held.len() {
                                    assert(held[i] == top);
                                    assert(held.contains(top));
                                }
                            }
                        }
                    }
                    assert forall|i: int| 0 <= i < stack@.len() implies (#[trigger] stack@[i]) < n
                        && !expanded.contains(stack@[i] as int) && (stack@[i] == start
                        || dirty@[stack@[i] as int] > 0) by {
                        if i < held.len() {
                            assert(held[i] == stack@[i]);
                        }
                    }
                    assert forall|k: int|
                        0 <= k < n && (k == start || #[trigger] dirty@[k] > 0) implies expanded.contains(
                        k,
                    ) || stack@.contains(k as usize) || k == top by {
                        if k == at {
                            if count == 0 {
                                assert(stack@[stack@.len() - 1] == at);
                            } else {
                                if held.contains(k as usize) {
                                    let i = choose|i: int|
                                        0 <= i < held.len() && held[i] == k as usize;
                                    assert(stack@[i] == k as usize);
                                }
                            }
                        } else {
                            if held.contains(k as usize) {
                                let i = choose|i: int| 0 <= i < held.len() && held[i] == k as usize;
                                assert(stack@[i] == k as usize);
                            }
                        }
                    }
                    assert forall|k: int| 0 <= k < n implies dirty@[k] == (#[trigger] feeders_with(
                        cells,
                        lists,
                        expanded,
                        top as int,
                        list@.take(j + 1),
                        k,
                    )).len() by {
                        if k != at {
                            assert(cells[k] != x) by {
                                if cells[k] == x {
                                    if k < at {
                                        assert(cells[k].precedes(cells[at as int]));
                                    } else {
                                        assert(cells[at as int].precedes(cells[k]));
                                    }
                                }
                            }
                            assert(list@.take(j + 1) =~= list@.take(j as int).push(x));
                            crate::common::expression::pushed_or_held(
                                list@.take(j as int),
                                x,
                                cells[k],
                            );
                            assert(feeders_with(
                                cells,
                                lists,
                                expanded,
                                top as int,
                                list@.take(j + 1),
                                k,
                            ) =~= feeders_with(
                                cells,
                                lists,
                                expanded,
                                top as int,
                                list@.take(j as int),
                                k,
                            ));
                        }
                    }
                }
                j += 1;
            }
            proof {
                let grown = expanded.insert(top as int);
                assert(list@.take(j as int) =~= lists[top as int]);
                assert forall|k: int| 0 <= k < n implies dirty@[k] == (#[trigger] feeders(
                    cells,
                    lists,
                    grown,
                    k,
                )).len() by {
                    assert(feeders(cells, lists, grown, k) =~= feeders_with(
                        cells,
                        lists,
                        expanded,
                        top as int,
                        list@.take(j as int),
                        k,
                    ));
                }
                expanded = grown;
            }
        }
        proof {
            assert forall|p: int, k: int|
                #![trigger expanded.contains(p), lists[p].contains(cells[k])]
                expanded.contains(p) && 0 <= k < n && lists[p].contains(
                    cells[k],
                ) implies expanded.contains(k) by {
                assert(feeders(cells, lists, expanded, k).contains(p));
                places_are_few(feeders(cells, lists, expanded, k), n as int);
                if dirty@[k] == 0 {
                    assert(feeders(cells, lists, expanded, k).len() == 0);
                    assert(feeders(cells, lists, expanded, k) =~= Set::<int>::empty());
                }
                assert(!stack@.contains(k as usize));
            }
            assert(!stack@.contains(start));
        }
        (dirty, Ghost(expanded))
    }

    /// In a graph without cycles, a set of places in which every place has
    /// an edge to it from a place of the set is empty.
    pub proof fn no_endless_descent(&self, active: Set<int>)
        requires
            self.wf(),
            acyclic(self.edges()),
            feeds_itself(self.cells(), self.lists(), active),
        ensures
            forall|k: int| !active.contains(k),
    {
        self.lists_are_edges();
        let cells = self.cells();
        let lists = self.lists();
        let edges = self.edges();
        let n = cells.len() as int;
        assert forall|k: int| !active.contains(k) by {
            if active.contains(k) {
                let walk = descend(cells, lists, active, k, n as nat);
                assert forall|i: int| 0 <= i < walk.len() implies 0 <= #[trigger] walk[i] < n by {
                    assert(active.contains(walk[i]));
                }
                some_place_twice(walk, n);
                let (i, j) = choose|i: int, j: int| 0 <= i < j < walk.len() && walk[i] == walk[j];
                let path = Seq::new((j - i + 1) as nat, |m: int| cells[walk[j - m]]);
                assert forall|m: int| 0 <= m < path.len() - 1 implies #[trigger] hop(
                    edges,
                    path,
                    m,
                ) by {
                    assert(fed(cells, lists, walk, j - m - 1));
                    assert(active.contains(walk[j - m]));
                    assert(lists[walk[j - m]].contains(cells[walk[j - m - 1]]));
                }
                assert(leads(edges, path, cells[walk[j]], cells[walk[j]]));
                assert(connected(edges, cells[walk[j]], cells[walk[j]]));
            }
        }
    }

    /// Whether `order` lists what a change of the cell at place `start`
    /// reaches, each place once, `start` first, and every place after the
    /// places of the change with an edge to it.
    pub open spec fn sorted_from(&self, start: int, members: Set<int>, order: Seq<usize>) -> bool {
        &&& order.no_duplicates()
        &&& order.len() > 0
        &&& order[0] == start
        &&& forall|i: int| 0 <= i < order.len() ==> members.contains(#[trigger] order[i] as int)
        &&& forall|k: int| #[trigger]
            members.contains(k) ==> 0 <= k < self.cells().len() && listed(
                order,
                k,
                order.len() as int,
            )
        &&& forall|i: int, p: int|
            #![trigger order[i], members.contains(p)]
            0 <= i < order.len() && members.contains(p) && self.lists()[p].contains(
                self.cells()[order[i] as int],
            ) ==> listed(order, p, i)
    }

    /// The places that a change of the cell at place `start` reaches, in an
    /// order in which the cells can be evaluated again: `start` first, and
    /// every place after the places of the change with an edge to it.
    pub fn order_from(&self, start: usize) -> (out: (Vec<usize>, Ghost<Set<int>>, Ghost<Seq<usize>>))
        requires
            self.wf(),
            acyclic(self.edges()),
            start < self.cells().len(),
        ensures
            self.sorted_from(start as int, out.1@, out.0@),
            self.spread_from(start as int, out.1@, out.2@),
    {
        proof {
            self.lists_are_edges();
        }
        let n = self.nodes.len();
        let (counted, members) = self.count_feeders(start);
        let ghost first_counts = counted@;
        let mut dirty = counted;
        let mut stack: Vec<usize> = Vec::new();
        stack.push(start);
        let mut order: Vec<usize> = Vec::new();
        let ghost cells = self.cells();
        let ghost lists = self.lists();
        let ghost mut done: Set<int> = Set::empty();
        proof {
            assert(stack@[0] == start);
            assert(members@.difference(done) =~= members@);
            assert forall|k: int|
                members@.contains(k) && !done.contains(k) && #[trigger] dirty@[k]
                    == 0 implies stack@.contains(k as usize) by {
                assert(k == start);
            }
        }
        while stack.len() > 0
            invariant
                self.wf(),
                acyclic(self.edges()),
                cells == self.cells(),
                lists == self.lists(),
                n == cells.len(),
                n == lists.len(),
                dirty@.len() == n,
                start < n,
                members@.contains(start as int),
                forall|p: int| members@.contains(p) ==> 0 <= p < n,
                forall|p: int, k: int|
                    #![trigger members@.contains(p), lists[p].contains(cells[k])]
                    members@.contains(p) && 0 <= k < n && lists[p].contains(cells[k])
                        ==> members@.contains(k),
                forall|p: int| done.contains(p) ==> members@.contains(p) && dirty@[p] == 0,
                self.spread_from(start as int, members@, first_counts),
                forall|i: int| 0 <= i < order@.len() ==> done.contains(#[trigger] order@[i] as int),
                forall|p: int| #[trigger] done.contains(p) ==> listed(order@, p, order@.len() as int),
                order@.no_duplicates(),
                order@.len() == 0 ==> stack@.len() == 1 && stack@[0] == start,
                order@.len() > 0 ==> order@[0] == start,
                forall|i: int, p: int|
                    #![trigger order@[i], members@.contains(p)]
                    0 <= i < order@.len() && members@.contains(p) && lists[p].contains(
                        cells[order@[i] as int],
                    ) ==> listed(order@, p, i),
                stack@.no_duplicates(),
                forall|i: int|
                    0 <= i < stack@.len() ==> (#[trigger] stack@[i]) < n && members@.contains(
                        stack@[i] as int,
                    ) && !done.contains(stack@[i] as int) && dirty@[stack@[i] as int] == 0,
                forall|k: int|
                    members@.contains(k) && !done.contains(k) && #[trigger] dirty@[k] == 0
                        ==> stack@.contains(k as usize),
                forall|k: int|
                    0 <= k < n ==> dirty@[k] == (#[trigger] feeders(
                        cells,
                        lists,
                        members@.difference(done),
                        k,
                    )).len(),
            decreases total(dirty@), stack@.len(),
        {
            proof {
                self.lists_are_edges();
            }
            let ghost waiting = stack@;
            let top = stack.pop().unwrap();
            let ghost grown = done.insert(top as int);
            let ghost active = members@.difference(done);
            let ghost others = members@.difference(grown);
            let ghost before = order@;
            order.push(top);
            proof {
                assert(waiting == stack@.push(top));
                assert(top == waiting[waiting.len() - 1]);
                assert(!stack@.contains(top)) by {
                    if stack@.contains(top) {
                        let i = choose|i: int| 0 <= i < stack@.len() && stack@[i] == top;
                        assert(waiting[i] == waiting[waiting.len() - 1]);
                    }
                }
                assert forall|a: int, b: int|
                    0 <= a < stack@.len() && 0 <= b < stack@.len() && a != b implies stack@[a]
                    != stack@[b] by {
                    assert(waiting[a] == stack@[a] && waiting[b] == stack@[b]);
                }
                assert forall|i: int| 0 <= i < stack@.len() implies (#[trigger] stack@[i]) < n
                    && members@.contains(stack@[i] as int) && !grown.contains(stack@[i] as int)
                    && dirty@[stack@[i] as int] == 0 by {
                    assert(waiting[i] == stack@[i]);
                    assert(stack@.contains(stack@[i]));
                }
                assert forall|k: int|
                    members@.contains(k) && !grown.contains(k) && #[trigger] dirty@[k]
                        == 0 implies stack@.contains(k as usize) by {
                    let i = choose|i: int| 0 <= i < waiting.len() && waiting[i] == k as usize;
                    assert(stack@[i] == k as usize);
                }
                assert(!before.contains(top)) by {
                    if before.contains(top) {
                        let i = choose|i: int| 0 <= i < before.len() && before[i] == top;
                        assert(done.contains(before[i] as int));
                    }
                }
                assert(order@.no_duplicates()) by {
                    assert forall|a: int, b: int|
                        0 <= a < order@.len() && 0 <= b < order@.len() && a != b implies order@[a]
                        != order@[b] by {
                        if a < before.len() && b < before.len() {
                            assert(before[a] != before[b]);
                        } else if a < before.len() {
                            assert(before.contains(before[a]));
                        } else if b < before.len() {
                            assert(before.contains(before[b]));
                        }
                    }
                }
                assert forall|i: int| 0 <= i < order@.len() implies grown.contains(
                    #[trigger] order@[i] as int,
                ) by {
                    if i < before.len() {
                        assert(before[i] == order@[i]);
                    }
                }
                assert forall|p: int| #[trigger] grown.contains(p) implies listed(
                    order@,
                    p,
                    order@.len() as int,
                ) by {
                    if p == top {
                        assert(order@[before.len() as int] == p);
                    } else {
                        assert(done.contains(p));
                        let i = choose|i: int| 0 <= i < before.len() && #[trigger] before[i] == p;
                        assert(order@[i] == p);
                    }
                }
                assert forall|i: int, p: int|
                    #![trigger order@[i], members@.contains(p)]
                    0 <= i < order@.len() && members@.contains(p) && lists[p].contains(
                        cells[order@[i] as int],
                    ) implies listed(order@, p, i) by {
                    if i < before.len() {
                        assert(before[i] == order@[i]);
                        assert(listed(before, p, i));
                        let j = choose|j: int| 0 <= j < i && #[trigger] before[j] == p;
                        assert(order@[j] == p);
                    } else {
                        let sources = feeders(cells, lists, active, top as int);
                        assert forall|q: int| sources.contains(q) implies 0 <= q < n by {}
                        places_are_few(sources, n as int);
                        assert(sources.len() == 0);
                        sources.lemma_len0_is_empty();
                        if !done.contains(p) {
                            assert(sources.contains(p));
                        }
                        assert(listed(before, p, before.len() as int));
                        let j = choose|j: int| 0 <= j < before.len() && #[trigger] before[j] == p;
                        assert(order@[j] == p);
                    }
                }
                assert forall|k: int| 0 <= k < n implies dirty@[k] == (#[trigger] feeders_with(
                    cells,
                    lists,
                    others,
                    top as int,
                    lists[top as int].skip(0),
                    k,
                )).len() by {
                    assert(lists[top as int].skip(0) =~= lists[top as int]);
                    assert(feeders_with(
                        cells,
                        lists,
                        others,
                        top as int,
                        lists[top as int].skip(0),
                        k,
                    ) =~= feeders(cells, lists, active, k));
                }
            }
            let list = self.dependents_at(top);
            let ghost counts = dirty@;
            let mut j: usize = 0;
            while j < list.len()
                invariant
                    self.wf(),
                    cells == self.cells(),
                    lists == self.lists(),
                    n == cells.len(),
                    n == lists.len(),
                    dirty@.len() == n,
                    top < n,
                    members@.contains(top as int),
                    !done.contains(top as int),
                    grown == done.insert(top as int),
                    others == members@.difference(grown),
                    dirty@[top as int] == 0,
                    !stack@.contains(top),
                    list@ == lists[top as int],
                    list@.no_duplicates(),
                    j <= list@.len(),
                    forall|p: int| members@.contains(p) ==> 0 <= p < n,
                    forall|p: int, k: int|
                        #![trigger members@.contains(p), lists[p].contains(cells[k])]
                        members@.contains(p) && 0 <= k < n && lists[p].contains(cells[k])
                            ==> members@.contains(k),
                    forall|p: int| done.contains(p) ==> members@.contains(p) && dirty@[p] == 0,
                    stack@.no_duplicates(),
                    stack@.len() >= waiting.len() - 1,
                    total(dirty@) + (stack@.len() - (waiting.len() - 1)) <= total(counts),
                    stack@.len() > waiting.len() - 1 ==> total(dirty@) < total(counts),
                    forall|i: int|
                        0 <= i < stack@.len() ==> (#[trigger] stack@[i]) < n && members@.contains(
                            stack@[i] as int,
                        ) && !grown.contains(stack@[i] as int) && dirty@[stack@[i] as int] == 0,
                    forall|k: int|
                        members@.contains(k) && !grown.contains(k) && #[trigger] dirty@[k] == 0
                            ==> stack@.contains(k as usize),
                    forall|k: int|
                        0 <= k < n ==> dirty@[k] == (#[trigger] feeders_with(
                            cells,
                            lists,
                            others,
                            top as int,
                            list@.skip(j as int),
                            k,
                        )).len(),
                decreases list@.len() - j,
            {
                proof {
                    self.lists_are_edges();
                }
                let x = list[j];
                assert(lists[top as int].contains(x));
                assert(self.edges().contains((cells[top as int], x)));
                let at = self.place(x).unwrap();
                let ghost sources = feeders_with(
                    cells,
                    lists,
                    others,
                    top as int,
                    list@.skip(j as int),
                    at as int,
                );
                let ghost fewer = feeders_with(
                    cells,
                    lists,
                    others,
                    top as int,
                    list@.skip(j + 1),
                    at as int,
                );
                let ghost here = list@.skip(j as int);
                let ghost rest = list@.skip(j + 1);
                proof {
                    assert(here[0] == x);
                    assert(sources.contains(top as int));
                    assert forall|p: int| sources.contains(p) implies 0 <= p < n by {}
                    places_are_few(sources, n as int);
                    if sources.len() == 0 {
                        sources.lemma_len0_is_empty();
                    }
                    assert(!rest.contains(x)) by {
                        if rest.contains(x) {
                            let i = choose|i: int| 0 <= i < rest.len() && rest[i] == x;
                            assert(list@[j + 1 + i] == list@[j as int]);
                        }
                    }
                    assert(fewer =~= sources.remove(top as int));
                    assert(members@.contains(at as int));
                }
                let count = dirty[at];
                assert(count > 0);
                proof {
                    lowering_counts(dirty@, at as int);
                    assert(at != top);
                    assert(!done.contains(at as int));
                }
                dirty.set(at, count - 1);
                let ghost held = stack@;
                if count == 1 {
                    stack.push(at);
                }
                proof {
                    assert(!held.contains(at)) by {
                        if held.contains(at) {
                            let i = choose|i: int| 0 <= i < held.len() && held[i] == at;
                            assert(held[i] < n);
                        }
                    }
                    if count == 1 {
                        assert forall|a: int, b: int|
                            0 <= a < stack@.len() && 0 <= b < stack@.len() && a
                                != b implies stack@[a] != stack@[b] by {
                            if a < held.len() && b < held.len() {
                                assert(held[a] != held[b]);
                            } else if a < held.len() {
                                assert(held.contains(held[a]));
                            } else if b < held.len() {
                                assert(held.contains(held[b]));
                            }
                        }
                        assert(!stack@.contains(top)) by {
                            if stack@.contains(top) {
                                let i = choose|i: int| 0 <= i < stack@.len() && stack@[i] == top;
                                if i < held.len() {
                                    assert(held[i] == top);
                                    assert(held.contains(top));
                                }
                            }
                        }
                    }
                    assert forall|i: int| 0 <= i < stack@.len() implies (#[trigger] stack@[i]) < n
                        && members@.contains(stack@[i] as int) && !grown.contains(
                        stack@[i] as int,
                    ) && dirty@[stack@[i] as int] == 0 by {
                        if i < held.len() {
                            assert(held[i] == stack@[i]);
                            assert(held.contains(held[i]));
                        }
                    }
                    assert forall|k: int|
                        members@.contains(k) && !grown.contains(k) && #[trigger] dirty@[k]
                            == 0 implies stack@.contains(k as usize) by {
                        if k == at {
                            assert(stack@[stack@.len() - 1] == at);
                        } else {
                            let i = choose|i: int| 0 <= i < held.len() && held[i] == k as usize;
                            assert(stack@[i] == k as usize);
                        }
                    }
                    assert forall|k: int| 0 <= k < n implies dirty@[k] == (#[trigger] feeders_with(
                        cells,
                        lists,
                        others,
                        top as int,
                        list@.skip(j + 1),
                        k,
                    )).len() by {
                        if k != at {
                            assert(cells[k] != x) by {
                                self.cells_differ(k, at as int);
                            }
                            assert(rest.contains(cells[k]) <==> here.contains(cells[k])) by {
                                if rest.contains(cells[k]) {
                                    let i = choose|i: int| 0 <= i < rest.len() && rest[i] == cells[k];
                                    assert(here[i + 1] == cells[k]);
                                }
                                if here.contains(cells[k]) {
                                    let i = choose|i: int| 0 <= i < here.len() && here[i] == cells[k];
                                    assert(i > 0);
                                    assert(rest[i - 1] == cells[k]);
                                }
                            }
                            assert(feeders_with(
                                cells,
                                lists,
                                others,
                                top as int,
                                list@.skip(j + 1),
                                k,
                            ) =~= feeders_with(
                                cells,
                                lists,
                                others,
                                top as int,
                                list@.skip(j as int),
                                k,
                            ));
                        }
                    }
                }
                j += 1;
            }
            proof {
                assert(list@.skip(j as int) =~= Seq::<AbsCell>::empty());
                assert forall|k: int| 0 <= k < n implies dirty@[k] == (#[trigger] feeders(
                    cells,
                    lists,
                    members@.difference(grown),
                    k,
                )).len() by {
                    assert(feeders(cells, lists, others, k) =~= feeders_with(
                        cells,
                        lists,
                        others,
                        top as int,
                        list@.skip(j as int),
                        k,
                    ));
                }
                done = grown;
            }
        }
        proof {
            let active = members@.difference(done);
            assert forall|k: int| #[trigger] active.contains(k) implies 0 <= k < cells.len()
                && feeders(cells, lists, active, k).len() > 0 by {
                if dirty@[k] == 0 {
                    assert(stack@.contains(k as usize));
                }
            }
            self.no_endless_descent(active);
            assert forall|k: int| #[trigger] members@.contains(k) implies 0 <= k < self.cells().len()
                && listed(order@, k, order@.len() as int) by {
                assert(!active.contains(k));
                assert(done.contains(k));
            }
            assert forall|i: int| 0 <= i < order@.len() implies members@.contains(
                #[trigger] order@[i] as int,
            ) by {
                assert(done.contains(order@[i] as int));
            }
        }
        (order, members, Ghost(first_counts))
    }
}

} // verus!
