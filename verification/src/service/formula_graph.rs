//! The dependency graph: which cell reads which range, and which cells an
//! edit reaches.
//!
//! The graph is a list of edges, each from a cell to a range that the cell's
//! formula reads, without repetition. Two views of the list answer the two
//! questions of an edit: the ranges that a cell reads are the edges that
//! leave it, and the cells that read a range are the edges that end in it.
//! A spatial index holds the same edges by their rectangles and finds the
//! ones whose range covers a position.
use crate::models::cell::Cell;
use crate::models::cell::CellLocation;
use crate::models::cell::CellRange;
use crate::service::spatial::index_insert;
use crate::service::spatial::index_locate;
use crate::service::spatial::index_new;
use crate::service::spatial::index_remove;
use crate::service::spatial::EdgeIndex;
use crate::service::spatial::WINDOW;
use vstd::multiset::Multiset;
use vstd::prelude::*;

verus! {

/// One read-dependency: `cell` reads `range`.
#[derive(Debug, Clone, Copy, PartialEq, Eq, Structural)]
pub struct Edge {
    pub cell: CellLocation,
    pub range: CellRange,
}

/// The cells to recompute after an edit.
///
/// `inserted_cells` is a stack: the edited cell lies at its end, and a cell
/// lies nearer to the end than the cells that were found through it, so
/// that popping yields a cell before the cells that read it.
/// `circular_cells` holds the cells that were found on a circular chain;
/// none of them is in `inserted_cells`.
#[derive(Debug, PartialEq)]
pub struct InsertResult {
    pub inserted_cells: Vec<CellLocation>,
    pub circular_cells: Vec<CellLocation>,
}

/// The dependency graph of a grid.
pub struct FormulaGraph {
    rt: EdgeIndex,
    edges: Vec<Edge>,
}

/// The part of `range` inside the window of the spatial index, as a
/// rectangle with both corners included; `None` where no position of the
/// window lies in `range`.
pub open spec fn window_rect(range: CellRange) -> Option<(i32, i32, i32, i32)> {
    let low_row = if range.start_row < 0 {
        0
    } else {
        range.start_row as int
    };
    let low_col = if range.start_col < 0 {
        0
    } else {
        range.start_col as int
    };
    let high_row = if range.stop_row > WINDOW {
        WINDOW - 1
    } else {
        range.stop_row - 1
    };
    let high_col = if range.stop_col > WINDOW {
        WINDOW - 1
    } else {
        range.stop_col - 1
    };
    if low_row <= high_row && low_col <= high_col {
        Some((low_row as i32, low_col as i32, high_row as i32, high_col as i32))
    } else {
        None
    }
}

/// The entry of the spatial index that stands for `edge`, if any position of
/// the window lies in its range.
pub open spec fn entry_of(edge: Edge) -> Option<(i32, i32, i32, i32, i32, i32)> {
    match window_rect(edge.range) {
        Some(rect) => Some((edge.cell.row, edge.cell.col, rect.0, rect.1, rect.2, rect.3)),
        None => None,
    }
}

/// The cell of an entry of the spatial index.
pub open spec fn entry_cell(entry: (i32, i32, i32, i32, i32, i32)) -> CellLocation {
    CellLocation { row: entry.0, col: entry.1 }
}

/// The entries that the spatial index holds for `edges`.
pub open spec fn index_model(edges: Seq<Edge>) -> Multiset<(i32, i32, i32, i32, i32, i32)>
    decreases edges.len(),
{
    if edges.len() == 0 {
        Multiset::empty()
    } else {
        match entry_of(edges.last()) {
            Some(entry) => index_model(edges.drop_last()).insert(entry),
            None => index_model(edges.drop_last()),
        }
    }
}

/// `edges` without the edges that leave `loc`.
pub open spec fn without_cell(edges: Seq<Edge>, loc: CellLocation) -> Seq<Edge>
    decreases edges.len(),
{
    if edges.len() == 0 {
        Seq::empty()
    } else if edges.last().cell == loc {
        without_cell(edges.drop_last(), loc)
    } else {
        without_cell(edges.drop_last(), loc).push(edges.last())
    }
}

/// `edges` followed by an edge from `loc` to each range of `ranges` that is
/// not yet there.
pub open spec fn with_ranges(edges: Seq<Edge>, loc: CellLocation, ranges: Seq<CellRange>) -> Seq<
    Edge,
>
    decreases ranges.len(),
{
    if ranges.len() == 0 {
        edges
    } else {
        let before = with_ranges(edges, loc, ranges.drop_last());
        let edge = Edge { cell: loc, range: ranges.last() };
        if before.contains(edge) {
            before
        } else {
            before.push(edge)
        }
    }
}

/// Whether `cell` reads a range that covers `loc`.
pub open spec fn reads(edges: Seq<Edge>, cell: CellLocation, loc: CellLocation) -> bool {
    exists|i: int|
        0 <= i < edges.len() && (#[trigger] edges[i]).cell == cell && edges[i].range.contains(
            loc.row as int,
            loc.col as int,
        )
}

/// The cells that read a range over `loc`, each once, in the order of the
/// first edge by which they do.
pub open spec fn dependents_of(edges: Seq<Edge>, loc: CellLocation) -> Seq<CellLocation>
    decreases edges.len(),
{
    if edges.len() == 0 {
        Seq::empty()
    } else {
        let before = dependents_of(edges.drop_last(), loc);
        if edges.last().range.contains(loc.row as int, loc.col as int) && !before.contains(
            edges.last().cell,
        ) {
            before.push(edges.last().cell)
        } else {
            before
        }
    }
}

/// `circular` followed by the cells of `path` that are not yet in it.
pub open spec fn add_all(circular: Seq<CellLocation>, path: Seq<CellLocation>) -> Seq<
    CellLocation,
>
    decreases path.len(),
{
    if path.len() == 0 {
        circular
    } else {
        let before = add_all(circular, path.drop_last());
        if before.contains(path.last()) {
            before
        } else {
            before.push(path.last())
        }
    }
}

/// `stack` without the cells of `circular`.
pub open spec fn without_all(stack: Seq<CellLocation>, circular: Seq<CellLocation>) -> Seq<
    CellLocation,
>
    decreases stack.len(),
{
    if stack.len() == 0 {
        Seq::empty()
    } else if circular.contains(stack.last()) {
        without_all(stack.drop_last(), circular)
    } else {
        without_all(stack.drop_last(), circular).push(stack.last())
    }
}

/// What a traversal has found so far: the cells in the order in which they
/// were left, and the cells on circular chains.
pub struct Walk {
    pub stack: Seq<CellLocation>,
    pub circular: Seq<CellLocation>,
}

/// How much longer a path may grow: a path of distinct cells that read
/// something is no longer than the list of edges, the edited cell aside.
pub open spec fn depth_left(edges: Seq<Edge>, path: Seq<CellLocation>) -> int {
    edges.len() + 1 - path.len()
}

/// The traversal from the cell `d`, reached along `path`.
///
/// A cell that is known to be circular is passed over. A cell that is on
/// the path closes a circle: every cell of the path becomes circular. So
/// does a cell met at the end of a path that is longer than the list of
/// edges, with all of that path: such a path must hold a cell twice. Any
/// other cell is put on the path, the cells that read it are visited, and
/// after them the cell is pushed on the stack.
pub open spec fn visit(edges: Seq<Edge>, d: CellLocation, walk: Walk, path: Seq<CellLocation>)
    -> Walk
    decreases depth_left(edges, path), 0int,
{
    if walk.circular.contains(d) {
        walk
    } else if path.contains(d) || path.len() > edges.len() {
        Walk { stack: walk.stack, circular: add_all(walk.circular, path.push(d)) }
    } else {
        let after = visit_all(edges, dependents_of(edges, d), walk, path.push(d));
        Walk { stack: after.stack.push(d), circular: after.circular }
    }
}

/// The traversal from each cell of `deps` in turn.
pub open spec fn visit_all(
    edges: Seq<Edge>,
    deps: Seq<CellLocation>,
    walk: Walk,
    path: Seq<CellLocation>,
) -> Walk
    decreases depth_left(edges, path), deps.len() + 1,
{
    if deps.len() == 0 {
        walk
    } else {
        visit(edges, deps.last(), visit_all(edges, deps.drop_last(), walk, path), path)
    }
}

/// The cells to recompute after an edit of `loc`, given the cells `seeds`
/// that read a range over `loc`: the stack of the traversal from the seeds
/// without the circular cells, then `loc` itself unless it is circular; and
/// the circular cells.
pub open spec fn schedule(edges: Seq<Edge>, seeds: Seq<CellLocation>, loc: CellLocation) -> (
    Seq<CellLocation>,
    Seq<CellLocation>,
) {
    let walk = visit_all(
        edges,
        seeds,
        Walk { stack: Seq::empty(), circular: Seq::empty() },
        seq![loc],
    );
    let order = without_all(walk.stack, walk.circular);
    if walk.circular.contains(loc) {
        (order, walk.circular)
    } else {
        (order.push(loc), walk.circular)
    }
}

/// The entries of the edges from the first on.
proof fn lemma_model_front(edges: Seq<Edge>)
    requires
        edges.len() > 0,
    ensures
        index_model(edges) == match entry_of(edges[0]) {
            Some(entry) => index_model(edges.drop_first()).insert(entry),
            None => index_model(edges.drop_first()),
        },
    decreases edges.len(),
{
    if edges.len() == 1 {
        assert(edges.drop_last() =~= Seq::<Edge>::empty());
        assert(edges.drop_first() =~= Seq::<Edge>::empty());
        assert(index_model(edges.drop_last()) =~= Multiset::empty());
    } else {
        lemma_model_front(edges.drop_last());
        assert(edges.drop_last().drop_first() =~= edges.drop_first().drop_last());
        assert(edges.drop_first().last() == edges.last());
        assert(edges.drop_last()[0] == edges[0]);
        let inner = index_model(edges.drop_first().drop_last());
        match (entry_of(edges[0]), entry_of(edges.last())) {
            (Some(a), Some(b)) => {
                assert(inner.insert(a).insert(b) =~= inner.insert(b).insert(a));
            },
            _ => {},
        }
    }
}

/// An entry is in the model exactly if it stands for one of the edges.
proof fn lemma_model_member(edges: Seq<Edge>, entry: (i32, i32, i32, i32, i32, i32))
    ensures
        index_model(edges).count(entry) > 0 <==> exists|i: int|
            0 <= i < edges.len() && entry_of(#[trigger] edges[i]) == Some(entry),
    decreases edges.len(),
{
    if edges.len() > 0 {
        lemma_model_member(edges.drop_last(), entry);
        let rest = edges.drop_last();
        if index_model(edges).count(entry) > 0 {
            if entry_of(edges.last()) == Some(entry) {
                assert(entry_of(edges[edges.len() - 1]) == Some(entry));
            } else {
                assert(index_model(rest).count(entry) > 0);
                let i = choose|i: int| 0 <= i < rest.len() && entry_of(#[trigger] rest[i]) == Some(entry);
                assert(edges[i] == rest[i]);
            }
        }
        if exists|i: int| 0 <= i < edges.len() && entry_of(#[trigger] edges[i]) == Some(entry) {
            let i = choose|i: int| 0 <= i < edges.len() && entry_of(#[trigger] edges[i]) == Some(entry);
            if i < edges.len() - 1 {
                assert(rest[i] == edges[i]);
            }
        }
    }
}

/// What `without_cell` keeps.
proof fn lemma_without_cell(edges: Seq<Edge>, loc: CellLocation)
    ensures
        forall|e: Edge| #[trigger]
            without_cell(edges, loc).contains(e) <==> edges.contains(e) && e.cell != loc,
        edges.no_duplicates() ==> without_cell(edges, loc).no_duplicates(),
    decreases edges.len(),
{
    if edges.len() > 0 {
        let rest = edges.drop_last();
        lemma_without_cell(rest, loc);
        let kept = without_cell(rest, loc);
        assert forall|e: Edge| #[trigger]
            without_cell(edges, loc).contains(e) <==> edges.contains(e) && e.cell != loc by {
            if edges.contains(e) {
                let i = choose|i: int| 0 <= i < edges.len() && edges[i] == e;
                if i < edges.len() - 1 {
                    assert(rest[i] == e);
                }
            }
            if rest.contains(e) {
                let i = choose|i: int| 0 <= i < rest.len() && rest[i] == e;
                assert(edges[i] == e);
            }
            if edges.last().cell != loc {
                assert(kept.push(edges.last())[kept.len() as int] == edges.last());
                if kept.contains(e) {
                    let i = choose|i: int| 0 <= i < kept.len() && kept[i] == e;
                    assert(kept.push(edges.last())[i] == e);
                }
                assert(edges[edges.len() - 1] == edges.last());
            }
        }
        if edges.no_duplicates() {
            assert(rest.no_duplicates());
            if edges.last().cell != loc {
                if kept.contains(edges.last()) {
                    assert(rest.contains(edges.last()));
                    let i = choose|i: int| 0 <= i < rest.len() && rest[i] == edges.last();
                    assert(edges[i] == edges[edges.len() - 1]);
                }
            }
        }
    }
}

/// What `with_ranges` adds.
proof fn lemma_with_ranges(edges: Seq<Edge>, loc: CellLocation, ranges: Seq<CellRange>)
    ensures
        forall|e: Edge| #[trigger]
            with_ranges(edges, loc, ranges).contains(e) <==> edges.contains(e) || (e.cell == loc
                && ranges.contains(e.range)),
        edges.no_duplicates() ==> with_ranges(edges, loc, ranges).no_duplicates(),
    decreases ranges.len(),
{
    if ranges.len() > 0 {
        let fewer = ranges.drop_last();
        lemma_with_ranges(edges, loc, fewer);
        let before = with_ranges(edges, loc, fewer);
        let edge = Edge { cell: loc, range: ranges.last() };
        assert forall|e: Edge| #[trigger]
            with_ranges(edges, loc, ranges).contains(e) <==> edges.contains(e) || (e.cell == loc
                && ranges.contains(e.range)) by {
            if ranges.contains(e.range) {
                let i = choose|i: int| 0 <= i < ranges.len() && ranges[i] == e.range;
                if i < ranges.len() - 1 {
                    assert(fewer[i] == e.range);
                }
            }
            if fewer.contains(e.range) {
                let i = choose|i: int| 0 <= i < fewer.len() && fewer[i] == e.range;
                assert(ranges[i] == e.range);
            }
            assert(ranges[ranges.len() - 1] == ranges.last());
            if !before.contains(edge) {
                assert(before.push(edge)[before.len() as int] == edge);
                if before.contains(e) {
                    let i = choose|i: int| 0 <= i < before.len() && before[i] == e;
                    assert(before.push(edge)[i] == e);
                }
            }
        }
    }
}

/// After an edit of `loc` with the ranges `ranges`, the edges that leave
/// `loc` are those to `ranges` and no others, and the edges that leave any
/// other cell are what they were: no edge of the earlier formula is left.
pub proof fn lemma_edges_replaced(edges: Seq<Edge>, loc: CellLocation, ranges: Seq<CellRange>)
    ensures
        forall|r: CellRange| #[trigger]
            with_ranges(without_cell(edges, loc), loc, ranges).contains(
                Edge { cell: loc, range: r },
            ) <==> ranges.contains(r),
        forall|e: Edge|
            e.cell != loc ==> (#[trigger] with_ranges(without_cell(edges, loc), loc, ranges).contains(
                e,
            ) <==> edges.contains(e)),
        edges.no_duplicates() ==> with_ranges(
            without_cell(edges, loc),
            loc,
            ranges,
        ).no_duplicates(),
{
    lemma_without_cell(edges, loc);
    lemma_with_ranges(without_cell(edges, loc), loc, ranges);
}

/// A rectangle of the window covers a position exactly if the range does.
proof fn lemma_window_covers(range: CellRange, row: i32, col: i32)
    requires
        0 <= row < WINDOW,
        0 <= col < WINDOW,
    ensures
        range.contains(row as int, col as int) <==> (window_rect(range) matches Some(rect)
            && rect.0 <= row <= rect.2 && rect.1 <= col <= rect.3),
{
}

impl FormulaGraph {
    /// The edges of the graph.
    pub closed spec fn edges(&self) -> Seq<Edge> {
        self.edges@
    }

    /// Whether the graph is consistent: no edge occurs twice, and the
    /// spatial index holds the edges of the list and nothing else.
    pub closed spec fn wf(&self) -> bool {
        &&& self.edges@.no_duplicates()
        &&& crate::service::spatial::index_entries(self.rt) == index_model(self.edges@)
    }

    /// A graph without edges.
    pub fn new() -> (g: FormulaGraph)
        ensures
            g.wf(),
            g.edges() == Seq::<Edge>::empty(),
    {
        FormulaGraph { rt: index_new(), edges: Vec::new() }
    }

    /// Records an edit of `cell`, whose formula reads `dependencies`, and
    /// says which cells to recompute.
    ///
    /// The edges that left the cell before are taken out, and an edge to
    /// each range of `dependencies` is put in. The cells that read a range
    /// over the edited cell are the seeds of a depth-first traversal that
    /// goes on from each cell to the cells that read a range over it; the
    /// result is its [`schedule`]. The seeds are taken in the order in which
    /// the spatial index yields them, each once.
    pub fn insert_cell(&mut self, cell: Cell, dependencies: Vec<CellRange>) -> (res: InsertResult)
        requires
            old(self).wf(),
        ensures
            final(self).wf(),
            final(self).edges() == with_ranges(
                without_cell(old(self).edges(), cell.spec_loc()),
                cell.spec_loc(),
                dependencies@,
            ),
            exists|seeds: Seq<CellLocation>| #[trigger]
                seeds_of(final(self).edges(), seeds, cell.spec_loc()) && (
                    res.inserted_cells@,
                    res.circular_cells@,
                ) == schedule(final(self).edges(), seeds, cell.spec_loc()),
    {
        let loc = cell.loc();
        self.retract(loc);
        self.declare(loc, &dependencies);
        let seeds = self.readers(loc);
        let res = self.cells_to_eval(loc, &seeds);
        assert(seeds_of(self.edges@, seeds@, loc));
        res
    }

    /// Takes out the edges that leave `loc`.
    fn retract(&mut self, loc: CellLocation)
        requires
            old(self).wf(),
        ensures
            final(self).wf(),
            final(self).edges() == without_cell(old(self).edges(), loc),
    {
        let ghost all = self.edges@;
        let mut kept: Vec<Edge> = Vec::new();
        let mut i: usize = 0;
        proof {
            assert(all.skip(0) =~= all);
            assert(index_model(kept@).add(index_model(all)) =~= index_model(all));
            assert(all.take(0) =~= Seq::<Edge>::empty());
        }
        while i < self.edges.len()
            invariant
                i <= self.edges.len(),
                self.edges@ == all,
                kept@ == without_cell(all.take(i as int), loc),
                crate::service::spatial::index_entries(self.rt) == index_model(kept@).add(
                    index_model(all.skip(i as int)),
                ),
            decreases self.edges.len() - i,
        {
            let edge: Edge = self.edges[i];
            proof {
                lemma_model_front(all.skip(i as int));
                assert(all.skip(i as int).drop_first() =~= all.skip(i + 1));
                assert(all.skip(i as int)[0] == edge);
                assert(all.take(i + 1).drop_last() =~= all.take(i as int));
                assert(all.take(i + 1).last() == edge);
            }
            let ghost rest = index_model(all.skip(i + 1));
            let ghost held = index_model(kept@);
            if edge.cell == loc {
                match entry_for(edge) {
                    Some(entry) => {
                        index_remove(&mut self.rt, entry);
                        assert(held.add(rest.insert(entry)).remove(entry) =~= held.add(rest));
                    },
                    None => {},
                }
            } else {
                kept.push(edge);
                proof {
                    assert(kept@.drop_last() =~= without_cell(all.take(i as int), loc));
                    match entry_of(edge) {
                        Some(entry) => {
                            assert(held.add(rest.insert(entry)) =~= held.insert(entry).add(rest));
                        },
                        None => {},
                    }
                }
            }
            i = i + 1;
        }
        proof {
            assert(all.take(all.len() as int) =~= all);
            assert(all.skip(all.len() as int) =~= Seq::<Edge>::empty());
            assert(index_model(kept@).add(Multiset::empty()) =~= index_model(kept@));
            lemma_without_cell(all, loc);
        }
        self.edges = kept;
    }

    /// Whether the graph holds `edge`.
    fn has_edge(&self, edge: Edge) -> (b: bool)
        ensures
            b == self.edges@.contains(edge),
    {
        let mut i: usize = 0;
        while i < self.edges.len()
            invariant
                i <= self.edges.len(),
                forall|k: int| 0 <= k < i ==> self.edges@[k] != edge,
            decreases self.edges.len() - i,
        {
            if self.edges[i] == edge {
                return true;
            }
            i = i + 1;
        }
        false
    }

    /// Puts in an edge from `loc` to each range of `ranges` that is not yet
    /// there.
    fn declare(&mut self, loc: CellLocation, ranges: &Vec<CellRange>)
        requires
            old(self).wf(),
        ensures
            final(self).wf(),
            final(self).edges() == with_ranges(old(self).edges(), loc, ranges@),
    {
        let mut i: usize = 0;
        assert(ranges@.take(0) =~= Seq::<CellRange>::empty());
        while i < ranges.len()
            invariant
                i <= ranges.len(),
                self.wf(),
                self.edges@ == with_ranges(old(self).edges@, loc, ranges@.take(i as int)),
            decreases ranges.len() - i,
        {
            let edge = Edge { cell: loc, range: ranges[i] };
            proof {
                assert(ranges@.take(i + 1).drop_last() =~= ranges@.take(i as int));
                assert(ranges@.take(i + 1).last() == ranges@[i as int]);
            }
            if !self.has_edge(edge) {
                let ghost before = self.edges@;
                self.edges.push(edge);
                assert(self.edges@.drop_last() =~= before);
                match entry_for(edge) {
                    Some(entry) => {
                        index_insert(&mut self.rt, entry);
                    },
                    None => {},
                }
                assert(self.edges@.no_duplicates()) by {
                    assert forall|a: int, b: int|
                        0 <= a < self.edges@.len() && 0 <= b < self.edges@.len() && a
                            != b implies self.edges@[a] != self.edges@[b] by {
                        if a < before.len() && b < before.len() {
                            assert(before[a] != before[b]);
                        } else if a < before.len() {
                            assert(before[a] != edge);
                        } else {
                            assert(before[b] != edge);
                        }
                    }
                }
            }
            i = i + 1;
        }
        assert(ranges@.take(ranges.len() as int) =~= ranges@);
    }

    /// The cells that read a range over `loc`, each once.
    fn readers(&self, loc: CellLocation) -> (seeds: Vec<CellLocation>)
        requires
            self.wf(),
        ensures
            seeds@.no_duplicates(),
            forall|c: CellLocation| #[trigger] seeds@.contains(c) <==> reads(self.edges@, c, loc),
    {
        let mut seeds: Vec<CellLocation> = Vec::new();
        if 0 <= loc.row && loc.row < WINDOW && 0 <= loc.col && loc.col < WINDOW {
            let found = index_locate(&self.rt, loc.row, loc.col);
            let mut i: usize = 0;
            while i < found.len()
                invariant
                    i <= found.len(),
                    seeds@.no_duplicates(),
                    forall|c: CellLocation| #[trigger]
                        seeds@.contains(c) <==> exists|k: int|
                            0 <= k < i && entry_cell(#[trigger] found@[k]) == c,
                decreases found.len() - i,
            {
                let cell = CellLocation { row: found[i].0, col: found[i].1 };
                assert(cell == entry_cell(found@[i as int]));
                let ghost before = seeds@;
                if !has_cell(&seeds, cell) {
                    seeds.push(cell);
                    proof {
                        assert forall|c: CellLocation| #[trigger]
                            seeds@.contains(c) <==> before.contains(c) || c == cell by {
                            assert(seeds@[before.len() as int] == cell);
                            if before.contains(c) {
                                let k = choose|k: int| 0 <= k < before.len() && before[k] == c;
                                assert(seeds@[k] == c);
                            }
                        }
                    }
                }
                i = i + 1;
            }
            proof {
                broadcast use vstd::seq_lib::group_to_multiset_ensures;
                broadcast use vstd::multiset::group_multiset_axioms;

                let all = crate::service::spatial::index_entries(self.rt);
                let hit = |entry: (i32, i32, i32, i32, i32, i32)|
                    crate::service::spatial::covers(entry, loc.row, loc.col);
                assert forall|c: CellLocation| #[trigger]
                    seeds@.contains(c) <==> reads(self.edges@, c, loc) by {
                    if seeds@.contains(c) {
                        let k = choose|k: int|
                            0 <= k < found@.len() && entry_cell(#[trigger] found@[k]) == c;
                        let entry = found@[k];
                        assert(found@.contains(entry));
                        assert(found@.to_multiset().count(entry) > 0);
                        assert(all.filter(hit).count(entry) > 0);
                        assert(hit(entry) && all.count(entry) > 0);
                        lemma_model_member(self.edges@, entry);
                        let e = choose|e: int|
                            0 <= e < self.edges@.len() && entry_of(#[trigger] self.edges@[e])
                                == Some(entry);
                        lemma_window_covers(self.edges@[e].range, loc.row, loc.col);
                    }
                    if reads(self.edges@, c, loc) {
                        let e = choose|e: int|
                            0 <= e < self.edges@.len() && (#[trigger] self.edges@[e]).cell == c
                                && self.edges@[e].range.contains(loc.row as int, loc.col as int);
                        lemma_window_covers(self.edges@[e].range, loc.row, loc.col);
                        let entry = entry_of(self.edges@[e])->Some_0;
                        lemma_model_member(self.edges@, entry);
                        assert(hit(entry));
                        assert(all.filter(hit).count(entry) > 0);
                        assert(found@.to_multiset().count(entry) > 0);
                        assert(found@.contains(entry));
                        let k = choose|k: int| 0 <= k < found@.len() && found@[k] == entry;
                        assert(entry_cell(found@[k]) == c);
                    }
                }
            }
        } else {
            seeds = self.dependents(loc);
            proof {
                lemma_dependents_of(self.edges@, loc);
            }
        }
        seeds
    }

    /// The cells that read a range over `loc`, each once, found by going
    /// through the edges.
    fn dependents(&self, loc: CellLocation) -> (cells: Vec<CellLocation>)
        ensures
            cells@ == dependents_of(self.edges@, loc),
    {
        let mut cells: Vec<CellLocation> = Vec::new();
        let mut i: usize = 0;
        assert(self.edges@.take(0) =~= Seq::<Edge>::empty());
        while i < self.edges.len()
            invariant
                i <= self.edges.len(),
                cells@ == dependents_of(self.edges@.take(i as int), loc),
            decreases self.edges.len() - i,
        {
            proof {
                assert(self.edges@.take(i + 1).drop_last() =~= self.edges@.take(i as int));
                assert(self.edges@.take(i + 1).last() == self.edges@[i as int]);
            }
            let edge: Edge = self.edges[i];
            let inside: bool = edge.range.start_row <= loc.row && loc.row < edge.range.stop_row
                && edge.range.start_col <= loc.col && loc.col < edge.range.stop_col;
            if inside && !has_cell(&cells, edge.cell) {
                cells.push(edge.cell);
            }
            i = i + 1;
        }
        assert(self.edges@.take(self.edges.len() as int) =~= self.edges@);
        cells
    }

    /// The cells to recompute after an edit of `cell_loc`, found from the
    /// cells `dependents` that read a range over it.
    fn cells_to_eval(&self, cell_loc: CellLocation, dependents: &Vec<CellLocation>) -> (res:
        InsertResult)
        ensures
            (res.inserted_cells@, res.circular_cells@) == schedule(
                self.edges@,
                dependents@,
                cell_loc,
            ),
    {
        let mut stack: Vec<CellLocation> = Vec::new();
        let mut circular: Vec<CellLocation> = Vec::new();
        let mut path: Vec<CellLocation> = Vec::new();
        path.push(cell_loc);
        assert(path@ =~= seq![cell_loc]);
        self.dfs(dependents, &mut stack, &mut path, &mut circular);
        let mut ret: Vec<CellLocation> = Vec::new();
        let mut i: usize = 0;
        assert(stack@.take(0) =~= Seq::<CellLocation>::empty());
        while i < stack.len()
            invariant
                i <= stack.len(),
                ret@ == without_all(stack@.take(i as int), circular@),
            decreases stack.len() - i,
        {
            proof {
                assert(stack@.take(i + 1).drop_last() =~= stack@.take(i as int));
                assert(stack@.take(i + 1).last() == stack@[i as int]);
            }
            if !has_cell(&circular, stack[i]) {
                ret.push(stack[i]);
            }
            i = i + 1;
        }
        assert(stack@.take(stack.len() as int) =~= stack@);
        if !has_cell(&circular, cell_loc) {
            ret.push(cell_loc);
        }
        InsertResult { inserted_cells: ret, circular_cells: circular }
    }

    /// The traversal from each cell of `deps` in turn: see [`visit_all`].
    fn dfs(
        &self,
        deps: &Vec<CellLocation>,
        stack: &mut Vec<CellLocation>,
        path: &mut Vec<CellLocation>,
        circular: &mut Vec<CellLocation>,
    )
        ensures
            final(path)@ == old(path)@,
            (Walk { stack: final(stack)@, circular: final(circular)@ }) == visit_all(
                self.edges@,
                deps@,
                Walk { stack: old(stack)@, circular: old(circular)@ },
                old(path)@,
            ),
        decreases depth_left(self.edges@, old(path)@), deps.len() + 1,
    {
        let ghost entry = Walk { stack: stack@, circular: circular@ };
        let ghost way = path@;
        let mut i: usize = 0;
        assert(deps@.take(0) =~= Seq::<CellLocation>::empty());
        while i < deps.len()
            invariant
                i <= deps.len(),
                path@ == way,
                way == old(path)@,
                (Walk { stack: stack@, circular: circular@ }) == visit_all(
                    self.edges@,
                    deps@.take(i as int),
                    entry,
                    way,
                ),
            decreases deps.len() - i,
        {
            let d: CellLocation = deps[i];
            proof {
                assert(deps@.take(i + 1).drop_last() =~= deps@.take(i as int));
                assert(deps@.take(i + 1).last() == d);
            }
            let ghost prev = Walk { stack: stack@, circular: circular@ };
            if has_cell(circular, d) {
                assert(visit(self.edges@, d, prev, way) == prev);
            } else if has_cell(path, d) || path.len() > self.edges.len() {
                path.push(d);
                add_cells(circular, path);
                path.pop();
                assert(path@ =~= way);
                assert(visit(self.edges@, d, prev, way) == Walk {
                    stack: stack@,
                    circular: circular@,
                });
            } else {
                path.push(d);
                let next = self.dependents(d);
                self.dfs(&next, stack, path, circular);
                let ghost after = Walk { stack: stack@, circular: circular@ };
                path.pop();
                assert(path@ =~= way);
                stack.push(d);
                assert(after == visit_all(self.edges@, dependents_of(self.edges@, d), prev, way.push(d)));
                assert(visit(self.edges@, d, prev, way) == Walk {
                    stack: after.stack.push(d),
                    circular: after.circular,
                });
            }
            assert(visit_all(self.edges@, deps@.take(i + 1), entry, way) == visit(
                self.edges@,
                d,
                prev,
                way,
            ));
            i = i + 1;
        }
        assert(deps@.take(deps.len() as int) =~= deps@);
    }
}

/// The entry of the spatial index for `edge`: see [`entry_of`].
fn entry_for(edge: Edge) -> (r: Option<(i32, i32, i32, i32, i32, i32)>)
    ensures
        r == entry_of(edge),
        r matches Some(entry) ==> crate::service::spatial::in_window(entry),
{
    let range = edge.range;
    let low_row: i32 = if range.start_row < 0 {
        0
    } else {
        range.start_row
    };
    let low_col: i32 = if range.start_col < 0 {
        0
    } else {
        range.start_col
    };
    if range.stop_row <= low_row || range.stop_col <= low_col {
        return None;
    }
    let high_row: i32 = if range.stop_row > WINDOW {
        WINDOW - 1
    } else {
        range.stop_row - 1
    };
    let high_col: i32 = if range.stop_col > WINDOW {
        WINDOW - 1
    } else {
        range.stop_col - 1
    };
    if low_row <= high_row && low_col <= high_col {
        Some((edge.cell.row, edge.cell.col, low_row, low_col, high_row, high_col))
    } else {
        None
    }
}

/// Whether `cells` holds `cell`.
fn has_cell(cells: &Vec<CellLocation>, cell: CellLocation) -> (b: bool)
    ensures
        b == cells@.contains(cell),
{
    let mut i: usize = 0;
    while i < cells.len()
        invariant
            i <= cells.len(),
            forall|k: int| 0 <= k < i ==> cells@[k] != cell,
        decreases cells.len() - i,
    {
        if cells[i] == cell {
            return true;
        }
        i = i + 1;
    }
    false
}

/// Adds to `circular` the cells of `path` that it does not hold yet.
fn add_cells(circular: &mut Vec<CellLocation>, path: &Vec<CellLocation>)
    ensures
        final(circular)@ == add_all(old(circular)@, path@),
{
    let mut i: usize = 0;
    assert(path@.take(0) =~= Seq::<CellLocation>::empty());
    while i < path.len()
        invariant
            i <= path.len(),
            circular@ == add_all(old(circular)@, path@.take(i as int)),
        decreases path.len() - i,
    {
        proof {
            assert(path@.take(i + 1).drop_last() =~= path@.take(i as int));
            assert(path@.take(i + 1).last() == path@[i as int]);
        }
        if !has_cell(circular, path[i]) {
            circular.push(path[i]);
        }
        i = i + 1;
    }
    assert(path@.take(path.len() as int) =~= path@);
}

/// Whether `c` lies in `stack` before the position `j`.
pub open spec fn earlier(stack: Seq<CellLocation>, c: CellLocation, j: int) -> bool {
    exists|i: int| 0 <= i < j && i < stack.len() && stack[i] == c
}

/// Whether every cell of `stack` lies behind the cells that read a range
/// over it, as far as they are not circular.
pub open spec fn readers_first(
    edges: Seq<Edge>,
    stack: Seq<CellLocation>,
    circular: Seq<CellLocation>,
) -> bool {
    forall|j: int, c: CellLocation|
        0 <= j < stack.len() && #[trigger] dependents_of(edges, stack[j]).contains(c)
            ==> circular.contains(c) || earlier(stack, c, j)
}

/// Whether `after` continues `before`: the stack has grown at its end, and
/// no cell has left the circular ones.
pub open spec fn continues(before: Walk, after: Walk) -> bool {
    &&& before.stack.len() <= after.stack.len()
    &&& forall|i: int| 0 <= i < before.stack.len() ==> after.stack[i] == before.stack[i]
    &&& forall|c: CellLocation| before.circular.contains(c) ==> after.circular.contains(c)
}

/// What `add_all` holds.
proof fn lemma_add_all(circular: Seq<CellLocation>, path: Seq<CellLocation>)
    ensures
        forall|c: CellLocation| #[trigger]
            add_all(circular, path).contains(c) <==> circular.contains(c) || path.contains(c),
    decreases path.len(),
{
    if path.len() > 0 {
        let shorter = path.drop_last();
        lemma_add_all(circular, shorter);
        let before = add_all(circular, shorter);
        assert forall|c: CellLocation| #[trigger]
            add_all(circular, path).contains(c) <==> circular.contains(c) || path.contains(
                c,
            ) by {
            if path.contains(c) {
                let i = choose|i: int| 0 <= i < path.len() && path[i] == c;
                if i < path.len() - 1 {
                    assert(shorter[i] == c);
                }
            }
            if shorter.contains(c) {
                let i = choose|i: int| 0 <= i < shorter.len() && shorter[i] == c;
                assert(path[i] == c);
            }
            assert(path[path.len() - 1] == path.last());
            if !before.contains(path.last()) {
                assert(before.push(path.last())[before.len() as int] == path.last());
                if before.contains(c) {
                    let i = choose|i: int| 0 <= i < before.len() && before[i] == c;
                    assert(before.push(path.last())[i] == c);
                }
            }
        }
    }
}

/// What a visit leaves behind: the stack has grown at its end, the cell is
/// on the stack or circular, and the stack still holds the readers first.
proof fn lemma_visit(edges: Seq<Edge>, d: CellLocation, walk: Walk, path: Seq<CellLocation>)
    requires
        readers_first(edges, walk.stack, walk.circular),
    ensures
        continues(walk, visit(edges, d, walk, path)),
        readers_first(
            edges,
            visit(edges, d, walk, path).stack,
            visit(edges, d, walk, path).circular,
        ),
        visit(edges, d, walk, path).circular.contains(d) || visit(
            edges,
            d,
            walk,
            path,
        ).stack.contains(d),
    decreases depth_left(edges, path), 0int,
{
    let r = visit(edges, d, walk, path);
    if walk.circular.contains(d) {
    } else if path.contains(d) || path.len() > edges.len() {
        lemma_add_all(walk.circular, path.push(d));
        assert(path.push(d)[path.len() as int] == d);
        assert(readers_first(edges, r.stack, r.circular)) by {
            assert forall|j: int, c: CellLocation|
                0 <= j < r.stack.len() && #[trigger] dependents_of(edges, r.stack[j]).contains(
                    c,
                ) implies r.circular.contains(c) || earlier(r.stack, c, j) by {
                if !walk.circular.contains(c) {
                    assert(earlier(walk.stack, c, j));
                }
            }
        }
    } else {
        let deps = dependents_of(edges, d);
        lemma_visit_all(edges, deps, walk, path.push(d));
        let after = visit_all(edges, deps, walk, path.push(d));
        assert(r.stack == after.stack.push(d));
        assert(r.stack[after.stack.len() as int] == d);
        assert(readers_first(edges, r.stack, r.circular)) by {
            assert forall|j: int, c: CellLocation|
                0 <= j < r.stack.len() && #[trigger] dependents_of(edges, r.stack[j]).contains(
                    c,
                ) implies r.circular.contains(c) || earlier(r.stack, c, j) by {
                if j < after.stack.len() {
                    assert(r.stack[j] == after.stack[j]);
                    if !after.circular.contains(c) {
                        assert(earlier(after.stack, c, j));
                        let i = choose|i: int|
                            0 <= i < j && i < after.stack.len() && after.stack[i] == c;
                        assert(r.stack[i] == c);
                    }
                } else {
                    assert(deps.contains(c));
                    if !after.circular.contains(c) {
                        assert(after.stack.contains(c));
                        let i = choose|i: int| 0 <= i < after.stack.len() && after.stack[i] == c;
                        assert(r.stack[i] == c);
                    }
                }
            }
        }
    }
}

/// What the visits of `deps` leave behind: the stack has grown at its end,
/// each cell of `deps` is on the stack or circular, and the stack still
/// holds the readers first.
proof fn lemma_visit_all(
    edges: Seq<Edge>,
    deps: Seq<CellLocation>,
    walk: Walk,
    path: Seq<CellLocation>,
)
    requires
        readers_first(edges, walk.stack, walk.circular),
    ensures
        continues(walk, visit_all(edges, deps, walk, path)),
        readers_first(
            edges,
            visit_all(edges, deps, walk, path).stack,
            visit_all(edges, deps, walk, path).circular,
        ),
        forall|d: CellLocation|
            deps.contains(d) ==> visit_all(edges, deps, walk, path).circular.contains(d)
                || #[trigger] visit_all(edges, deps, walk, path).stack.contains(d),
    decreases depth_left(edges, path), deps.len() + 1,
{
    if deps.len() > 0 {
        let fewer = deps.drop_last();
        lemma_visit_all(edges, fewer, walk, path);
        let mid = visit_all(edges, fewer, walk, path);
        lemma_visit(edges, deps.last(), mid, path);
        let r = visit(edges, deps.last(), mid, path);
        assert forall|d: CellLocation| deps.contains(d) implies r.circular.contains(d)
            || #[trigger] r.stack.contains(d) by {
            let i = choose|i: int| 0 <= i < deps.len() && deps[i] == d;
            if i < deps.len() - 1 {
                assert(fewer[i] == d);
                if !mid.circular.contains(d) {
                    assert(mid.stack.contains(d));
                    let k = choose|k: int| 0 <= k < mid.stack.len() && mid.stack[k] == d;
                    assert(r.stack[k] == d);
                }
            }
        }
    }
}

/// What `without_all` keeps, and in what order.
proof fn lemma_without_all(stack: Seq<CellLocation>, circular: Seq<CellLocation>)
    ensures
        forall|c: CellLocation| #[trigger]
            without_all(stack, circular).contains(c) <==> stack.contains(c) && !circular.contains(
                c,
            ),
        forall|j: int|
            0 <= j < without_all(stack, circular).len() ==> exists|k: int|
                0 <= k < stack.len() && stack[k] == #[trigger] without_all(stack, circular)[j]
                    && forall|c: CellLocation|
                    earlier(stack, c, k) && !circular.contains(c) ==> earlier(
                        without_all(stack, circular),
                        c,
                        j,
                    ),
    decreases stack.len(),
{
    if stack.len() > 0 {
        let rest = stack.drop_last();
        lemma_without_all(rest, circular);
        let kept = without_all(rest, circular);
        let all = without_all(stack, circular);
        assert forall|c: CellLocation| #[trigger]
            all.contains(c) <==> stack.contains(c) && !circular.contains(c) by {
            if stack.contains(c) {
                let i = choose|i: int| 0 <= i < stack.len() && stack[i] == c;
                if i < stack.len() - 1 {
                    assert(rest[i] == c);
                }
            }
            if rest.contains(c) {
                let i = choose|i: int| 0 <= i < rest.len() && rest[i] == c;
                assert(stack[i] == c);
            }
            assert(stack[stack.len() - 1] == stack.last());
            if !circular.contains(stack.last()) {
                assert(kept.push(stack.last())[kept.len() as int] == stack.last());
                if kept.contains(c) {
                    let i = choose|i: int| 0 <= i < kept.len() && kept[i] == c;
                    assert(kept.push(stack.last())[i] == c);
                }
            }
        }
        assert forall|j: int| 0 <= j < all.len() implies exists|k: int|
            0 <= k < stack.len() && stack[k] == #[trigger] all[j] && forall|c: CellLocation|
                earlier(stack, c, k) && !circular.contains(c) ==> earlier(all, c, j) by {
            if j < kept.len() {
                assert(all[j] == kept[j]);
                let k = choose|k: int|
                    0 <= k < rest.len() && rest[k] == kept[j] && forall|c: CellLocation|
                        earlier(rest, c, k) && !circular.contains(c) ==> earlier(kept, c, j);
                assert(stack[k] == rest[k]);
                assert forall|c: CellLocation|
                    earlier(stack, c, k) && !circular.contains(c) implies earlier(all, c, j) by {
                    let i = choose|i: int| 0 <= i < k && i < stack.len() && stack[i] == c;
                    assert(rest[i] == c);
                    assert(earlier(rest, c, k));
                    assert(earlier(kept, c, j));
                    let m = choose|m: int| 0 <= m < j && m < kept.len() && kept[m] == c;
                    assert(all[m] == c);
                }
            } else {
                let k = stack.len() - 1;
                assert(all[j] == stack.last());
                assert forall|c: CellLocation|
                    earlier(stack, c, k) && !circular.contains(c) implies earlier(all, c, j) by {
                    let i = choose|i: int| 0 <= i < k && i < stack.len() && stack[i] == c;
                    assert(rest[i] == c);
                    assert(rest.contains(c));
                    assert(kept.contains(c));
                    let m = choose|m: int| 0 <= m < kept.len() && kept[m] == c;
                    assert(all[m] == c);
                }
            }
        }
    }
}

/// What a schedule holds, whatever the order of the seeds.
///
/// Every seed is to be recomputed or circular, and so is the edited cell,
/// which is the last to be recomputed; no cell is both. A cell to recompute
/// lies behind the cells that read a range over it, as far as they are
/// not circular: popping the list yields a cell before the cells that read
/// it.
pub proof fn lemma_schedule(edges: Seq<Edge>, seeds: Seq<CellLocation>, loc: CellLocation)
    requires
        forall|c: CellLocation| reads(edges, c, loc) ==> seeds.contains(c),
    ensures
        forall|c: CellLocation|
            seeds.contains(c) ==> #[trigger] schedule(edges, seeds, loc).0.contains(c)
                || schedule(edges, seeds, loc).1.contains(c),
        forall|c: CellLocation|
            !(#[trigger] schedule(edges, seeds, loc).0.contains(c) && schedule(
                edges,
                seeds,
                loc,
            ).1.contains(c)),
        schedule(edges, seeds, loc).1.contains(loc) || (schedule(edges, seeds, loc).0.len() > 0
            && schedule(edges, seeds, loc).0.last() == loc),
        readers_first(edges, schedule(edges, seeds, loc).0, schedule(edges, seeds, loc).1),
{
    let start = Walk { stack: Seq::empty(), circular: Seq::empty() };
    let walk = visit_all(edges, seeds, start, seq![loc]);
    lemma_visit_all(edges, seeds, start, seq![loc]);
    lemma_without_all(walk.stack, walk.circular);
    let order = without_all(walk.stack, walk.circular);
    let inserted = schedule(edges, seeds, loc).0;
    let circular = schedule(edges, seeds, loc).1;
    assert(circular == walk.circular);
    if !circular.contains(loc) {
        assert(inserted == order.push(loc));
        assert(inserted[order.len() as int] == loc);
    }
    assert forall|c: CellLocation| seeds.contains(c) implies #[trigger] inserted.contains(c)
        || circular.contains(c) by {
        if !circular.contains(c) {
            assert(walk.stack.contains(c));
            assert(order.contains(c));
            let i = choose|i: int| 0 <= i < order.len() && order[i] == c;
            assert(inserted[i] == c);
        }
    }
    assert forall|c: CellLocation|
        !(#[trigger] inserted.contains(c) && circular.contains(c)) by {
        if inserted.contains(c) && circular.contains(c) {
            let i = choose|i: int| 0 <= i < inserted.len() && inserted[i] == c;
            if i < order.len() {
                assert(order[i] == c);
                assert(order.contains(c));
            }
        }
    }
    assert forall|j: int, c: CellLocation|
        0 <= j < inserted.len() && #[trigger] dependents_of(edges, inserted[j]).contains(
            c,
        ) implies circular.contains(c) || earlier(inserted, c, j) by {
        if !circular.contains(c) {
            if j < order.len() {
                assert(inserted[j] == order[j]);
                let k = choose|k: int|
                    0 <= k < walk.stack.len() && walk.stack[k] == order[j] && forall|
                        c: CellLocation,
                    |
                        earlier(walk.stack, c, k) && !walk.circular.contains(c) ==> earlier(
                            order,
                            c,
                            j,
                        );
                assert(dependents_of(edges, walk.stack[k]).contains(c));
                assert(earlier(walk.stack, c, k));
                assert(earlier(order, c, j));
                let m = choose|m: int| 0 <= m < j && m < order.len() && order[m] == c;
                assert(inserted[m] == c);
            } else {
                lemma_dependents_read(edges, loc, c);
                assert(seeds.contains(c));
                assert(walk.stack.contains(c));
                assert(order.contains(c));
                let m = choose|m: int| 0 <= m < order.len() && order[m] == c;
                assert(inserted[m] == c);
            }
        }
    }
}

/// What `dependents_of` holds: the cells that read a range over the
/// position, each once.
pub proof fn lemma_dependents_of(edges: Seq<Edge>, loc: CellLocation)
    ensures
        seeds_of(edges, dependents_of(edges, loc), loc),
    decreases edges.len(),
{
    let found = dependents_of(edges, loc);
    if edges.len() == 0 {
        assert forall|c: CellLocation| #[trigger] found.contains(c) <==> reads(edges, c, loc) by {}
    } else {
        let rest = edges.drop_last();
        let last = edges.last();
        lemma_dependents_of(rest, loc);
        let before = dependents_of(rest, loc);
        let inside = last.range.contains(loc.row as int, loc.col as int);
        assert forall|c: CellLocation| #[trigger] found.contains(c) <==> reads(edges, c, loc) by {
            if found.contains(c) {
                let i = choose|i: int| 0 <= i < found.len() && found[i] == c;
                if i < before.len() {
                    assert(before[i] == c);
                    assert(before.contains(c));
                    assert(reads(rest, c, loc));
                    let k = choose|k: int|
                        0 <= k < rest.len() && (#[trigger] rest[k]).cell == c
                            && rest[k].range.contains(loc.row as int, loc.col as int);
                    assert(edges[k] == rest[k]);
                } else {
                    assert(edges[edges.len() - 1].cell == c);
                }
            }
            if reads(edges, c, loc) {
                let k = choose|k: int|
                    0 <= k < edges.len() && (#[trigger] edges[k]).cell == c
                        && edges[k].range.contains(loc.row as int, loc.col as int);
                if k < rest.len() {
                    assert(rest[k] == edges[k]);
                    assert(reads(rest, c, loc));
                    assert(before.contains(c));
                    let i = choose|i: int| 0 <= i < before.len() && before[i] == c;
                    assert(found[i] == c);
                } else if before.contains(c) {
                    let i = choose|i: int| 0 <= i < before.len() && before[i] == c;
                    assert(found[i] == c);
                } else {
                    assert(found[before.len() as int] == c);
                }
            }
        }
        assert(found.no_duplicates()) by {
            assert forall|a: int, b: int|
                0 <= a < found.len() && 0 <= b < found.len() && a != b implies found[a]
                != found[b] by {
                if a < before.len() && b < before.len() {
                    assert(before[a] != before[b]);
                } else if a < before.len() {
                    assert(before.contains(before[a]));
                } else {
                    assert(before.contains(before[b]));
                }
            }
        }
    }
}

/// A cell among the dependents of a position reads a range over it.
proof fn lemma_dependents_read(edges: Seq<Edge>, loc: CellLocation, c: CellLocation)
    requires
        dependents_of(edges, loc).contains(c),
    ensures
        reads(edges, c, loc),
{
    lemma_dependents_of(edges, loc);
}

/// Whether some edge leaves `cell`.
pub open spec fn leaves(edges: Seq<Edge>, cell: CellLocation) -> bool {
    exists|i: int| 0 <= i < edges.len() && (#[trigger] edges[i]).cell == cell
}

/// A path of distinct cells, all but the first of which read something, is
/// no longer than the list of edges as long as one more such cell is not on
/// it: a traversal that meets a cell at the end of a longer path has met a
/// cell twice.
pub proof fn lemma_depth_suffices(edges: Seq<Edge>, path: Seq<CellLocation>, d: CellLocation)
    requires
        path.len() > 0,
        path.no_duplicates(),
        forall|i: int| 1 <= i < path.len() ==> leaves(edges, #[trigger] path[i]),
        leaves(edges, d),
        !path.contains(d),
    ensures
        path.len() <= edges.len(),
{
    let cells = Seq::new(edges.len(), |i: int| edges[i].cell);
    let walked = path.skip(1).push(d);
    assert(walked.no_duplicates()) by {
        assert forall|a: int, b: int|
            0 <= a < walked.len() && 0 <= b < walked.len() && a != b implies walked[a]
            != walked[b] by {
            if a < walked.len() - 1 && b < walked.len() - 1 {
                assert(path[a + 1] != path[b + 1]);
            } else if a < walked.len() - 1 {
                assert(path[a + 1] == walked[a]);
            } else {
                assert(path[b + 1] == walked[b]);
            }
        }
    }
    walked.unique_seq_to_set();
    cells.lemma_cardinality_of_set();
    vstd::seq_lib::seq_to_set_is_finite(cells);
    assert(walked.to_set().subset_of(cells.to_set())) by {
        assert forall|c: CellLocation| walked.to_set().contains(c) implies cells.to_set().contains(
            c,
        ) by {
            let a = choose|a: int| 0 <= a < walked.len() && walked[a] == c;
            if a < walked.len() - 1 {
                assert(path[a + 1] == c);
            }
            assert(leaves(edges, c));
            let i = choose|i: int| 0 <= i < edges.len() && (#[trigger] edges[i]).cell == c;
            assert(cells[i] == c);
        }
    }
    vstd::set_lib::lemma_len_subset(walked.to_set(), cells.to_set());
}

/// Whether `seeds` are the cells that read a range over `loc`, each once.
pub open spec fn seeds_of(edges: Seq<Edge>, seeds: Seq<CellLocation>, loc: CellLocation) -> bool {
    &&& seeds.no_duplicates()
    &&& forall|c: CellLocation| #[trigger] seeds.contains(c) <==> reads(edges, c, loc)
}

/// Whether every cell of `cells` is `loc` or reads something.
pub open spec fn all_known(edges: Seq<Edge>, loc: CellLocation, cells: Seq<CellLocation>) -> bool {
    forall|i: int| 0 <= i < cells.len() ==> #[trigger] cells[i] == loc || leaves(edges, cells[i])
}

/// The dependents of a position read something.
proof fn lemma_dependents_leave(edges: Seq<Edge>, loc: CellLocation, d: CellLocation)
    ensures
        all_known(edges, loc, dependents_of(edges, d)),
{
    lemma_dependents_of(edges, d);
    let found = dependents_of(edges, d);
    assert forall|i: int| 0 <= i < found.len() implies #[trigger] found[i] == loc || leaves(
        edges,
        found[i],
    ) by {
        assert(found.contains(found[i]));
        assert(reads(edges, found[i], d));
    }
}

/// A visit puts only known cells on the stack and among the circular ones.
proof fn lemma_visit_members(
    edges: Seq<Edge>,
    loc: CellLocation,
    d: CellLocation,
    walk: Walk,
    path: Seq<CellLocation>,
)
    requires
        all_known(edges, loc, walk.stack),
        all_known(edges, loc, walk.circular),
        all_known(edges, loc, path),
        d == loc || leaves(edges, d),
    ensures
        all_known(edges, loc, visit(edges, d, walk, path).stack),
        all_known(edges, loc, visit(edges, d, walk, path).circular),
    decreases depth_left(edges, path), 0int,
{
    let r = visit(edges, d, walk, path);
    if walk.circular.contains(d) {
    } else if path.contains(d) || path.len() > edges.len() {
        let longer = path.push(d);
        lemma_add_all(walk.circular, longer);
        assert forall|i: int| 0 <= i < r.circular.len() implies #[trigger] r.circular[i] == loc
            || leaves(edges, r.circular[i]) by {
            let c = r.circular[i];
            assert(r.circular.contains(c));
            if walk.circular.contains(c) {
                let k = choose|k: int| 0 <= k < walk.circular.len() && walk.circular[k] == c;
                assert(walk.circular[k] == loc || leaves(edges, walk.circular[k]));
            } else {
                assert(longer.contains(c));
                let k = choose|k: int| 0 <= k < longer.len() && longer[k] == c;
                if k < path.len() {
                    assert(path[k] == loc || leaves(edges, path[k]));
                }
            }
        }
    } else {
        let deps = dependents_of(edges, d);
        let longer = path.push(d);
        lemma_dependents_leave(edges, loc, d);
        assert forall|i: int| 0 <= i < longer.len() implies #[trigger] longer[i] == loc || leaves(
            edges,
            longer[i],
        ) by {
            if i < path.len() {
                assert(path[i] == loc || leaves(edges, path[i]));
            }
        }
        lemma_visit_all_members(edges, loc, deps, walk, longer);
        let after = visit_all(edges, deps, walk, longer);
        assert forall|i: int| 0 <= i < r.stack.len() implies #[trigger] r.stack[i] == loc || leaves(
            edges,
            r.stack[i],
        ) by {
            if i < after.stack.len() {
                assert(after.stack[i] == loc || leaves(edges, after.stack[i]));
            }
        }
    }
}

/// The visits of known cells put only known cells on the stack and among
/// the circular ones.
proof fn lemma_visit_all_members(
    edges: Seq<Edge>,
    loc: CellLocation,
    deps: Seq<CellLocation>,
    walk: Walk,
    path: Seq<CellLocation>,
)
    requires
        all_known(edges, loc, walk.stack),
        all_known(edges, loc, walk.circular),
        all_known(edges, loc, path),
        all_known(edges, loc, deps),
    ensures
        all_known(edges, loc, visit_all(edges, deps, walk, path).stack),
        all_known(edges, loc, visit_all(edges, deps, walk, path).circular),
    decreases depth_left(edges, path), deps.len() + 1,
{
    if deps.len() > 0 {
        let fewer = deps.drop_last();
        assert forall|i: int| 0 <= i < fewer.len() implies #[trigger] fewer[i] == loc || leaves(
            edges,
            fewer[i],
        ) by {
            assert(deps[i] == loc || leaves(edges, deps[i]));
        }
        lemma_visit_all_members(edges, loc, fewer, walk, path);
        assert(deps[deps.len() - 1] == loc || leaves(edges, deps[deps.len() - 1]));
        lemma_visit_members(edges, loc, deps.last(), visit_all(edges, fewer, walk, path), path);
    }
}

/// Every cell of a schedule is the edited cell or a cell that reads
/// something.
pub proof fn lemma_schedule_members(edges: Seq<Edge>, seeds: Seq<CellLocation>, loc: CellLocation)
    requires
        forall|c: CellLocation| seeds.contains(c) ==> reads(edges, c, loc),
    ensures
        all_known(edges, loc, schedule(edges, seeds, loc).0),
        all_known(edges, loc, schedule(edges, seeds, loc).1),
{
    let start = Walk { stack: Seq::empty(), circular: Seq::empty() };
    let path = seq![loc];
    assert forall|i: int| 0 <= i < seeds.len() implies #[trigger] seeds[i] == loc || leaves(
        edges,
        seeds[i],
    ) by {
        assert(seeds.contains(seeds[i]));
        assert(reads(edges, seeds[i], loc));
    }
    lemma_visit_all_members(edges, loc, seeds, start, path);
    let walk = visit_all(edges, seeds, start, path);
    lemma_without_all(walk.stack, walk.circular);
    let order = without_all(walk.stack, walk.circular);
    let inserted = schedule(edges, seeds, loc).0;
    assert forall|i: int| 0 <= i < inserted.len() implies #[trigger] inserted[i] == loc || leaves(
        edges,
        inserted[i],
    ) by {
        if i < order.len() {
            assert(inserted[i] == order[i]);
            assert(order.contains(order[i]));
            assert(walk.stack.contains(order[i]));
            let k = choose|k: int| 0 <= k < walk.stack.len() && walk.stack[k] == order[i];
            assert(walk.stack[k] == loc || leaves(edges, walk.stack[k]));
        }
    }
}

} // verus!
