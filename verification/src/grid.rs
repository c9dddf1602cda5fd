//! Broad-phase spatial index.
//!
//! The simulation area is tiled by `cols * rows` cells, numbered row by row.
//! Once per tick the grid is rebuilt from the pool: every live slot is entered
//! into every cell that it overlaps, so a particle that straddles a border is a
//! member of several cells. The grid holds slot handles only and is stale as
//! soon as the pool retires an entry.
use crate::order::{pairs_rising, rising};
use crate::pool::Pool;
use vstd::prelude::*;

verus! {

/// Cell `c` exists and has both slots among its members.
pub open spec fn both_in(cells: Seq<Seq<usize>>, c: int, a: usize, b: usize) -> bool {
    0 <= c < cells.len() && cells[c].contains(a) && cells[c].contains(b)
}

/// Some cell has both slots among its members.
pub open spec fn share_cell(cells: Seq<Seq<usize>>, a: usize, b: usize) -> bool {
    exists|c: int| both_in(cells, c, a, b)
}

/// Cell `c` is the first cell that has both slots among its members.
pub open spec fn first_meet(cells: Seq<Seq<usize>>, c: int, a: usize, b: usize) -> bool {
    both_in(cells, c, a, b) && forall|e: int| 0 <= e < c ==> !both_in(cells, e, a, b)
}

/// The cell in which two slots are first met, where they share a cell.
pub open spec fn meeting_cell(cells: Seq<Seq<usize>>, a: usize, b: usize) -> int {
    choose|c: int| first_meet(cells, c, a, b)
}

/// The order in which candidate pairs come up: by the cell in which the pair
/// is first met, and within one cell in dictionary order.
pub open spec fn pair_before(cells: Seq<Seq<usize>>, p: (usize, usize), q: (usize, usize)) -> bool {
    let at_p = meeting_cell(cells, p.0, p.1);
    let at_q = meeting_cell(cells, q.0, q.1);
    at_p < at_q || (at_p == at_q && (p.0 < q.0 || (p.0 == q.0 && p.1 < q.1)))
}

/// The member lists of a row of cells.
spec fn lists(cells: Seq<Vec<usize>>) -> Seq<Seq<usize>> {
    Seq::new(cells.len(), |c: int| cells[c]@)
}

/// A uniform tiling with the slots that each cell currently holds.
pub struct Grid {
    cols: usize,
    rows: usize,
    cells: Vec<Vec<usize>>,
    homes: Vec<Vec<usize>>,
}

/// `homes` lists for each slot the cells that `cells` lists it under, and both
/// keep their lists rising.
spec fn cross_indexed(cells: Seq<Seq<usize>>, homes: Seq<Seq<usize>>) -> bool {
    &&& forall|c: int| 0 <= c < cells.len() ==> rising(#[trigger] cells[c])
    &&& forall|i: int| 0 <= i < homes.len() ==> rising(#[trigger] homes[i])
    &&& forall|c: int, i: usize|
        0 <= c < cells.len() && #[trigger] cells[c].contains(i) ==> i < homes.len()
            && homes[i as int].contains(c as usize)
    &&& forall|i: int, c: usize|
        0 <= i < homes.len() && #[trigger] homes[i].contains(c) ==> c < cells.len()
            && cells[c as int].contains(i as usize)
}

impl Grid {
    #[verifier::type_invariant]
    spec fn consistent(self) -> bool {
        &&& self.cells@.len() == self.cols * self.rows
        &&& cross_indexed(lists(self.cells@), lists(self.homes@))
    }

    /// The members of each cell, in rising slot order.
    pub closed spec fn view(&self) -> Seq<Seq<usize>> {
        lists(self.cells@)
    }

    /// The number of columns of the tiling.
    pub closed spec fn spec_cols(&self) -> usize {
        self.cols
    }

    /// The number of rows of the tiling.
    pub closed spec fn spec_rows(&self) -> usize {
        self.rows
    }

    /// The number of slots that the last rebuild looked at.
    pub closed spec fn spec_population(&self) -> usize {
        self.homes@.len() as usize
    }

    /// A grid of `cols * rows` empty cells.
    pub fn new(cols: usize, rows: usize) -> (grid: Grid)
        requires
            cols * rows <= usize::MAX,
        ensures
            grid.cols() == cols,
            grid.rows() == rows,
            grid.population() == 0,
            grid@.len() == cols * rows,
            forall|c: int| 0 <= c < grid@.len() ==> #[trigger] grid@[c] == Seq::<usize>::empty(),
    {
        let count: usize = cols * rows;
        let cells = empty_cells(count);
        Grid { cols, rows, cells, homes: Vec::new() }
    }

    /// The number of columns of the tiling.
    #[verifier::when_used_as_spec(spec_cols)]
    pub fn cols(&self) -> (n: usize)
        ensures
            n == self.spec_cols(),
    {
        self.cols
    }

    /// The number of rows of the tiling.
    #[verifier::when_used_as_spec(spec_rows)]
    pub fn rows(&self) -> (n: usize)
        ensures
            n == self.spec_rows(),
    {
        self.rows
    }

    /// The number of slots that the last rebuild looked at.
    #[verifier::when_used_as_spec(spec_population)]
    pub fn population(&self) -> (n: usize)
        ensures
            n == self.spec_population(),
    {
        self.homes.len()
    }

    /// The number of cells, `cols * rows`.
    pub fn cell_count(&self) -> (n: usize)
        ensures
            n == self@.len(),
            n == self.cols() * self.rows(),
    {
        proof {
            use_type_invariant(self);
        }
        self.cells.len()
    }

    /// The column and the row of a cell, counted from zero. Cells are numbered
    /// along the rows, so `cell == row * cols + column`.
    pub fn position(&self, cell: usize) -> (at: Option<(usize, usize)>)
        ensures
            cell >= self@.len() ==> at.is_none(),
            cell < self@.len() ==> at == Some(
                ((cell % self.cols()) as usize, (cell / self.cols()) as usize),
            ) && self.cols() > 0 && cell / self.cols() < self.rows(),
    {
        proof {
            use_type_invariant(self);
        }
        if cell < self.cells.len() {
            assert(self.cols > 0 && (cell / self.cols) < self.rows) by (nonlinear_arith)
                requires
                    cell < self.cols * self.rows,
            ;
            Some((cell % self.cols, cell / self.cols))
        } else {
            None
        }
    }

    /// Clears every cell, then enters each live slot of `pool`, in rising
    /// order, into every cell for which `overlaps` answers `true` when asked
    /// about the slot's entry and the cell's number.
    pub fn rebuild<T, F: Fn(&T, usize) -> bool>(&mut self, pool: &Pool<T>, overlaps: F)
        requires
            forall|i: int, c: usize|
                0 <= i < pool@.len() && c < old(self)@.len() ==> call_requires(
                    overlaps,
                    (&#[trigger] pool@[i], c),
                ),
        ensures
            final(self).cols() == old(self).cols(),
            final(self).rows() == old(self).rows(),
            final(self)@.len() == old(self)@.len(),
            final(self).population() == pool@.len(),
            forall|c: int| 0 <= c < final(self)@.len() ==> rising(#[trigger] final(self)@[c]),
            forall|c: int, i: usize|
                0 <= c < final(self)@.len() && #[trigger] final(self)@[c].contains(i) ==> i
                    < pool@.len() && call_ensures(overlaps, (&pool@[i as int], c as usize), true),
            forall|c: int, i: usize|
                0 <= c < final(self)@.len() && i < pool@.len() && !(#[trigger] final(self)@[c].contains(
                    i,
                )) ==> call_ensures(overlaps, (&pool@[i as int], c as usize), false),
    {
        proof {
            use_type_invariant(&*self);
        }
        let cols: usize = self.cols;
        let rows: usize = self.rows;
        let count: usize = self.cells.len();
        let n: usize = pool.active_count();
        let mut cells = empty_cells(count);
        let mut homes: Vec<Vec<usize>> = Vec::new();
        let mut i: usize = 0;
        assert(lists(homes@) =~= Seq::<Seq<usize>>::empty());
        while i < n
            invariant
                i <= n,
                n == pool@.len(),
                cells@.len() == count,
                homes@.len() == i,
                forall|j: int, c: usize|
                    0 <= j < pool@.len() && c < count ==> call_requires(
                        overlaps,
                        (&#[trigger] pool@[j], c),
                    ),
                cross_indexed(lists(cells@), lists(homes@)),
                forall|c: int, x: usize|
                    0 <= c < count && #[trigger] lists(cells@)[c].contains(x) ==> x < i
                        && call_ensures(overlaps, (&pool@[x as int], c as usize), true),
                forall|c: int, x: usize|
                    0 <= c < count && x < i && !(#[trigger] lists(cells@)[c].contains(x))
                        ==> call_ensures(overlaps, (&pool@[x as int], c as usize), false),
            decreases n - i,
        {
            let ghost start = lists(cells@);
            let ghost homes_before = lists(homes@);
            let particle = pool.entry(i);
            let mut hits: Vec<usize> = Vec::new();
            let mut c: usize = 0;
            while c < count
                invariant
                    c <= count,
                    i < n,
                    n == pool@.len(),
                    *particle == pool@[i as int],
                    cells@.len() == count,
                    start.len() == count,
                    forall|e: usize|
                        e < count ==> call_requires(overlaps, (&pool@[i as int], #[trigger] id(e))),
                    rising(hits@),
                    forall|k: int| 0 <= k < hits@.len() ==> #[trigger] hits@[k] < c,
                    lists(cells@) =~= entered(start, hits@, i),
                    forall|e: usize|
                        e < c && #[trigger] hits@.contains(e) ==> call_ensures(
                            overlaps,
                            (&pool@[i as int], e),
                            true,
                        ),
                    forall|e: usize|
                        e < c && !(#[trigger] hits@.contains(e)) ==> call_ensures(
                            overlaps,
                            (&pool@[i as int], e),
                            false,
                        ),
                decreases count - c,
            {
                let ghost hits_before = hits@;
                let ghost cells_before = lists(cells@);
                let ghost raw_before = cells@;
                assert(call_requires(overlaps, (&pool@[i as int], id(c))));
                if overlaps(particle, c) {
                    hits.push(c);
                    push_member(&mut cells, c, i);
                    proof {
                        lemma_push_contains(hits_before, c);
                        assert(!hits_before.contains(c));
                        assert forall|e: int| 0 <= e < count implies #[trigger] lists(cells@)[e]
                            =~= entered(start, hits@, i)[e] by {
                            assert(cells_before[e] == entered(start, hits_before, i)[e]);
                            if e != c {
                                assert(cells@[e] == raw_before[e]);
                            }
                        }
                        assert(lists(cells@) =~= entered(start, hits@, i));
                    }
                } else {
                    assert(!hits@.contains(c));
                }
                c += 1;
            }
            homes.push(hits);
            proof {
                assert(lists(homes@) =~= homes_before.push(hits@));
                lemma_entered(start, homes_before, hits@, i);
                assert forall|c: int, x: usize|
                    0 <= c < count && #[trigger] lists(cells@)[c].contains(x) implies x < i + 1
                    && call_ensures(overlaps, (&pool@[x as int], c as usize), true) by {
                    if hits@.contains(c as usize) {
                        lemma_push_contains(start[c], i);
                    }
                    if x != i {
                        assert(start[c].contains(x));
                    }
                }
                assert forall|c: int, x: usize|
                    0 <= c < count && x < i + 1 && !(#[trigger] lists(cells@)[c].contains(
                        x,
                    )) implies call_ensures(overlaps, (&pool@[x as int], c as usize), false) by {
                    if hits@.contains(c as usize) {
                        lemma_push_contains(start[c], i);
                    }
                    if x != i {
                        assert(!start[c].contains(x));
                    }
                }
            }
            i += 1;
        }
        *self = Grid { cols, rows, cells, homes };
    }

    /// The members of a cell, in rising slot order.
    pub fn members(&self, cell: usize) -> (list: Option<&Vec<usize>>)
        ensures
            cell >= self@.len() ==> list.is_none(),
            cell < self@.len() ==> list.is_some() && list.unwrap()@ == self@[cell as int],
    {
        if cell < self.cells.len() {
            Some(&self.cells[cell])
        } else {
            None
        }
    }

    /// The cells that hold `slot`, in rising order, if the last rebuild looked
    /// at that slot.
    pub fn cells_of(&self, slot: usize) -> (list: Option<&Vec<usize>>)
        ensures
            slot >= self.population() ==> list.is_none(),
            slot < self.population() ==> list.is_some() && rising(list.unwrap()@) && forall|c: usize|
                #[trigger] list.unwrap()@.contains(c) <==> c < self@.len() && self@[c as int].contains(
                    slot,
                ),
    {
        proof {
            use_type_invariant(self);
        }
        if slot < self.homes.len() {
            assert(lists(self.homes@)[slot as int] == self.homes@[slot as int]@);
            Some(&self.homes[slot])
        } else {
            None
        }
    }

    /// Whether a cell before `cell` already holds both `a` and `b`.
    fn met_before(&self, cell: usize, a: usize, b: usize) -> (met: bool)
        requires
            cell < self@.len(),
            self@[cell as int].contains(a),
            self@[cell as int].contains(b),
        ensures
            met == exists|e: int| 0 <= e < cell && both_in(self@, e, a, b),
    {
        proof {
            use_type_invariant(self);
        }
        let ghost cells = lists(self.cells@);
        let ghost homes = lists(self.homes@);
        assert(homes[a as int] == self.homes@[a as int]@);
        assert(homes[b as int] == self.homes@[b as int]@);
        let of_a = &self.homes[a];
        let of_b = &self.homes[b];
        let mut k: usize = 0;
        while k < of_a.len()
            invariant
                k <= of_a@.len(),
                cells == self@,
                cell < cells.len(),
                cross_indexed(cells, homes),
                a < homes.len(),
                b < homes.len(),
                of_a@ == homes[a as int],
                of_b@ == homes[b as int],
                forall|j: int| 0 <= j < k ==> #[trigger] of_a@[j] < cell && !of_b@.contains(of_a@[j]),
            decreases of_a@.len() - k,
        {
            let e: usize = of_a[k];
            if e >= cell {
                assert forall|f: int| 0 <= f < cell implies !both_in(self@, f, a, b) by {
                    if both_in(self@, f, a, b) {
                        assert(cells[f].contains(a));
                        assert(homes[a as int].contains(f as usize));
                        assert(cells[f].contains(b));
                        assert(homes[b as int].contains(f as usize));
                        let j = choose|j: int| 0 <= j < of_a@.len() && of_a@[j] == f as usize;
                        assert(rising(homes[a as int]));
                    }
                }
                return false;
            }
            if holds(of_b, e) {
                assert(of_a@.contains(e));
                assert(homes[a as int].contains(e));
                assert(homes[b as int].contains(e));
                assert(both_in(self@, e as int, a, b));
                return true;
            }
            k += 1;
        }
        assert forall|f: int| 0 <= f < cell implies !both_in(self@, f, a, b) by {
            if both_in(self@, f, a, b) {
                assert(cells[f].contains(a));
                assert(homes[a as int].contains(f as usize));
                assert(cells[f].contains(b));
                assert(homes[b as int].contains(f as usize));
                let j = choose|j: int| 0 <= j < of_a@.len() && of_a@[j] == f as usize;
            }
        }
        false
    }

    /// The candidate pairs that `cell` contributes: every two of its members
    /// that no earlier cell holds together, the lower slot first, in
    /// dictionary order. Over all cells, each pair of slots that share a cell
    /// comes up in exactly one of these lists.
    pub fn pairs_in(&self, cell: usize) -> (out: Vec<(usize, usize)>)
        ensures
            pairs_rising(out@),
            forall|a: usize, b: usize| #[trigger]
                out@.contains((a, b)) <==> a < b && first_meet(self@, cell as int, a, b),
    {
        proof {
            use_type_invariant(self);
        }
        let mut out: Vec<(usize, usize)> = Vec::new();
        if cell >= self.cells.len() {
            return out;
        }
        let ghost cells = lists(self.cells@);
        let list = &self.cells[cell];
        assert(list@ == cells[cell as int]);
        assert(rising(cells[cell as int]));
        let len: usize = list.len();
        let mut x: usize = 0;
        while x < len
            invariant
                x <= len,
                len == list@.len(),
                cell < self@.len(),
                list@ == self@[cell as int],
                rising(list@),
                pairs_rising(out@),
                forall|k: int|
                    0 <= k < out@.len() ==> (#[trigger] out@[k]).0 < out@[k].1 && first_meet(
                        self@,
                        cell as int,
                        out@[k].0,
                        out@[k].1,
                    ),
                forall|k: int, p: int|
                    0 <= k < out@.len() && x <= p < len ==> (#[trigger] out@[k]).0 < #[trigger] list@[p],
                forall|p: int, q: int|
                    0 <= p < q < len && p < x && first_meet(
                        self@,
                        cell as int,
                        #[trigger] list@[p],
                        #[trigger] list@[q],
                    ) ==> out@.contains((list@[p], list@[q])),
            decreases len - x,
        {
            let a: usize = list[x];
            let mut y: usize = x + 1;
            while y < len
                invariant
                    x < y <= len,
                    len == list@.len(),
                    cell < self@.len(),
                    list@ == self@[cell as int],
                    rising(list@),
                    a == list@[x as int],
                    pairs_rising(out@),
                    forall|k: int|
                        0 <= k < out@.len() ==> (#[trigger] out@[k]).0 < out@[k].1 && first_meet(
                            self@,
                            cell as int,
                            out@[k].0,
                            out@[k].1,
                        ),
                    forall|k: int| 0 <= k < out@.len() ==> (#[trigger] out@[k]).0 <= a,
                    forall|k: int, p: int|
                        0 <= k < out@.len() && x < p < len ==> (#[trigger] out@[k]).0
                            < #[trigger] list@[p],
                    forall|k: int, q: int|
                        0 <= k < out@.len() && y <= q < len && out@[k].0 == a ==> (#[trigger] out@[k]).1
                            < #[trigger] list@[q],
                    forall|p: int, q: int|
                        0 <= p < q < len && (p < x || (p == x && q < y)) && first_meet(
                            self@,
                            cell as int,
                            #[trigger] list@[p],
                            #[trigger] list@[q],
                        ) ==> out@.contains((list@[p], list@[q])),
                decreases len - y,
            {
                let b: usize = list[y];
                let ghost earlier = out@;
                assert(list@.contains(a) && list@.contains(b));
                if !self.met_before(cell, a, b) {
                    out.push((a, b));
                    assert(first_meet(self@, cell as int, a, b));
                    assert(out@[earlier.len() as int] == (a, b));
                }
                assert forall|p: int, q: int|
                    0 <= p < q < len && (p < x || (p == x && q < y + 1)) && first_meet(
                        self@,
                        cell as int,
                        #[trigger] list@[p],
                        #[trigger] list@[q],
                    ) implies out@.contains((list@[p], list@[q])) by {
                    if p == x && q == y {
                        assert(out@[earlier.len() as int] == (a, b));
                    } else {
                        assert(earlier.contains((list@[p], list@[q])));
                        let k = choose|k: int|
                            0 <= k < earlier.len() && earlier[k] == (list@[p], list@[q]);
                        assert(out@[k] == (list@[p], list@[q]));
                    }
                }
                y += 1;
            }
            x += 1;
        }
        assert forall|a: usize, b: usize| #[trigger]
            out@.contains((a, b)) <==> a < b && first_meet(self@, cell as int, a, b) by {
            if out@.contains((a, b)) {
                let k = choose|k: int| 0 <= k < out@.len() && out@[k] == (a, b);
                assert(out@[k].0 < out@[k].1);
            }
            if a < b && first_meet(self@, cell as int, a, b) {
                let p = choose|p: int| 0 <= p < list@.len() && list@[p] == a;
                let q = choose|q: int| 0 <= q < list@.len() && list@[q] == b;
                assert(p < q);
            }
        }
        out
    }

    /// The candidate pairs of the whole grid: every two slots that share a
    /// cell, the lower slot first, each pair once. The pairs come cell by
    /// cell, a pair under the first cell that holds both, and within a cell in
    /// dictionary order.
    pub fn all_pairs(&self) -> (out: Vec<(usize, usize)>)
        ensures
            forall|a: usize, b: usize| #[trigger]
                out@.contains((a, b)) <==> a < b && share_cell(self@, a, b),
            forall|x: int, y: int|
                0 <= x < y < out@.len() ==> pair_before(self@, #[trigger] out@[x], #[trigger] out@[y]),
    {
        let count: usize = self.cell_count();
        let mut out: Vec<(usize, usize)> = Vec::new();
        let mut c: usize = 0;
        while c < count
            invariant
                c <= count,
                count == self@.len(),
                forall|k: int|
                    0 <= k < out@.len() ==> (#[trigger] out@[k]).0 < out@[k].1 && meeting_cell(
                        self@,
                        out@[k].0,
                        out@[k].1,
                    ) < c && first_meet(
                        self@,
                        meeting_cell(self@, out@[k].0, out@[k].1),
                        out@[k].0,
                        out@[k].1,
                    ),
                forall|a: usize, b: usize, e: int|
                    0 <= e < c && a < b && #[trigger] first_meet(self@, e, a, b) ==> out@.contains(
                        (a, b),
                    ),
                forall|x: int, y: int|
                    0 <= x < y < out@.len() ==> pair_before(
                        self@,
                        #[trigger] out@[x],
                        #[trigger] out@[y],
                    ),
            decreases count - c,
        {
            let fresh = self.pairs_in(c);
            let ghost base = out@;
            let mut k: usize = 0;
            while k < fresh.len()
                invariant
                    k <= fresh@.len(),
                    out@ == base + fresh@.subrange(0, k as int),
                decreases fresh@.len() - k,
            {
                out.push(fresh[k]);
                assert(out@ =~= base + fresh@.subrange(0, k + 1));
                k += 1;
            }
            proof {
                assert(fresh@.subrange(0, fresh@.len() as int) =~= fresh@);
                assert(out@ == base + fresh@);
                assert forall|j: int| 0 <= j < fresh@.len() implies (#[trigger] fresh@[j]).0
                    < fresh@[j].1 && first_meet(self@, c as int, fresh@[j].0, fresh@[j].1)
                    && meeting_cell(self@, fresh@[j].0, fresh@[j].1) == c by {
                    assert(fresh@.contains(fresh@[j]));
                    let p = fresh@[j];
                    assert(fresh@.contains((p.0, p.1)));
                    lemma_meeting_cell(self@, p.0, p.1, c as int);
                }
                assert forall|j: int| 0 <= j < out@.len() implies (#[trigger] out@[j]).0
                    < out@[j].1 && meeting_cell(self@, out@[j].0, out@[j].1) < c + 1 && first_meet(
                    self@,
                    meeting_cell(self@, out@[j].0, out@[j].1),
                    out@[j].0,
                    out@[j].1,
                ) by {
                    if j < base.len() {
                        assert(out@[j] == base[j]);
                    } else {
                        assert(out@[j] == fresh@[j - base.len()]);
                    }
                }
                assert forall|a: usize, b: usize, e: int|
                    0 <= e < c + 1 && a < b && #[trigger] first_meet(
                        self@,
                        e,
                        a,
                        b,
                    ) implies out@.contains((a, b)) by {
                    if e < c {
                        assert(base.contains((a, b)));
                        let j = choose|j: int| 0 <= j < base.len() && base[j] == (a, b);
                        assert(out@[j] == (a, b));
                    } else {
                        assert(fresh@.contains((a, b)));
                        let j = choose|j: int| 0 <= j < fresh@.len() && fresh@[j] == (a, b);
                        assert(out@[base.len() + j] == (a, b));
                    }
                }
                assert forall|x: int, y: int| 0 <= x < y < out@.len() implies pair_before(
                    self@,
                    #[trigger] out@[x],
                    #[trigger] out@[y],
                ) by {
                    if y < base.len() {
                        assert(out@[x] == base[x] && out@[y] == base[y]);
                    } else if x < base.len() {
                        assert(out@[x] == base[x]);
                        assert(out@[y] == fresh@[y - base.len()]);
                    } else {
                        assert(out@[x] == fresh@[x - base.len()]);
                        assert(out@[y] == fresh@[y - base.len()]);
                    }
                }
            }
            c += 1;
        }
        proof {
            assert forall|a: usize, b: usize| #[trigger]
                out@.contains((a, b)) <==> a < b && share_cell(self@, a, b) by {
                if out@.contains((a, b)) {
                    let j = choose|j: int| 0 <= j < out@.len() && out@[j] == (a, b);
                    assert(out@[j].0 < out@[j].1);
                    assert(both_in(self@, meeting_cell(self@, out@[j].0, out@[j].1), a, b));
                }
                if a < b && share_cell(self@, a, b) {
                    lemma_pair_met_somewhere(self@, a, b);
                    let e = choose|e: int| first_meet(self@, e, a, b);
                    assert(first_meet(self@, e, a, b));
                }
            }
        }
        out
    }
}

/// The cells after slot `i` has been entered into each cell that `hits`
/// names.
spec fn entered(start: Seq<Seq<usize>>, hits: Seq<usize>, i: usize) -> Seq<Seq<usize>> {
    Seq::new(
        start.len(),
        |e: int|
            if hits.contains(e as usize) {
                start[e].push(i)
            } else {
                start[e]
            },
    )
}

spec fn id(e: usize) -> usize {
    e
}

proof fn lemma_push_contains(s: Seq<usize>, x: usize)
    ensures
        forall|y: usize| #[trigger] s.push(x).contains(y) <==> s.contains(y) || y == x,
{
    assert forall|y: usize| #[trigger] s.push(x).contains(y) <==> s.contains(y) || y == x by {
        if s.push(x).contains(y) {
            let k = choose|k: int| 0 <= k < s.push(x).len() && s.push(x)[k] == y;
            if k < s.len() {
                assert(s[k] == y);
            }
        }
        if s.contains(y) {
            let k = choose|k: int| 0 <= k < s.len() && s[k] == y;
            assert(s.push(x)[k] == y);
        }
        if y == x {
            assert(s.push(x)[s.len() as int] == y);
        }
    }
}

/// Entering the next slot into the cells that it hit keeps the two indexes in
/// step.
proof fn lemma_entered(start: Seq<Seq<usize>>, homes: Seq<Seq<usize>>, hits: Seq<usize>, i: usize)
    requires
        cross_indexed(start, homes),
        homes.len() == i,
        rising(hits),
        forall|k: int| 0 <= k < hits.len() ==> #[trigger] hits[k] < start.len(),
    ensures
        cross_indexed(entered(start, hits, i), homes.push(hits)),
{
    let cells = entered(start, hits, i);
    let next = homes.push(hits);
    assert forall|c: int| 0 <= c < cells.len() implies rising(#[trigger] cells[c]) by {
        assert(rising(start[c]));
        if hits.contains(c as usize) {
            assert forall|a: int, b: int| 0 <= a < b < cells[c].len() implies cells[c][a]
                < cells[c][b] by {
                assert(start[c].contains(start[c][a]));
            }
        }
    }
    assert forall|j: int| 0 <= j < next.len() implies rising(#[trigger] next[j]) by {
        if j < homes.len() {
            assert(rising(homes[j]));
        }
    }
    assert forall|c: int, x: usize| 0 <= c < cells.len() && #[trigger] cells[c].contains(x) implies x
        < next.len() && next[x as int].contains(c as usize) by {
        if hits.contains(c as usize) {
            lemma_push_contains(start[c], i);
        }
        if x != i {
            assert(start[c].contains(x));
            assert(homes[x as int].contains(c as usize));
        }
    }
    assert forall|j: int, c: usize| 0 <= j < next.len() && #[trigger] next[j].contains(c) implies c
        < cells.len() && cells[c as int].contains(j as usize) by {
        if j < homes.len() {
            assert(homes[j].contains(c));
            assert(start[c as int].contains(j as usize));
            lemma_push_contains(start[c as int], i);
        } else {
            let k = choose|k: int| 0 <= k < hits.len() && hits[k] == c;
            lemma_push_contains(start[c as int], i);
        }
    }
}

/// Appends slot `i` to the members of cell `c` and leaves the other cells
/// alone.
fn push_member(cells: &mut Vec<Vec<usize>>, c: usize, i: usize)
    requires
        c < old(cells)@.len(),
    ensures
        final(cells)@.len() == old(cells)@.len(),
        final(cells)@[c as int]@ == old(cells)@[c as int]@.push(i),
        forall|d: int|
            0 <= d < old(cells)@.len() && d != c ==> #[trigger] final(cells)@[d] == old(cells)@[d],
{
    cells[c].push(i);
}

/// Whether `x` is in `list`.
fn holds(list: &Vec<usize>, x: usize) -> (found: bool)
    ensures
        found == list@.contains(x),
{
    let mut k: usize = 0;
    while k < list.len()
        invariant
            k <= list@.len(),
            forall|j: int| 0 <= j < k ==> list@[j] != x,
        decreases list@.len() - k,
    {
        if list[k] == x {
            return true;
        }
        k += 1;
    }
    false
}

/// `count` cells without members.
fn empty_cells(count: usize) -> (cells: Vec<Vec<usize>>)
    ensures
        cells@.len() == count,
        forall|c: int| 0 <= c < count ==> (#[trigger] cells@[c])@ == Seq::<usize>::empty(),
{
    let mut cells: Vec<Vec<usize>> = Vec::new();
    while cells.len() < count
        invariant
            cells@.len() <= count,
            forall|c: int| 0 <= c < cells@.len() ==> (#[trigger] cells@[c])@ == Seq::<usize>::empty(),
        decreases count - cells@.len(),
    {
        cells.push(Vec::new());
    }
    cells
}

/// A pair of slots is met first in at most one cell, so the lists that the
/// cells contribute never name the same pair twice.
pub proof fn lemma_pair_met_once(cells: Seq<Seq<usize>>, a: usize, b: usize, c: int, d: int)
    requires
        first_meet(cells, c, a, b),
        first_meet(cells, d, a, b),
    ensures
        c == d,
{
    if c < d {
        assert(both_in(cells, c, a, b));
    }
    if d < c {
        assert(both_in(cells, d, a, b));
    }
}

/// A list that keeps the order of candidate pairs names no pair twice: each
/// encounter is resolved at most once in a tick.
pub proof fn lemma_ordered_pairs_distinct(cells: Seq<Seq<usize>>, pairs: Seq<(usize, usize)>)
    requires
        forall|x: int, y: int|
            0 <= x < y < pairs.len() ==> pair_before(cells, #[trigger] pairs[x], #[trigger] pairs[y]),
    ensures
        pairs.no_duplicates(),
{
    assert forall|x: int, y: int|
        0 <= x < pairs.len() && 0 <= y < pairs.len() && x != y implies pairs[x] != pairs[y] by {
        if x < y {
            assert(pair_before(cells, pairs[x], pairs[y]));
        } else {
            assert(pair_before(cells, pairs[y], pairs[x]));
        }
    }
}

/// Where two slots are first met in cell `c`, `c` is their meeting cell.
pub proof fn lemma_meeting_cell(cells: Seq<Seq<usize>>, a: usize, b: usize, c: int)
    requires
        first_meet(cells, c, a, b),
    ensures
        meeting_cell(cells, a, b) == c,
{
    lemma_pair_met_once(cells, a, b, c, meeting_cell(cells, a, b));
}

/// Two slots that share any cell are met first in some cell, so no pair that
/// the broad phase puts together is left out.
pub proof fn lemma_pair_met_somewhere(cells: Seq<Seq<usize>>, a: usize, b: usize)
    requires
        share_cell(cells, a, b),
    ensures
        exists|c: int| first_meet(cells, c, a, b),
{
    let c = choose|c: int| both_in(cells, c, a, b);
    lemma_first_meet_upto(cells, a, b, c);
}

proof fn lemma_first_meet_upto(cells: Seq<Seq<usize>>, a: usize, b: usize, c: int)
    requires
        both_in(cells, c, a, b),
    ensures
        exists|e: int| first_meet(cells, e, a, b),
    decreases c,
{
    if forall|e: int| 0 <= e < c ==> !both_in(cells, e, a, b) {
        assert(first_meet(cells, c, a, b));
    } else {
        let e = choose|e: int| 0 <= e < c && both_in(cells, e, a, b);
        lemma_first_meet_upto(cells, a, b, e);
    }
}

} // verus!
