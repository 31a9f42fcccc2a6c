//! The executable field: its cells, the edits, and the per-frame passes.

use vstd::prelude::*;
use crate::grid::{Coord, DIRECTIONS, neighbor, lemma_neighbor_in_bounds};
use crate::model::{
    Cell, FieldModel, UNREACHED, sat_add, best_route, relaxed_cell, propagated,
    lemma_propagated_wf, sends, absorbs, inflow_from, staged, staging, rows_of, committed,
    lemma_committed_wf, lemma_adjacent_in_bounds, lemma_staged_range, charged_with, MAX_CHARGE,
    ABSORB_RATE, frame, blank, blank_cell, DEFAULT_COST, painted, injected,
};

verus! {

/// A fixed-size grid of cells, stored row by row.
pub struct Field {
    width: usize,
    height: usize,
    rows: Vec<Vec<Cell>>,
}

impl View for Field {
    type V = FieldModel;

    closed spec fn view(&self) -> FieldModel {
        FieldModel {
            width: self.width as nat,
            height: self.height as nat,
            cells: Seq::new(self.rows@.len(), |y: int| self.rows@[y]@),
        }
    }
}

/// `a + b`, saturating at the largest distance.
fn add_cost(a: u64, b: u32) -> (r: u64)
    ensures
        r == sat_add(a, b),
{
    if a > UNREACHED - (b as u64) {
        UNREACHED
    } else {
        a + b as u64
    }
}

impl Field {
    /// Width in cells.
    pub fn width(&self) -> (r: usize)
        ensures
            r == self@.width,
    {
        self.width
    }

    /// Height in cells.
    pub fn height(&self) -> (r: usize)
        ensures
            r == self@.height,
    {
        self.height
    }

    /// The record of the cell at `c`.
    pub fn cell(&self, c: Coord) -> (r: Cell)
        requires
            self@.wf(),
            self@.contains(c),
        ensures
            r == self@.at(c),
    {
        self.rows[c.y][c.x]
    }

    /// The cell at `c` after the propagation pass of this frame.
    fn relax_cell(&self, c: Coord) -> (r: Cell)
        requires
            self@.wf(),
            self@.contains(c),
        ensures
            r == relaxed_cell(self@, c),
    {
        let old = self.rows[c.y][c.x];
        if old.ground {
            return Cell { valid: true, distance: 0, forward: c, ..old };
        }
        let mut found = old.valid;
        let mut dist = old.distance;
        let mut fwd = old.forward;
        let mut d: usize = 0;
        while d < DIRECTIONS
            invariant
                self@.wf(),
                self@.contains(c),
                old == self@.at(c),
                d <= DIRECTIONS,
                (found, dist, fwd) == best_route(self@, c, d as int),
            decreases DIRECTIONS - d,
        {
            let nb = neighbor(self.width, self.height, c, d);
            proof {
                lemma_neighbor_in_bounds(self@.width, self@.height, c, d as int);
            }
            match nb {
                Some(n) => {
                    assert(self@.cells[n.y as int].len() == self.width);
                    let ncell = self.rows[n.y][n.x];
                    if ncell.valid {
                        let cand = add_cost(ncell.distance, old.cost);
                        if !found || cand < dist {
                            found = true;
                            dist = cand;
                            fwd = n;
                        }
                    }
                },
                None => {},
            }
            d += 1;
        }
        Cell { valid: found, distance: dist, forward: fwd, ..old }
    }

    /// The propagation pass: every cell's route is relaxed once, from the
    /// values the field held before the pass.
    pub fn propagate(&mut self)
        requires
            old(self)@.wf(),
        ensures
            final(self)@ == propagated(old(self)@),
            final(self)@.wf(),
    {
        let mut rows: Vec<Vec<Cell>> = Vec::new();
        let mut y: usize = 0;
        while y < self.height
            invariant
                self@.wf(),
                y <= self.height,
                rows@.len() == y,
                forall|yy: int, xx: int|
                    0 <= yy < y && 0 <= xx < self.width ==> #[trigger] rows@[yy]@[xx] == relaxed_cell(
                        self@,
                        Coord { x: xx as usize, y: yy as usize },
                    ),
                forall|yy: int| 0 <= yy < y ==> (#[trigger] rows@[yy]@).len() == self.width,
            decreases self.height - y,
        {
            let mut row: Vec<Cell> = Vec::new();
            let mut x: usize = 0;
            while x < self.width
                invariant
                    self@.wf(),
                    y < self.height,
                    x <= self.width,
                    row@.len() == x,
                    forall|xx: int|
                        0 <= xx < x ==> #[trigger] row@[xx] == relaxed_cell(
                            self@,
                            Coord { x: xx as usize, y: y },
                        ),
                decreases self.width - x,
            {
                let cell = self.relax_cell(Coord { x, y });
                row.push(cell);
                x += 1;
            }
            rows.push(row);
            y += 1;
        }
        let ghost before = self@;
        self.rows = rows;
        proof {
            let p = propagated(before);
            assert(self@.cells =~~= p.cells);
            lemma_propagated_wf(before);
        }
    }

    /// The cell at `c` moves a unit to its forwarding neighbour this frame.
    fn sends_at(&self, c: Coord) -> (r: bool)
        requires
            self@.wf(),
            self@.contains(c),
        ensures
            r == sends(self@, c),
    {
        let e = self.rows[c.y][c.x];
        if !e.valid || e.charge == 0 || e.ground || e.forward == c {
            return false;
        }
        proof {
            lemma_adjacent_in_bounds(self@.width, self@.height, c, e.forward);
            assert(self@.cells[e.forward.y as int].len() == self.width);
        }
        self.rows[e.forward.y][e.forward.x].charge < MAX_CHARGE
    }

    /// 1 when the neighbour of `c` in direction `d` sends its unit into `c`.
    fn inflow_at(&self, c: Coord, d: usize) -> (r: u32)
        requires
            self@.wf(),
            self@.contains(c),
        ensures
            r == inflow_from(self@, c, d as int),
            r <= 1,
    {
        proof {
            lemma_neighbor_in_bounds(self@.width, self@.height, c, d as int);
        }
        match neighbor(self.width, self.height, c, d) {
            Some(n) => {
                assert(self@.cells[n.y as int].len() == self.width);
                if self.sends_at(n) && self.rows[n.y][n.x].forward == c {
                    1
                } else {
                    0
                }
            },
            None => 0,
        }
    }

    /// The staged charge of `c` once every transfer of the frame is applied.
    fn staged_at(&self, c: Coord) -> (r: u32)
        requires
            self@.wf(),
            self@.contains(c),
        ensures
            r == staged(self@, c),
    {
        let e = self.rows[c.y][c.x];
        let inflow = self.inflow_at(c, 0) + self.inflow_at(c, 1) + self.inflow_at(c, 2)
            + self.inflow_at(c, 3);
        let outflow: u32 = if self.sends_at(c) {
            1
        } else if e.valid && e.charge > 0 && e.ground {
            ABSORB_RATE
        } else {
            0
        };
        proof {
            lemma_staged_range(self@, c);
            assert(absorbs(self@, c) == (e.valid && e.charge > 0 && e.ground));
        }
        e.charge + inflow - outflow
    }

    /// The transport pass: the staged charge of every cell, computed from the
    /// charges and routes the field holds. A staged value may exceed
    /// `MAX_CHARGE` where several neighbours push into one cell.
    pub fn transport(&self) -> (r: Vec<Vec<u32>>)
        requires
            self@.wf(),
        ensures
            rows_of(r@) == staging(self@),
    {
        let mut rows: Vec<Vec<u32>> = Vec::new();
        let mut y: usize = 0;
        while y < self.height
            invariant
                self@.wf(),
                y <= self.height,
                rows@.len() == y,
                forall|yy: int, xx: int|
                    0 <= yy < y && 0 <= xx < self.width ==> #[trigger] rows@[yy]@[xx] == staged(
                        self@,
                        Coord { x: xx as usize, y: yy as usize },
                    ),
                forall|yy: int| 0 <= yy < y ==> (#[trigger] rows@[yy]@).len() == self.width,
            decreases self.height - y,
        {
            let mut row: Vec<u32> = Vec::new();
            let mut x: usize = 0;
            while x < self.width
                invariant
                    self@.wf(),
                    y < self.height,
                    x <= self.width,
                    row@.len() == x,
                    forall|xx: int|
                        0 <= xx < x ==> #[trigger] row@[xx] == staged(
                            self@,
                            Coord { x: xx as usize, y: y },
                        ),
                decreases self.width - x,
            {
                let v = self.staged_at(Coord { x, y });
                row.push(v);
                x += 1;
            }
            rows.push(row);
            y += 1;
        }
        assert(rows_of(rows@) =~~= staging(self@));
        rows
    }

    /// The commit: each cell's charge becomes its staged charge, clamped to
    /// `MAX_CHARGE`.
    pub fn commit(&mut self, staged: &Vec<Vec<u32>>)
        requires
            old(self)@.wf(),
            staged@.len() == old(self)@.height,
            forall|y: int| 0 <= y < staged@.len() ==> (#[trigger] staged@[y])@.len() == old(self)@.width,
        ensures
            final(self)@ == committed(old(self)@, rows_of(staged@)),
            final(self)@.wf(),
    {
        let ghost before = self@;
        let mut rows: Vec<Vec<Cell>> = Vec::new();
        let mut y: usize = 0;
        while y < self.height
            invariant
                self@ == before,
                self@.wf(),
                staged@.len() == self.height,
                forall|y: int| 0 <= y < staged@.len() ==> (#[trigger] staged@[y])@.len() == self.width,
                y <= self.height,
                rows@.len() == y,
                forall|yy: int, xx: int|
                    0 <= yy < y && 0 <= xx < self.width ==> #[trigger] rows@[yy]@[xx] == charged_with(
                        self@.cells[yy][xx],
                        staged@[yy]@[xx],
                    ),
                forall|yy: int| 0 <= yy < y ==> (#[trigger] rows@[yy]@).len() == self.width,
            decreases self.height - y,
        {
            let mut row: Vec<Cell> = Vec::new();
            let mut x: usize = 0;
            assert(self@.cells[y as int].len() == self.width);
            while x < self.width
                invariant
                    self@ == before,
                    self@.wf(),
                    staged@.len() == self.height,
                    forall|y: int| 0 <= y < staged@.len() ==> (#[trigger] staged@[y])@.len() == self.width,
                    self@.cells[y as int].len() == self.width,
                    y < self.height,
                    x <= self.width,
                    row@.len() == x,
                    forall|xx: int|
                        0 <= xx < x ==> #[trigger] row@[xx] == charged_with(
                            self@.cells[y as int][xx],
                            staged@[y as int]@[xx],
                        ),
                decreases self.width - x,
            {
                let s = staged[y][x];
                let charge = if s > MAX_CHARGE {
                    MAX_CHARGE
                } else {
                    s
                };
                let cell = Cell { charge, ..self.rows[y][x] };
                row.push(cell);
                x += 1;
            }
            rows.push(row);
            y += 1;
        }
        self.rows = rows;
        proof {
            assert(self@.cells =~~= committed(before, rows_of(staged@)).cells);
            lemma_committed_wf(before, rows_of(staged@));
        }
    }

    /// A `width` by `height` field of blank cells: no sources, no charge,
    /// nothing valid, unit cost, each cell forwarding to itself.
    pub fn new(width: usize, height: usize) -> (r: Field)
        requires
            width > 0,
            height > 0,
        ensures
            r@ == blank(width as nat, height as nat),
            r@.wf(),
    {
        let mut rows: Vec<Vec<Cell>> = Vec::new();
        let mut y: usize = 0;
        while y < height
            invariant
                y <= height,
                rows@.len() == y,
                forall|yy: int, xx: int|
                    0 <= yy < y && 0 <= xx < width ==> #[trigger] rows@[yy]@[xx] == blank_cell(
                        Coord { x: xx as usize, y: yy as usize },
                    ),
                forall|yy: int| 0 <= yy < y ==> (#[trigger] rows@[yy]@).len() == width,
            decreases height - y,
        {
            let mut row: Vec<Cell> = Vec::new();
            let mut x: usize = 0;
            while x < width
                invariant
                    y < height,
                    x <= width,
                    row@.len() == x,
                    forall|xx: int|
                        0 <= xx < x ==> #[trigger] row@[xx] == blank_cell(Coord { x: xx as usize, y: y }),
                decreases width - x,
            {
                row.push(
                    Cell {
                        ground: false,
                        cost: DEFAULT_COST,
                        charge: 0,
                        valid: false,
                        distance: UNREACHED,
                        forward: Coord { x, y },
                    },
                );
                x += 1;
            }
            rows.push(row);
            y += 1;
        }
        let r = Field { width, height, rows };
        assert(r@.cells =~~= blank(width as nat, height as nat).cells);
        r
    }

    /// Replaces the cell at `c`.
    fn put(&mut self, c: Coord, cell: Cell)
        requires
            old(self)@.shaped(),
            old(self)@.contains(c),
        ensures
            final(self)@ == old(self)@.with_cell(c, cell),
    {
        let ghost before = self@;
        assert(self@.cells[c.y as int].len() == self.width);
        let mut row: Vec<Cell> = Vec::new();
        let mut x: usize = 0;
        while x < self.width
            invariant
                self@ == before,
                self@.shaped(),
                self@.contains(c),
                self.rows@[c.y as int]@.len() == self.width,
                x <= self.width,
                row@.len() == x,
                forall|xx: int|
                    0 <= xx < x ==> #[trigger] row@[xx] == self@.cells[c.y as int].update(
                        c.x as int,
                        cell,
                    )[xx],
            decreases self.width - x,
        {
            if x == c.x {
                row.push(cell);
            } else {
                row.push(self.rows[c.y][x]);
            }
            x += 1;
        }
        self.rows.set(c.y, row);
        assert(self@.cells =~~= before.with_cell(c, cell).cells);
    }

    /// Marks the cell at `c` as a permanent source. Painting a source twice
    /// changes nothing.
    pub fn paint_source(&mut self, c: Coord)
        requires
            old(self)@.wf(),
            old(self)@.contains(c),
        ensures
            final(self)@ == painted(old(self)@, c),
            final(self)@.wf(),
    {
        let cell = self.rows[c.y][c.x];
        self.put(c, Cell { ground: true, ..cell });
        proof {
            let m = final(self)@;
            assert forall|e: Coord| #[trigger] m.contains(e) implies {
                &&& m.at(e).charge <= MAX_CHARGE
                &&& (m.at(e).forward == e || crate::grid::adjacent(m.width, m.height, e, m.at(e).forward))
            } by {
                assert(old(self)@.contains(e));
            }
        }
    }

    /// Sets the charge of the cell at `c` to `amount`, overwriting what it held.
    pub fn inject_charge(&mut self, c: Coord, amount: u32)
        requires
            old(self)@.wf(),
            old(self)@.contains(c),
            amount <= MAX_CHARGE,
        ensures
            final(self)@ == injected(old(self)@, c, amount),
            final(self)@.wf(),
    {
        let cell = self.rows[c.y][c.x];
        self.put(c, Cell { charge: amount, ..cell });
        proof {
            let m = final(self)@;
            assert forall|e: Coord| #[trigger] m.contains(e) implies {
                &&& m.at(e).charge <= MAX_CHARGE
                &&& (m.at(e).forward == e || crate::grid::adjacent(m.width, m.height, e, m.at(e).forward))
            } by {
                assert(old(self)@.contains(e));
            }
        }
    }

    /// Sets the cost of stepping into the cell at `c`.
    pub fn set_cost(&mut self, c: Coord, cost: u32)
        requires
            old(self)@.wf(),
            old(self)@.contains(c),
        ensures
            final(self)@ == old(self)@.with_cell(c, Cell { cost, ..old(self)@.at(c) }),
            final(self)@.wf(),
    {
        let cell = self.rows[c.y][c.x];
        self.put(c, Cell { cost, ..cell });
        proof {
            let m = final(self)@;
            assert forall|e: Coord| #[trigger] m.contains(e) implies {
                &&& m.at(e).charge <= MAX_CHARGE
                &&& (m.at(e).forward == e || crate::grid::adjacent(m.width, m.height, e, m.at(e).forward))
            } by {
                assert(old(self)@.contains(e));
            }
        }
    }

    /// Runs one frame after the edits: propagation, transport and commit.
    /// Sources stay sources, valid cells stay valid, and every charge stays
    /// within `0..=MAX_CHARGE`.
    pub fn step(&mut self)
        requires
            old(self)@.wf(),
        ensures
            final(self)@ == frame(old(self)@),
            final(self)@.wf(),
            final(self)@.width == old(self)@.width,
            final(self)@.height == old(self)@.height,
            forall|c: Coord|
                #[trigger] old(self)@.contains(c) ==> {
                    &&& final(self)@.at(c).ground == old(self)@.at(c).ground
                    &&& (old(self)@.at(c).valid ==> final(self)@.at(c).valid)
                    &&& final(self)@.at(c).charge <= MAX_CHARGE
                },
    {
        self.propagate();
        let staged = self.transport();
        proof {
            assert(rows_of(staged@).len() == staging(self@).len());
            assert forall|y: int| 0 <= y < staged@.len() implies (#[trigger] staged@[y])@.len() == self@.width by {
                assert(rows_of(staged@)[y] == staged@[y]@);
                assert(staging(self@)[y].len() == self@.width);
            }
        }
        self.commit(&staged);
        proof {
            assert forall|c: Coord| #[trigger] old(self)@.contains(c) implies {
                &&& final(self)@.at(c).ground == old(self)@.at(c).ground
                &&& (old(self)@.at(c).valid ==> final(self)@.at(c).valid)
                &&& final(self)@.at(c).charge <= MAX_CHARGE
            } by {
                crate::model::lemma_frame_cell(old(self)@, c);
            }
        }
    }
}

} // verus!
