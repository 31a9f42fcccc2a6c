//! The mathematical model of the field and of one frame of the simulation.

use vstd::prelude::*;
use crate::grid::{Coord, in_bounds, neighbor_of, adjacent};

verus! {

/// Largest charge a cell holds at the start and end of a frame.
pub const MAX_CHARGE: u32 = 16;

/// Charge a valid source cell absorbs per frame.
pub const ABSORB_RATE: u32 = 1;

/// Distance of a cell with no known path to a source.
pub const UNREACHED: u64 = 0xffff_ffff_ffff_ffff;

/// Edge cost of a cell when none was set.
pub const DEFAULT_COST: u32 = 1;

/// The record of one cell.
#[derive(Clone, Copy, Debug, PartialEq, Eq, Structural)]
pub struct Cell {
    /// Permanent source flag.
    pub ground: bool,
    /// Cost of stepping into this cell.
    pub cost: u32,
    /// Units of charge held.
    pub charge: u32,
    /// A path to a source is known.
    pub valid: bool,
    /// Best known distance to a source; meaningful only where `valid`.
    pub distance: u64,
    /// Next hop toward a source: a neighbour, or the cell itself.
    pub forward: Coord,
}

/// The whole field: `cells[y][x]` is the cell at column `x` of row `y`.
pub ghost struct FieldModel {
    pub width: nat,
    pub height: nat,
    pub cells: Seq<Seq<Cell>>,
}

impl FieldModel {
    pub open spec fn at(self, c: Coord) -> Cell {
        self.cells[c.y as int][c.x as int]
    }

    pub open spec fn contains(self, c: Coord) -> bool {
        in_bounds(self.width, self.height, c)
    }

    pub open spec fn neighbor(self, c: Coord, d: int) -> Option<Coord> {
        neighbor_of(self.width, self.height, c, d)
    }

    pub open spec fn shaped(self) -> bool {
        &&& 0 < self.width <= usize::MAX
        &&& 0 < self.height <= usize::MAX
        &&& self.cells.len() == self.height
        &&& forall|y: int| 0 <= y < self.height ==> (#[trigger] self.cells[y]).len() == self.width
    }

    /// Well-formed: the shape is right, every charge is within bounds, and
    /// every forwarding pointer names the cell itself or one of its neighbours.
    pub open spec fn wf(self) -> bool {
        &&& self.shaped()
        &&& forall|c: Coord| #[trigger] self.contains(c) ==> {
            &&& self.at(c).charge <= MAX_CHARGE
            &&& (self.at(c).forward == c || adjacent(self.width, self.height, c, self.at(c).forward))
        }
    }

    /// The field with every cell replaced by `f` of its coordinate.
    pub open spec fn map_cells(self, f: spec_fn(Coord) -> Cell) -> FieldModel {
        FieldModel {
            width: self.width,
            height: self.height,
            cells: Seq::new(
                self.height,
                |y: int| Seq::new(self.width, |x: int| f(Coord { x: x as usize, y: y as usize })),
            ),
        }
    }

    /// The field with the cell at `c` replaced by `cell`.
    pub open spec fn with_cell(self, c: Coord, cell: Cell) -> FieldModel {
        FieldModel {
            cells: self.cells.update(c.y as int, self.cells[c.y as int].update(c.x as int, cell)),
            ..self
        }
    }
}

/// A cell with nothing on it.
pub open spec fn blank_cell(c: Coord) -> Cell {
    Cell {
        ground: false,
        cost: DEFAULT_COST,
        charge: 0,
        valid: false,
        distance: UNREACHED,
        forward: c,
    }
}

/// A `width` by `height` field of blank cells.
pub open spec fn blank(width: nat, height: nat) -> FieldModel {
    FieldModel { width, height, cells: Seq::empty() }.map_cells(|c: Coord| blank_cell(c))
}

/// `a + b`, saturating at the largest distance.
pub open spec fn sat_add(a: u64, b: u32) -> u64 {
    if a as int + b as int > UNREACHED as int {
        UNREACHED
    } else {
        (a + b) as u64
    }
}

/// What a cell's best route is: found, distance, next hop.
pub type Route = (bool, u64, Coord);

/// Distance to a source through the neighbour `n` of `c`, if `n` is valid.
pub open spec fn candidate(m: FieldModel, c: Coord, n: Option<Coord>) -> Option<u64> {
    match n {
        Some(n) => if m.at(n).valid {
            Some(sat_add(m.at(n).distance, m.at(c).cost))
        } else {
            None
        },
        None => None,
    }
}

/// The best route of `c` after looking at its own previous route and its
/// first `k` neighbours in enumeration order. A later candidate replaces the
/// route held only when it is strictly shorter.
pub open spec fn best_route(m: FieldModel, c: Coord, k: int) -> Route
    decreases k,
{
    if k <= 0 {
        (m.at(c).valid, m.at(c).distance, m.at(c).forward)
    } else {
        let prev = best_route(m, c, k - 1);
        match candidate(m, c, m.neighbor(c, k - 1)) {
            Some(d) => if !prev.0 || d < prev.1 {
                (true, d, m.neighbor(c, k - 1)->0)
            } else {
                prev
            },
            None => prev,
        }
    }
}

/// The cell at `c` after the propagation pass, read from the previous field.
pub open spec fn relaxed_cell(m: FieldModel, c: Coord) -> Cell {
    let old = m.at(c);
    if old.ground {
        Cell { valid: true, distance: 0, forward: c, ..old }
    } else {
        let r = best_route(m, c, 4);
        Cell { valid: r.0, distance: r.1, forward: r.2, ..old }
    }
}

/// The field after one propagation pass.
pub open spec fn propagated(m: FieldModel) -> FieldModel {
    m.map_cells(|c: Coord| relaxed_cell(m, c))
}

/// The cell at `c` moves one unit to its forwarding neighbour this frame:
/// it is valid, charged, no source, forwards elsewhere, and the neighbour was
/// below capacity at the start of the transport pass.
pub open spec fn sends(m: FieldModel, c: Coord) -> bool {
    let e = m.at(c);
    &&& e.valid
    &&& e.charge > 0
    &&& !e.ground
    &&& e.forward != c
    &&& m.at(e.forward).charge < MAX_CHARGE
}

/// The cell at `c` is a valid, charged source and absorbs charge this frame.
pub open spec fn absorbs(m: FieldModel, c: Coord) -> bool {
    let e = m.at(c);
    e.valid && e.charge > 0 && e.ground
}

/// Units that leave `c` this frame.
pub open spec fn outflow(m: FieldModel, c: Coord) -> int {
    if sends(m, c) {
        1
    } else if absorbs(m, c) {
        ABSORB_RATE as int
    } else {
        0
    }
}

/// 1 when the neighbour of `c` in direction `d` sends its unit to `c`.
pub open spec fn inflow_from(m: FieldModel, c: Coord, d: int) -> int {
    match m.neighbor(c, d) {
        Some(n) => if sends(m, n) && m.at(n).forward == c { 1 } else { 0 },
        None => 0,
    }
}

/// Units that arrive at `c` this frame.
pub open spec fn inflow(m: FieldModel, c: Coord) -> int {
    inflow_from(m, c, 0) + inflow_from(m, c, 1) + inflow_from(m, c, 2) + inflow_from(m, c, 3)
}

/// The staged charge of `c` after every transfer of the frame; it may exceed
/// `MAX_CHARGE` when several neighbours push into `c` at once.
pub open spec fn staged(m: FieldModel, c: Coord) -> int {
    m.at(c).charge + inflow(m, c) - outflow(m, c)
}

/// The commit policy: staged charge is clamped to `MAX_CHARGE`.
pub open spec fn clamp_charge(s: int) -> u32 {
    if s > MAX_CHARGE { MAX_CHARGE } else { s as u32 }
}

/// The field after the commit of staged charges `s` (indexed by row, then column).
pub open spec fn committed(m: FieldModel, s: Seq<Seq<u32>>) -> FieldModel {
    m.map_cells(|c: Coord| charged_with(m.at(c), s[c.y as int][c.x as int]))
}

/// `cell` holding the staged charge `s` after the clamp.
pub open spec fn charged_with(cell: Cell, s: u32) -> Cell {
    Cell { charge: clamp_charge(s as int), ..cell }
}

/// The staged charges of the whole field.
pub open spec fn staging(m: FieldModel) -> Seq<Seq<u32>> {
    Seq::new(m.height, |y: int| Seq::new(m.width, |x: int| staged(m, Coord { x: x as usize, y: y as usize }) as u32))
}

/// The field after transport and commit.
pub open spec fn transported(m: FieldModel) -> FieldModel {
    committed(m, staging(m))
}

/// One full frame after the edits: propagation, transport, commit.
pub open spec fn frame(m: FieldModel) -> FieldModel {
    transported(propagated(m))
}

/// The field after `k` frames without edits.
pub open spec fn run(m: FieldModel, k: nat) -> FieldModel
    decreases k,
{
    if k == 0 { m } else { frame(run(m, (k - 1) as nat)) }
}

/// The source-painting edit.
pub open spec fn painted(m: FieldModel, c: Coord) -> FieldModel {
    m.with_cell(c, Cell { ground: true, ..m.at(c) })
}

/// The charge-injection edit.
pub open spec fn injected(m: FieldModel, c: Coord, amount: u32) -> FieldModel {
    m.with_cell(c, Cell { charge: amount, ..m.at(c) })
}

} // verus!

verus! {

/// An adjacent cell lies on the grid.
pub proof fn lemma_adjacent_in_bounds(width: nat, height: nat, a: Coord, b: Coord)
    requires
        in_bounds(width, height, a),
        adjacent(width, height, a, b),
    ensures
        in_bounds(width, height, b),
{
    let d = choose|d: int| 0 <= d < 4 && #[trigger] neighbor_of(width, height, a, d) == Some(b);
    crate::grid::lemma_neighbor_in_bounds(width, height, a, d);
}

/// The next hop of a best route is the previous one or a neighbour.
pub proof fn lemma_best_route_forward(m: FieldModel, c: Coord, k: int)
    requires
        0 <= k <= 4,
    ensures
        best_route(m, c, k).2 == m.at(c).forward || adjacent(m.width, m.height, c, best_route(m, c, k).2),
    decreases k,
{
    if k > 0 {
        lemma_best_route_forward(m, c, k - 1);
        let prev = best_route(m, c, k - 1);
        match candidate(m, c, m.neighbor(c, k - 1)) {
            Some(d) => if !prev.0 || d < prev.1 {
                assert(neighbor_of(m.width, m.height, c, k - 1) == Some(best_route(m, c, k).2));
            },
            None => {},
        }
    }
}

/// The propagation pass keeps the field well-formed.
pub proof fn lemma_propagated_wf(m: FieldModel)
    requires
        m.wf(),
    ensures
        propagated(m).wf(),
        propagated(m).width == m.width,
        propagated(m).height == m.height,
{
    let p = propagated(m);
    assert forall|c: Coord| #[trigger] p.contains(c) implies {
        &&& p.at(c).charge <= MAX_CHARGE
        &&& (p.at(c).forward == c || adjacent(p.width, p.height, c, p.at(c).forward))
    } by {
        assert(p.at(c) == relaxed_cell(m, c));
        assert(m.contains(c));
        lemma_best_route_forward(m, c, 4);
    }
}

/// Committing any staged charges keeps the field well-formed.
pub proof fn lemma_committed_wf(m: FieldModel, s: Seq<Seq<u32>>)
    requires
        m.wf(),
    ensures
        committed(m, s).wf(),
        committed(m, s).width == m.width,
        committed(m, s).height == m.height,
{
    let p = committed(m, s);
    assert forall|c: Coord| #[trigger] p.contains(c) implies {
        &&& p.at(c).charge <= MAX_CHARGE
        &&& (p.at(c).forward == c || adjacent(p.width, p.height, c, p.at(c).forward))
    } by {
        assert(m.contains(c));
    }
}

} // verus!

verus! {

/// The plain values held by rows of vectors.
pub open spec fn rows_of(v: Seq<Vec<u32>>) -> Seq<Seq<u32>> {
    Seq::new(v.len(), |y: int| v[y]@)
}

/// Staged charges of a well-formed field lie between 0 and `MAX_CHARGE + 4`.
pub proof fn lemma_staged_range(m: FieldModel, c: Coord)
    requires
        m.wf(),
        m.contains(c),
    ensures
        0 <= staged(m, c) <= MAX_CHARGE + 4,
{
}

} // verus!

verus! {

/// A route that was found stays found.
pub proof fn lemma_best_route_found(m: FieldModel, c: Coord, k: int)
    requires
        0 <= k <= 4,
    ensures
        best_route(m, c, k).0 <==> (m.at(c).valid || exists|d: int|
            0 <= d < k && #[trigger] candidate(m, c, m.neighbor(c, d)) is Some),
    decreases k,
{
    if k > 0 {
        lemma_best_route_found(m, c, k - 1);
        if best_route(m, c, k - 1).0 {
            let d = choose|d: int| 0 <= d < k - 1 && #[trigger] candidate(m, c, m.neighbor(c, d)) is Some;
        }
    }
}

/// What one frame does to a cell: its source flag stays, it becomes valid if
/// it is a source, was valid, or has a valid neighbour, and only its charge
/// comes from the transport pass.
pub proof fn lemma_frame_cell(m: FieldModel, c: Coord)
    requires
        m.wf(),
        m.contains(c),
    ensures
        frame(m).at(c).ground == m.at(c).ground,
        frame(m).at(c).cost == m.at(c).cost,
        frame(m).at(c).valid <==> (m.at(c).ground || m.at(c).valid || exists|d: int|
            0 <= d < 4 && #[trigger] m.neighbor(c, d) is Some && m.at(m.neighbor(c, d)->0).valid),
        frame(m).at(c).distance == propagated(m).at(c).distance,
        frame(m).at(c).forward == propagated(m).at(c).forward,
        frame(m).at(c).charge == clamp_charge(staged(propagated(m), c)),
        frame(m).at(c).charge <= MAX_CHARGE,
        propagated(m).at(c) == relaxed_cell(m, c),
{
    let p = propagated(m);
    lemma_propagated_wf(m);
    lemma_staged_range(p, c);
    assert(p.at(c) == relaxed_cell(m, c));
    lemma_best_route_found(m, c, 4);
    if !m.at(c).ground && !m.at(c).valid {
        if best_route(m, c, 4).0 {
            let d = choose|d: int| 0 <= d < 4 && #[trigger] candidate(m, c, m.neighbor(c, d)) is Some;
            assert(m.neighbor(c, d) is Some && m.at(m.neighbor(c, d)->0).valid);
        }
        if exists|d: int| 0 <= d < 4 && #[trigger] m.neighbor(c, d) is Some && m.at(m.neighbor(c, d)->0).valid {
            let d = choose|d: int| 0 <= d < 4 && #[trigger] m.neighbor(c, d) is Some && m.at(m.neighbor(c, d)->0).valid;
            assert(candidate(m, c, m.neighbor(c, d)) is Some);
        }
    }
}

} // verus!
