//! Laws of the simulation over any number of frames.

use vstd::prelude::*;
use crate::grid::{Coord, adjacent, manhattan, neighbor_of, lemma_manhattan_step, lemma_neighbor_in_bounds};
use crate::model::{
    FieldModel, MAX_CHARGE, ABSORB_RATE, frame, run, propagated, staged, sends, absorbs, inflow,
    lemma_frame_cell, lemma_propagated_wf, lemma_committed_wf, staging, best_route, candidate,
    painted, injected, Cell, relaxed_cell,
};

verus! {

/// Frames keep a field well-formed, with its size.
pub proof fn lemma_frame_wf(m: FieldModel)
    requires
        m.wf(),
    ensures
        frame(m).wf(),
        frame(m).width == m.width,
        frame(m).height == m.height,
{
    lemma_propagated_wf(m);
    lemma_committed_wf(propagated(m), staging(propagated(m)));
}

/// Over any number of frames without edits, every source stays a source and
/// no cell becomes one, every valid cell stays valid, and every charge stays
/// within `0..=MAX_CHARGE`.
pub proof fn frames_are_monotone_and_bounded(m: FieldModel, k: nat)
    requires
        m.wf(),
    ensures
        run(m, k).wf(),
        run(m, k).width == m.width,
        run(m, k).height == m.height,
        forall|c: Coord|
            #[trigger] m.contains(c) ==> {
                &&& run(m, k).at(c).ground == m.at(c).ground
                &&& (m.at(c).valid ==> run(m, k).at(c).valid)
                &&& run(m, k).at(c).charge <= MAX_CHARGE
            },
    decreases k,
{
    if k > 0 {
        let prev = run(m, (k - 1) as nat);
        frames_are_monotone_and_bounded(m, (k - 1) as nat);
        lemma_frame_wf(prev);
        assert forall|c: Coord| #[trigger] m.contains(c) implies {
            &&& run(m, k).at(c).ground == m.at(c).ground
            &&& (m.at(c).valid ==> run(m, k).at(c).valid)
            &&& run(m, k).at(c).charge <= MAX_CHARGE
        } by {
            assert(prev.contains(c));
            lemma_frame_cell(prev, c);
        }
    }
}

/// After `k` frames from a field with one source at `s` and no valid cell,
/// the valid cells are exactly those closer than `k` steps to `s`.
proof fn lemma_wavefront(m: FieldModel, s: Coord, k: nat)
    requires
        m.wf(),
        m.contains(s),
        forall|c: Coord| #[trigger] m.contains(c) ==> (m.at(c).ground <==> c == s),
        forall|c: Coord| #[trigger] m.contains(c) ==> !m.at(c).valid,
    ensures
        forall|c: Coord| #[trigger] m.contains(c) ==> (run(m, k).at(c).valid <==> manhattan(c, s) < k),
    decreases k,
{
    if k > 0 {
        let prev = run(m, (k - 1) as nat);
        lemma_wavefront(m, s, (k - 1) as nat);
        frames_are_monotone_and_bounded(m, (k - 1) as nat);
        assert forall|c: Coord| #[trigger] m.contains(c) implies (run(m, k).at(c).valid <==> manhattan(
            c,
            s,
        ) < k) by {
            assert(prev.contains(c));
            lemma_frame_cell(prev, c);
            lemma_manhattan_step(m.width, m.height, c, s, k - 2);
            let near = exists|d: int|
                0 <= d < 4 && #[trigger] neighbor_of(m.width, m.height, c, d) is Some && manhattan(
                    neighbor_of(m.width, m.height, c, d)->0,
                    s,
                ) <= k - 2;
            let lit = exists|d: int|
                0 <= d < 4 && #[trigger] prev.neighbor(c, d) is Some && prev.at(prev.neighbor(c, d)->0).valid;
            if near {
                let d = choose|d: int|
                    0 <= d < 4 && #[trigger] neighbor_of(m.width, m.height, c, d) is Some && manhattan(
                        neighbor_of(m.width, m.height, c, d)->0,
                        s,
                    ) <= k - 2;
                lemma_neighbor_in_bounds(m.width, m.height, c, d);
                assert(m.contains(prev.neighbor(c, d)->0));
                assert(prev.neighbor(c, d) is Some && prev.at(prev.neighbor(c, d)->0).valid);
            }
            if lit {
                let d = choose|d: int|
                    0 <= d < 4 && #[trigger] prev.neighbor(c, d) is Some && prev.at(prev.neighbor(c, d)->0).valid;
                lemma_neighbor_in_bounds(m.width, m.height, c, d);
                assert(m.contains(prev.neighbor(c, d)->0));
                assert(neighbor_of(m.width, m.height, c, d) is Some && manhattan(
                    neighbor_of(m.width, m.height, c, d)->0,
                    s,
                ) <= k - 2);
            }
        }
    }
}

/// The wavefront law: with a single source at `s`, no valid cell at the
/// start, and no edits, after frame `k` (frames are counted from 0) a cell is
/// valid exactly when its 4-connected distance to `s` is at most `k`.
pub proof fn wavefront_law(m: FieldModel, s: Coord, k: nat)
    requires
        m.wf(),
        m.contains(s),
        forall|c: Coord| #[trigger] m.contains(c) ==> (m.at(c).ground <==> c == s),
        forall|c: Coord| #[trigger] m.contains(c) ==> !m.at(c).valid,
    ensures
        forall|c: Coord| #[trigger] m.contains(c) ==> (run(m, k + 1).at(c).valid <==> manhattan(c, s) <= k),
{
    lemma_wavefront(m, s, k + 1);
}

/// Sum of the charges of row `y`, over its first `x` cells.
pub open spec fn row_charge(m: FieldModel, y: int, x: int) -> int
    decreases x,
{
    if x <= 0 { 0 } else { row_charge(m, y, x - 1) + m.cells[y][x - 1].charge }
}

/// Sum of the charges of the first `y` rows.
pub open spec fn rows_charge(m: FieldModel, y: int) -> int
    decreases y,
{
    if y <= 0 { 0 } else { rows_charge(m, y - 1) + row_charge(m, y - 1, m.width as int) }
}

/// Total charge held by the field.
pub open spec fn total_charge(m: FieldModel) -> int {
    rows_charge(m, m.height as int)
}

/// Conservation: where no cell is a source and none is valid, no cell can
/// reach a sink, and frames change nothing: every charge, and so the total
/// charge, is the same after any number of frames.
pub proof fn conservation_without_sink(m: FieldModel, k: nat)
    requires
        m.wf(),
        forall|c: Coord| #[trigger] m.contains(c) ==> !m.at(c).ground && !m.at(c).valid,
    ensures
        run(m, k) == m,
        total_charge(run(m, k)) == total_charge(m),
    decreases k,
{
    if k > 0 {
        conservation_without_sink(m, (k - 1) as nat);
        let p = propagated(m);
        lemma_propagated_wf(m);
        assert forall|c: Coord| #[trigger] m.contains(c) implies p.at(c) == m.at(c) by {
            lemma_frame_cell(m, c);
            lemma_best_route_unfound(m, c, 4);
        }
        assert forall|c: Coord| #[trigger] m.contains(c) implies staged(p, c) == m.at(c).charge by {
            assert(p.contains(c));
            assert(!sends(p, c) && !absorbs(p, c));
            assert forall|d: int| 0 <= d < 4 implies #[trigger] crate::model::inflow_from(p, c, d) == 0 by {
                lemma_neighbor_in_bounds(m.width, m.height, c, d);
                if p.neighbor(c, d) is Some {
                    assert(m.contains(p.neighbor(c, d)->0));
                }
            }
        }
        assert(frame(m).cells =~~= m.cells) by {
            assert forall|y: int, x: int| 0 <= y < m.height && 0 <= x < m.width implies #[trigger] frame(
                m,
            ).cells[y][x] == m.cells[y][x] by {
                let c = Coord { x: x as usize, y: y as usize };
                assert(m.contains(c));
                lemma_frame_cell(m, c);
            }
        }
    }
}

/// With nothing valid around `c`, its route is the one it had.
proof fn lemma_best_route_unfound(m: FieldModel, c: Coord, k: int)
    requires
        m.wf(),
        m.contains(c),
        0 <= k <= 4,
        forall|e: Coord| #[trigger] m.contains(e) ==> !m.at(e).valid,
    ensures
        best_route(m, c, k) == (m.at(c).valid, m.at(c).distance, m.at(c).forward),
    decreases k,
{
    if k > 0 {
        lemma_best_route_unfound(m, c, k - 1);
        lemma_neighbor_in_bounds(m.width, m.height, c, k - 1);
        if m.neighbor(c, k - 1) is Some {
            assert(m.contains(m.neighbor(c, k - 1)->0));
        }
        assert(candidate(m, c, m.neighbor(c, k - 1)) is None);
    }
}

/// One frame of draining: once the propagation pass of the frame has run, a
/// valid charged cell that receives nothing loses exactly one unit when it
/// sends to a neighbour below capacity, `ABSORB_RATE` units when it is a
/// source, and nothing when its neighbour is full.
pub proof fn drain_one_frame(m: FieldModel, c: Coord)
    requires
        m.wf(),
        m.contains(c),
        inflow(propagated(m), c) == 0,
    ensures
        sends(propagated(m), c) ==> frame(m).at(c).charge == m.at(c).charge - 1,
        absorbs(propagated(m), c) ==> frame(m).at(c).charge == m.at(c).charge - ABSORB_RATE,
        !sends(propagated(m), c) && !absorbs(propagated(m), c) ==> frame(m).at(c).charge == m.at(
            c,
        ).charge,
{
    lemma_frame_cell(m, c);
}

} // verus!

verus! {

/// The edits never take a source or a route away: painting makes `c` a source
/// and keeps every other flag, injecting charge keeps every flag, and both
/// keep the field well-formed.
pub proof fn edits_are_monotone(m: FieldModel, c: Coord, amount: u32)
    requires
        m.wf(),
        m.contains(c),
        amount <= MAX_CHARGE,
    ensures
        painted(m, c).wf(),
        injected(m, c, amount).wf(),
        painted(m, c).at(c).ground,
        forall|e: Coord|
            #[trigger] m.contains(e) ==> {
                &&& (m.at(e).ground ==> painted(m, c).at(e).ground)
                &&& painted(m, c).at(e).valid == m.at(e).valid
                &&& injected(m, c, amount).at(e).ground == m.at(e).ground
                &&& injected(m, c, amount).at(e).valid == m.at(e).valid
            },
{
    assert forall|e: Coord| #[trigger] painted(m, c).contains(e) implies {
        &&& painted(m, c).at(e).charge <= MAX_CHARGE
        &&& (painted(m, c).at(e).forward == e || adjacent(m.width, m.height, e, painted(m, c).at(e).forward))
    } by {
        assert(m.contains(e));
    }
    assert forall|e: Coord| #[trigger] injected(m, c, amount).contains(e) implies {
        &&& injected(m, c, amount).at(e).charge <= MAX_CHARGE
        &&& (injected(m, c, amount).at(e).forward == e || adjacent(
            m.width,
            m.height,
            e,
            injected(m, c, amount).at(e).forward,
        ))
    } by {
        assert(m.contains(e));
    }
}

} // verus!

verus! {

/// `b` is `a` with other charges.
pub open spec fn same_but_charge(a: FieldModel, b: FieldModel) -> bool {
    &&& a.width == b.width
    &&& a.height == b.height
    &&& a.cells.len() == b.cells.len()
    &&& forall|e: Coord| #[trigger] a.contains(e) ==> b.at(e) == (Cell { charge: b.at(e).charge, ..a.at(e) })
}

/// Routes do not depend on charges.
proof fn lemma_best_route_ignores_charge(a: FieldModel, b: FieldModel, c: Coord, k: int)
    requires
        a.wf(),
        same_but_charge(a, b),
        a.contains(c),
        0 <= k <= 4,
    ensures
        best_route(b, c, k) == best_route(a, c, k),
    decreases k,
{
    if k > 0 {
        lemma_best_route_ignores_charge(a, b, c, k - 1);
        lemma_neighbor_in_bounds(a.width, a.height, c, k - 1);
        if a.neighbor(c, k - 1) is Some {
            assert(a.contains(a.neighbor(c, k - 1)->0));
        }
        assert(candidate(b, c, b.neighbor(c, k - 1)) == candidate(a, c, a.neighbor(c, k - 1)));
    }
}

/// A field whose routes are settled: the propagation pass changes no cell.
pub open spec fn settled(m: FieldModel) -> bool {
    forall|e: Coord| #[trigger] m.contains(e) ==> relaxed_cell(m, e) == m.at(e)
}

/// A settled corridor: one row, its only source at the west end, every cell
/// valid and forwarding to its west neighbour.
pub open spec fn settled_corridor(m: FieldModel) -> bool {
    &&& m.wf()
    &&& m.height == 1
    &&& settled(m)
    &&& forall|e: Coord|
        #[trigger] m.contains(e) ==> {
            &&& m.at(e).valid
            &&& (m.at(e).ground <==> e.x == 0)
            &&& (e.x > 0 ==> m.at(e).forward == Coord { x: (e.x - 1) as usize, y: 0 })
        }
}

/// The state of a corridor `j` frames after a charge was put at `c` alone:
/// routes unchanged, `c` down by `j`, at most one unit on each cell west of
/// `c`, and nothing east of it.
pub open spec fn draining(m: FieldModel, mj: FieldModel, c: Coord, j: int) -> bool {
    &&& same_but_charge(m, mj)
    &&& mj.wf()
    &&& mj.at(c).charge == m.at(c).charge - j
    &&& forall|e: Coord|
        #[trigger] m.contains(e) ==> {
            &&& (e.x < c.x ==> mj.at(e).charge <= 1)
            &&& (e.x > c.x ==> mj.at(e).charge == 0)
        }
}

proof fn lemma_draining_step(m: FieldModel, mj: FieldModel, c: Coord, j: int)
    requires
        settled_corridor(m),
        m.contains(c),
        c.x > 0,
        0 <= j < m.at(c).charge,
        draining(m, mj, c, j),
    ensures
        draining(m, frame(mj), c, j + 1),
{
    let p = propagated(mj);
    lemma_propagated_wf(mj);
    lemma_frame_wf(mj);
    assert forall|e: Coord| #[trigger] m.contains(e) implies p.at(e) == mj.at(e) by {
        assert(mj.contains(e));
        lemma_frame_cell(mj, e);
        lemma_best_route_ignores_charge(m, mj, e, 4);
        assert(relaxed_cell(m, e) == m.at(e));
    }
    assert forall|e: Coord| #[trigger] m.contains(e) implies {
        &&& frame(mj).at(e) == (Cell { charge: frame(mj).at(e).charge, ..m.at(e) })
        &&& (e == c ==> frame(mj).at(e).charge == m.at(c).charge - (j + 1))
        &&& (e.x < c.x ==> frame(mj).at(e).charge <= 1)
        &&& (e.x > c.x ==> frame(mj).at(e).charge == 0)
    } by {
        assert(mj.contains(e));
        lemma_frame_cell(mj, e);
        let west = Coord { x: (e.x - 1) as usize, y: 0 };
        let east = Coord { x: (e.x + 1) as usize, y: 0 };
        assert(e.y == 0);
        if e.x > 0 {
            assert(m.contains(west));
            assert(p.at(west) == mj.at(west));
            if west.x > 0 {
                assert(m.contains(Coord { x: (west.x - 1) as usize, y: 0 }));
            }
            assert(p.neighbor(e, 3) == Some(west));
        }
        if e.x + 1 < m.width {
            assert(m.contains(east));
            assert(p.at(east) == mj.at(east));
            assert(p.at(east).forward == e);
            assert(m.contains(e));
            assert(p.neighbor(e, 2) == Some(east));
        }
        assert(p.neighbor(e, 0) is None);
        assert(p.neighbor(e, 1) is None);
    }
}

/// Draining a corridor: on a settled corridor where only the cell `c`, away
/// from the source, holds charge, `c` loses exactly one unit per frame, so it
/// is empty after as many frames as it held units, at most `MAX_CHARGE`.
pub proof fn corridor_drains(m: FieldModel, c: Coord, j: nat)
    requires
        settled_corridor(m),
        m.contains(c),
        c.x > 0,
        forall|e: Coord| #[trigger] m.contains(e) && e != c ==> m.at(e).charge == 0,
        j <= m.at(c).charge,
    ensures
        run(m, j).at(c).charge == m.at(c).charge - j,
        run(m, m.at(c).charge as nat).at(c).charge == 0,
{
    lemma_corridor_run(m, c, j);
    lemma_corridor_run(m, c, m.at(c).charge as nat);
}

proof fn lemma_corridor_run(m: FieldModel, c: Coord, j: nat)
    requires
        settled_corridor(m),
        m.contains(c),
        c.x > 0,
        forall|e: Coord| #[trigger] m.contains(e) && e != c ==> m.at(e).charge == 0,
        j <= m.at(c).charge,
    ensures
        draining(m, run(m, j), c, j as int),
    decreases j,
{
    if j == 0 {
        assert forall|e: Coord| #[trigger] m.contains(e) implies run(m, 0).at(e) == (Cell {
            charge: run(m, 0).at(e).charge,
            ..m.at(e)
        }) by {}
        assert forall|e: Coord| #[trigger] m.contains(e) implies {
            &&& (e.x < c.x ==> run(m, 0).at(e).charge <= 1)
            &&& (e.x > c.x ==> run(m, 0).at(e).charge == 0)
        } by {
            if e.x != c.x {
                assert(e != c);
            }
        }
    } else {
        lemma_corridor_run(m, c, (j - 1) as nat);
        lemma_draining_step(m, run(m, (j - 1) as nat), c, j - 1);
    }
}

} // verus!
