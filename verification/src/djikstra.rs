//! Best-first shortest-path search over the grid with 8-connected
//! movement: Dijkstra's algorithm augmented with an admissible Chebyshev
//! heuristic, with path reconstruction through parent links.

use vstd::prelude::*;
use crate::cell::{KIND_WALL, MyCell, Position, spec_chebyshev};
use crate::errors::MazeError;
use crate::matrix::{DoubleError, Matrix, on_path, on_path_prefix};

verus! {

/// Two coordinates are 8-connected neighbors: their Chebyshev distance
/// is exactly 1.
pub open spec fn adjacent(a: (u32, u32), b: (u32, u32)) -> bool {
    spec_chebyshev(a, b) == 1
}

/// `ps` is a walk through `m` from `s` to `e`: it starts at `s`, ends at
/// `e`, stays in bounds, moves one 8-connected step at a time, and never
/// enters a wall cell after leaving `s`.
pub open spec fn is_open_path(m: Matrix, s: (u32, u32), e: (u32, u32), ps: Seq<(u32, u32)>) -> bool {
    &&& ps.len() >= 1
    &&& ps[0] == s
    &&& ps[ps.len() - 1] == e
    &&& forall|i: int|
        0 <= i < ps.len() ==> m.in_bounds((#[trigger] ps[i]).0 as int, ps[i].1 as int)
    &&& forall|i: int| 0 <= i < ps.len() - 1 ==> adjacent(#[trigger] ps[i], ps[i + 1])
    &&& forall|i: int|
        1 <= i < ps.len() ==> m.cell((#[trigger] ps[i]).0 as int, ps[i].1 as int).t != KIND_WALL
}

/// Some walk through `m` connects `s` to `e`.
pub open spec fn reachable(m: Matrix, s: (u32, u32), e: (u32, u32)) -> bool {
    exists|ps: Seq<(u32, u32)>| is_open_path(m, s, e, ps)
}

/// Number of visited cells among the first `n` of row `r`.
#[verifier::opaque]
pub open spec fn visited_in_row(m: Matrix, r: int, n: int) -> int
    decreases n,
{
    if n <= 0 {
        0
    } else {
        visited_in_row(m, r, n - 1) + if m.cell(r, n - 1).visited {
            1int
        } else {
            0int
        }
    }
}

/// Number of visited cells in the first `n` rows.
#[verifier::opaque]
pub open spec fn visited_count_upto(m: Matrix, n: int) -> int
    decreases n,
{
    if n <= 0 {
        0
    } else {
        visited_count_upto(m, n - 1) + visited_in_row(m, n - 1, m.x_size as int)
    }
}

/// Number of visited cells in the whole grid.
pub open spec fn visited_count(m: Matrix) -> int {
    visited_count_upto(m, m.y_size as int)
}

/// A row's visited count lies between 0 and the cells counted.
proof fn lemma_row_count_bounds(m: Matrix, r: int, n: int)
    ensures
        0 <= visited_in_row(m, r, n) <= if n >= 0 {
            n
        } else {
            0int
        },
    decreases n,
{
    reveal_with_fuel(visited_in_row, 2);
    if n > 0 {
        lemma_row_count_bounds(m, r, n - 1);
    }
}

/// The whole count lies between 0 and rows times columns.
proof fn lemma_count_bounds(m: Matrix, n: int)
    ensures
        0 <= visited_count_upto(m, n) <= if n >= 0 {
            n * m.x_size
        } else {
            0int
        },
    decreases n,
{
    reveal_with_fuel(visited_count_upto, 2);
    if n > 0 {
        lemma_count_bounds(m, n - 1);
        lemma_row_count_bounds(m, n - 1, m.x_size as int);
        assert((n - 1) * m.x_size + m.x_size == n * m.x_size) by (nonlinear_arith);
    }
}

/// Rows whose cells carry the same visited flags count the same.
proof fn lemma_row_count_agree(m1: Matrix, m2: Matrix, r: int, n: int)
    requires
        forall|c: int| 0 <= c < n ==> m1.cell(r, c).visited == (#[trigger] m2.cell(r, c)).visited,
    ensures
        visited_in_row(m1, r, n) == visited_in_row(m2, r, n),
    decreases n,
{
    reveal_with_fuel(visited_in_row, 2);
    if n > 0 {
        lemma_row_count_agree(m1, m2, r, n - 1);
    }
}

/// Flipping one cell of a row from unvisited to visited raises the row's
/// count by one.
proof fn lemma_row_count_update(m1: Matrix, m2: Matrix, r: int, c: int, n: int)
    requires
        0 <= c < n,
        forall|cc: int|
            0 <= cc < n && cc != c ==> m1.cell(r, cc).visited == (#[trigger] m2.cell(
                r,
                cc,
            )).visited,
        !m1.cell(r, c).visited,
        m2.cell(r, c).visited,
    ensures
        visited_in_row(m2, r, n) == visited_in_row(m1, r, n) + 1,
    decreases n,
{
    reveal_with_fuel(visited_in_row, 2);
    if c == n - 1 {
        lemma_row_count_agree(m1, m2, r, n - 1);
    } else {
        lemma_row_count_update(m1, m2, r, c, n - 1);
    }
}

/// Grids whose cells carry the same visited flags count the same.
proof fn lemma_count_agree(m1: Matrix, m2: Matrix, n: int)
    requires
        m1.x_size == m2.x_size,
        forall|rr: int, cc: int|
            0 <= rr < n && 0 <= cc < m1.x_size ==> m1.cell(rr, cc).visited == (#[trigger] m2.cell(
                rr,
                cc,
            )).visited,
    ensures
        visited_count_upto(m1, n) == visited_count_upto(m2, n),
    decreases n,
{
    reveal_with_fuel(visited_count_upto, 2);
    if n > 0 {
        lemma_count_agree(m1, m2, n - 1);
        lemma_row_count_agree(m1, m2, n - 1, m1.x_size as int);
    }
}

/// Flipping one cell of the grid from unvisited to visited raises the
/// whole count by one.
proof fn lemma_count_update(m1: Matrix, m2: Matrix, r: int, c: int, n: int)
    requires
        m1.x_size == m2.x_size,
        0 <= r < n,
        0 <= c < m1.x_size,
        forall|rr: int, cc: int|
            0 <= rr < n && 0 <= cc < m1.x_size && !(rr == r && cc == c) ==> m1.cell(
                rr,
                cc,
            ).visited == (#[trigger] m2.cell(rr, cc)).visited,
        !m1.cell(r, c).visited,
        m2.cell(r, c).visited,
    ensures
        visited_count_upto(m2, n) == visited_count_upto(m1, n) + 1,
    decreases n,
{
    reveal_with_fuel(visited_count_upto, 2);
    if r == n - 1 {
        lemma_count_agree(m1, m2, n - 1);
        lemma_row_count_update(m1, m2, r, c, m1.x_size as int);
    } else {
        lemma_count_update(m1, m2, r, c, n - 1);
        lemma_row_count_agree(m1, m2, n - 1, m1.x_size as int);
    }
}

/// The chain discipline that the search maintains: every visited cell
/// other than the start records an adjacent, in-bounds, visited parent
/// of strictly smaller distance, is itself no wall, and the start cell
/// is visited at distance 0 with no parent.
pub open spec fn chain_inv(m: Matrix, s: (u32, u32)) -> bool {
    &&& forall|r: int, c: int|
        m.in_bounds(r, c) && (#[trigger] m.cell(r, c)).visited && (r, c) != (s.0 as int, s.1 as int)
            ==> {
            let cell = m.cell(r, c);
            &&& cell.t != KIND_WALL
            &&& cell.parent is Some
            &&& m.in_bounds(cell.parent->Some_0.0 as int, cell.parent->Some_0.1 as int)
            &&& adjacent(cell.parent->Some_0, (r as u32, c as u32))
            &&& m.cell(cell.parent->Some_0.0 as int, cell.parent->Some_0.1 as int).visited
            &&& m.cell(cell.parent->Some_0.0 as int, cell.parent->Some_0.1 as int).distance < cell.distance
        }
    &&& m.in_bounds(s.0 as int, s.1 as int)
    &&& m.cell(s.0 as int, s.1 as int).visited
    &&& m.cell(s.0 as int, s.1 as int).distance == 0
    &&& m.cell(s.0 as int, s.1 as int).parent is None
}

/// Both rows of `m` up to `n` hold no visited cell, so they count zero.
proof fn lemma_row_count_none(m: Matrix, r: int, n: int)
    requires
        forall|c: int| 0 <= c < n ==> !(#[trigger] m.cell(r, c)).visited,
    ensures
        visited_in_row(m, r, n) == 0,
    decreases n,
{
    reveal_with_fuel(visited_in_row, 2);
    if n > 0 {
        lemma_row_count_none(m, r, n - 1);
    }
}

/// A grid with no visited cell in its first `n` rows counts zero.
proof fn lemma_count_none(m: Matrix, n: int)
    requires
        forall|rr: int, cc: int|
            0 <= rr < n && 0 <= cc < m.x_size ==> !(#[trigger] m.cell(rr, cc)).visited,
    ensures
        visited_count_upto(m, n) == 0,
    decreases n,
{
    reveal_with_fuel(visited_count_upto, 2);
    if n > 0 {
        lemma_count_none(m, n - 1);
        lemma_row_count_none(m, n - 1, m.x_size as int);
    }
}

/// The coordinate (`pr`, `pc`) appears among the frontier's entries.
pub open spec fn in_frontier(fr: Seq<Position>, pr: int, pc: int) -> bool {
    exists|i: int|
        0 <= i < fr.len() && (#[trigger] fr[i]).position == (pr as u32, pc as u32)
}

/// Every in-bounds 8-neighbor of (`pr`, `pc`) is a wall, or visited at
/// a distance at most one above (`pr`, `pc`)'s own: the cell's
/// neighborhood has been fully relaxed.
#[verifier::opaque]
pub open spec fn nbrs_settled(m: Matrix, pr: int, pc: int) -> bool {
    forall|qr: int, qc: int|
        m.in_bounds(qr, qc) && -1 <= qr - pr <= 1 && -1 <= qc - pc <= 1 && !(qr == pr && qc == pc)
            ==> ((#[trigger] m.cell(qr, qc)).t == KIND_WALL || (m.cell(qr, qc).visited && m.cell(
            qr,
            qc,
        ).distance <= m.cell(pr, pc).distance + 1))
}

/// Every visited cell that is neither awaiting processing in the
/// frontier nor the exempted coordinate has its whole neighborhood
/// relaxed: the search never abandons a cell half-processed.
#[verifier::opaque]
pub open spec fn closed_except(m: Matrix, fr: Seq<Position>, er: int, ec: int) -> bool {
    forall|pr: int, pc: int|
        m.in_bounds(pr, pc) && (#[trigger] m.cell(pr, pc)).visited && !in_frontier(fr, pr, pc) && !(
        pr == er && pc == ec) ==> nbrs_settled(m, pr, pc)
}

/// The state the search maintains relative to the untouched grid `o`:
/// shape, positions and kinds are preserved, unvisited cells are
/// untouched, no walk flag is set, the parent chain discipline holds,
/// every visited distance is below the visited-cell count, and every
/// visited cell carries the exact Chebyshev heuristic toward `e`.
pub open spec fn search_inv(m: Matrix, o: Matrix, s: (u32, u32), e: (u32, u32)) -> bool {
    &&& m.wf()
    &&& m.y_size == o.y_size
    &&& m.x_size == o.x_size
    &&& m.positions_consistent()
    &&& forall|r: int, c: int|
        m.in_bounds(r, c) ==> (#[trigger] m.cell(r, c)).t == o.cell(r, c).t
    &&& forall|r: int, c: int|
        m.in_bounds(r, c) && !(#[trigger] m.cell(r, c)).visited ==> m.cell(r, c) == o.cell(r, c)
    &&& forall|r: int, c: int| m.in_bounds(r, c) ==> !(#[trigger] m.cell(r, c)).walk
    &&& chain_inv(m, s)
    &&& forall|r: int, c: int|
        m.in_bounds(r, c) && (#[trigger] m.cell(r, c)).visited ==> m.cell(r, c).distance
            < visited_count(m)
    &&& forall|r: int, c: int|
        m.in_bounds(r, c) && (#[trigger] m.cell(r, c)).visited ==> m.cell(r, c).heuristics
            <= 0x7fff
    &&& forall|r: int, c: int|
        m.in_bounds(r, c) && (#[trigger] m.cell(r, c)).visited ==> m.cell(r, c).heuristics
            == spec_chebyshev((r as u32, c as u32), e)
}

/// Every frontier entry is an in-bounds, visited coordinate.
pub open spec fn frontier_ok(fr: Seq<Position>, m: Matrix) -> bool {
    forall|i: int|
        0 <= i < fr.len() ==> {
            let p = #[trigger] fr[i];
            &&& m.in_bounds(p.position.0 as int, p.position.1 as int)
            &&& m.cell(p.position.0 as int, p.position.1 as int).visited
        }
}

/// Visited flags only ever grow from `m1` to `m2`.
pub open spec fn visited_monotone(m1: Matrix, m2: Matrix) -> bool {
    forall|r: int, c: int|
        m1.in_bounds(r, c) && (#[trigger] m1.cell(r, c)).visited ==> m2.cell(r, c).visited
}

/// What `Matrix::get_neighbours` establishes about `nbs` relative to the
/// grid state `m_pop` at the call and the queried coordinate `cur`.
pub open spec fn neighbours_facts(
    m_pop: Matrix,
    nbs: Seq<Result<MyCell, DoubleError>>,
    cur: (u32, u32),
) -> bool {
    &&& forall|j: int| 0 <= j < nbs.len() ==> (#[trigger] nbs[j]) is Ok
    &&& forall|j: int|
        0 <= j < nbs.len() ==> {
            let n = (#[trigger] nbs[j])->Ok_0;
            &&& m_pop.in_bounds(n.position.position.0 as int, n.position.position.1 as int)
            &&& spec_chebyshev(n.position.position, cur) == 1
            &&& n == m_pop.cell(n.position.position.0 as int, n.position.position.1 as int)
        }
    &&& m_pop.neighbour_covered(nbs, cur, 1, -1)
    &&& m_pop.neighbour_covered(nbs, cur, 1, 0)
    &&& m_pop.neighbour_covered(nbs, cur, 1, 1)
    &&& m_pop.neighbour_covered(nbs, cur, 0, -1)
    &&& m_pop.neighbour_covered(nbs, cur, 0, 1)
    &&& m_pop.neighbour_covered(nbs, cur, -1, -1)
    &&& m_pop.neighbour_covered(nbs, cur, -1, 0)
    &&& m_pop.neighbour_covered(nbs, cur, -1, 1)
}

/// The first `ni` neighbour entries have been relaxed: each non-wall one
/// is visited in the current grid `m` at distance at most `d + 1`,
/// where `d` is the popped cell's distance.
pub open spec fn processed_upto(
    m: Matrix,
    nbs: Seq<Result<MyCell, DoubleError>>,
    ni: int,
    d: int,
) -> bool {
    forall|j: int|
        0 <= j < ni && j < nbs.len() ==> {
            let n = (#[trigger] nbs[j])->Ok_0;
            n.t != KIND_WALL ==> m.cell(
                n.position.position.0 as int,
                n.position.position.1 as int,
            ).visited && m.cell(
                n.position.position.0 as int,
                n.position.position.1 as int,
            ).distance <= d + 1
        }
}

/// One fully processed neighbour list settles the popped coordinate's
/// whole neighborhood.
proof fn lemma_nbrs_settled_from_processed(
    m_pop: Matrix,
    m: Matrix,
    nbs: Seq<Result<MyCell, DoubleError>>,
    cur: (u32, u32),
    d: int,
)
    requires
        m_pop.wf(),
        m_pop.positions_consistent(),
        m.y_size == m_pop.y_size,
        m.x_size == m_pop.x_size,
        forall|r: int, c: int|
            m.in_bounds(r, c) ==> (#[trigger] m.cell(r, c)).t == m_pop.cell(r, c).t,
        neighbours_facts(m_pop, nbs, cur),
        processed_upto(m, nbs, nbs.len() as int, d),
        m.in_bounds(cur.0 as int, cur.1 as int),
        m.cell(cur.0 as int, cur.1 as int).distance == d,
    ensures
        nbrs_settled(m, cur.0 as int, cur.1 as int),
{
    reveal(nbrs_settled);
    let pr = cur.0 as int;
    let pc = cur.1 as int;
    assert forall|qr: int, qc: int|
        m.in_bounds(qr, qc) && -1 <= qr - pr <= 1 && -1 <= qc - pc <= 1 && !(qr == pr && qc
            == pc) implies ((#[trigger] m.cell(qr, qc)).t == KIND_WALL || (m.cell(
        qr,
        qc,
    ).visited && m.cell(qr, qc).distance <= m.cell(pr, pc).distance + 1)) by {
        let dr = qr - pr;
        let dc = qc - pc;
        assert(m_pop.in_bounds(cur.0 + dr, cur.1 + dc));
        assert(exists|i: int|
            0 <= i < nbs.len() && #[trigger] nbs[i] == Ok::<MyCell, DoubleError>(
                m_pop.cell(cur.0 + dr, cur.1 + dc),
            ));
        let i = choose|i: int|
            0 <= i < nbs.len() && #[trigger] nbs[i] == Ok::<MyCell, DoubleError>(
                m_pop.cell(cur.0 + dr, cur.1 + dc),
            );
        let n = nbs[i]->Ok_0;
        assert(n == m_pop.cell(qr, qc));
        assert(n.position.position == (qr as u32, qc as u32));
        if n.t != KIND_WALL {
            assert(m.cell(qr, qc).visited && m.cell(qr, qc).distance <= d + 1);
        }
    }
}

/// With the search finished and its frontier empty, every visited cell's
/// neighborhood is visited-or-wall; a start-to-end walk would then have
/// to reach the unvisited end from a visited cell, which is impossible.
proof fn lemma_path_prefix_visited(m: Matrix, ps: Seq<(u32, u32)>, i: int)
    requires
        forall|pr: int, pc: int|
            m.in_bounds(pr, pc) && (#[trigger] m.cell(pr, pc)).visited ==> nbrs_settled(m, pr, pc),
        ps.len() >= 1,
        forall|j: int|
            0 <= j < ps.len() ==> m.in_bounds((#[trigger] ps[j]).0 as int, ps[j].1 as int),
        forall|j: int| 0 <= j < ps.len() - 1 ==> adjacent(#[trigger] ps[j], ps[j + 1]),
        forall|j: int|
            1 <= j < ps.len() ==> m.cell((#[trigger] ps[j]).0 as int, ps[j].1 as int).t
                != KIND_WALL,
        m.cell(ps[0].0 as int, ps[0].1 as int).visited,
        0 <= i < ps.len(),
    ensures
        m.cell(ps[i].0 as int, ps[i].1 as int).visited,
    decreases i,
{
    reveal(nbrs_settled);
    if i > 0 {
        lemma_path_prefix_visited(m, ps, i - 1);
        let p = ps[i - 1];
        let q = ps[i];
        assert(adjacent(p, q));
        assert(nbrs_settled(m, p.0 as int, p.1 as int));
        assert(-1 <= q.0 - p.0 <= 1 && -1 <= q.1 - p.1 <= 1 && !(q.0 == p.0 && q.1 == p.1));
        assert(m.cell(q.0 as int, q.1 as int).t == KIND_WALL || m.cell(
            q.0 as int,
            q.1 as int,
        ).visited);
    }
}

/// Chebyshev distance between two coordinates: the admissible heuristic
/// that orders the search frontier.
pub fn heuristic(start: &Position, end: &Position) -> (r: u32)
    ensures
        r == spec_chebyshev(start.position, end.position),
{
    start.distance(end)
}

/// Closedness survives a step that only adds visited cells, provided
/// every newly visited cell enters the frontier or is the exempted
/// coordinate, no frontier member is dropped, no visited distance
/// grows, and cells already out of the frontier keep their distance.
proof fn lemma_closed_monotone(
    m1: Matrix,
    m2: Matrix,
    fr1: Seq<Position>,
    fr2: Seq<Position>,
    er: int,
    ec: int,
)
    requires
        m1.y_size == m2.y_size,
        m1.x_size == m2.x_size,
        forall|r: int, c: int|
            m1.in_bounds(r, c) ==> (#[trigger] m1.cell(r, c)).t == m2.cell(r, c).t,
        visited_monotone(m1, m2),
        forall|r: int, c: int|
            m1.in_bounds(r, c) && (#[trigger] m2.cell(r, c)).visited && !m1.cell(r, c).visited
                ==> in_frontier(fr2, r, c) || (r == er && c == ec),
        forall|r: int, c: int| in_frontier(fr1, r, c) ==> in_frontier(fr2, r, c),
        forall|r: int, c: int|
            m1.in_bounds(r, c) && (#[trigger] m1.cell(r, c)).visited ==> m2.cell(r, c).distance
                <= m1.cell(r, c).distance,
        forall|r: int, c: int|
            m1.in_bounds(r, c) && (#[trigger] m1.cell(r, c)).visited && !in_frontier(fr1, r, c)
                ==> m2.cell(r, c).distance == m1.cell(r, c).distance,
        closed_except(m1, fr1, er, ec),
    ensures
        closed_except(m2, fr2, er, ec),
{
    reveal(closed_except);
    reveal(nbrs_settled);
    assert forall|pr: int, pc: int|
        m2.in_bounds(pr, pc) && (#[trigger] m2.cell(pr, pc)).visited && !in_frontier(
            fr2,
            pr,
            pc,
        ) && !(pr == er && pc == ec) implies nbrs_settled(m2, pr, pc) by {
        assert(m1.cell(pr, pc).visited);
        assert(!in_frontier(fr1, pr, pc));
        assert(nbrs_settled(m1, pr, pc));
        assert(m2.cell(pr, pc).distance == m1.cell(pr, pc).distance);
        assert forall|qr: int, qc: int|
            m2.in_bounds(qr, qc) && -1 <= qr - pr <= 1 && -1 <= qc - pc <= 1 && !(qr == pr && qc
                == pc) implies ((#[trigger] m2.cell(qr, qc)).t == KIND_WALL || (m2.cell(
            qr,
            qc,
        ).visited && m2.cell(qr, qc).distance <= m2.cell(pr, pc).distance + 1)) by {
            assert(m1.cell(qr, qc).t == KIND_WALL || (m1.cell(qr, qc).visited && m1.cell(
                qr,
                qc,
            ).distance <= m1.cell(pr, pc).distance + 1));
        }
    }
}

/// Cells already popped from the frontier are settled at their optimal
/// distance: no open walk from the start reaches them in fewer steps.
#[verifier::opaque]
pub open spec fn popped_optimal(m: Matrix, o: Matrix, fr: Seq<Position>, s: (u32, u32)) -> bool {
    forall|pr: int, pc: int, ps: Seq<(u32, u32)>|
        m.in_bounds(pr, pc) && (#[trigger] m.cell(pr, pc)).visited && !in_frontier(fr, pr, pc)
            && #[trigger] is_open_path(o, s, (pr as u32, pc as u32), ps) ==> m.cell(
            pr,
            pc,
        ).distance <= ps.len() - 1
}

/// Every visited cell's recorded distance is achievable: some open walk
/// from the start reaches it in at most that many steps.
#[verifier::opaque]
pub open spec fn dist_achievable(m: Matrix, o: Matrix, s: (u32, u32)) -> bool {
    forall|pr: int, pc: int|
        m.in_bounds(pr, pc) && (#[trigger] m.cell(pr, pc)).visited ==> exists|ps: Seq<(u32, u32)>|
            is_open_path(o, s, (pr as u32, pc as u32), ps) && ps.len() - 1 <= m.cell(
                pr,
                pc,
            ).distance
}

/// Along an adjacency chain of coordinates, the Chebyshev distance
/// between two entries is at most their index distance.
proof fn lemma_ps_cheb_bound(ps: Seq<(u32, u32)>, i: int, j: int)
    requires
        forall|k: int| 0 <= k < ps.len() - 1 ==> adjacent(#[trigger] ps[k], ps[k + 1]),
        0 <= i <= j < ps.len(),
    ensures
        spec_chebyshev(ps[i], ps[j]) <= j - i,
    decreases j - i,
{
    if i < j {
        lemma_ps_cheb_bound(ps, i + 1, j);
        lemma_chebyshev_triangle(ps[i], ps[i + 1], ps[j]);
    }
}

/// While a walk's first `i` cells are all popped, the recorded
/// distances stay below the walk's prefix length, one settled
/// neighborhood at a time.
proof fn lemma_prefix_dist(m: Matrix, fr: Seq<Position>, s: (u32, u32), ps: Seq<(u32, u32)>, i: int)
    requires
        closed_except(m, fr, -1, -1),
        ps.len() >= 1,
        ps[0] == s,
        forall|j: int|
            0 <= j < ps.len() ==> m.in_bounds((#[trigger] ps[j]).0 as int, ps[j].1 as int),
        forall|j: int| 0 <= j < ps.len() - 1 ==> adjacent(#[trigger] ps[j], ps[j + 1]),
        forall|j: int|
            1 <= j < ps.len() ==> m.cell((#[trigger] ps[j]).0 as int, ps[j].1 as int).t
                != KIND_WALL,
        m.cell(s.0 as int, s.1 as int).visited,
        m.cell(s.0 as int, s.1 as int).distance == 0,
        0 <= i < ps.len(),
        forall|k: int|
            0 <= k < i ==> {
                let p = #[trigger] ps[k];
                m.cell(p.0 as int, p.1 as int).visited && !in_frontier(fr, p.0 as int, p.1 as int)
            },
    ensures
        m.cell(ps[i].0 as int, ps[i].1 as int).visited,
        m.cell(ps[i].0 as int, ps[i].1 as int).distance <= i,
    decreases i,
{
    reveal(closed_except);
    reveal(nbrs_settled);
    if i > 0 {
        lemma_prefix_dist(m, fr, s, ps, i - 1);
        let p = ps[i - 1];
        let q = ps[i];
        assert(adjacent(p, q));
        assert(nbrs_settled(m, p.0 as int, p.1 as int));
        assert(-1 <= q.0 - p.0 <= 1 && -1 <= q.1 - p.1 <= 1 && !(q.0 == p.0 && q.1 == p.1));
    }
}

/// When the frontier's best entry is popped, its recorded distance is
/// optimal: walk any path from the start to it up to the first cell
/// still awaiting processing; that cell's frontier key is no better
/// than the popped entry's, and the Chebyshev heuristic's consistency
/// turns the key comparison into the length bound.
proof fn lemma_pop_optimal_scan(
    m: Matrix,
    o: Matrix,
    fr: Seq<Position>,
    s: (u32, u32),
    e: (u32, u32),
    b: Position,
    ps: Seq<(u32, u32)>,
    i: int,
)
    requires
        m.wf(),
        m.y_size == o.y_size,
        m.x_size == o.x_size,
        forall|r: int, c: int| m.in_bounds(r, c) ==> (#[trigger] m.cell(r, c)).t == o.cell(r, c).t,
        closed_except(m, fr, -1, -1),
        frontier_ok(fr, m),
        forall|idx: int| 0 <= idx < fr.len() ==> key_le(m, b, #[trigger] fr[idx]),
        m.in_bounds(b.position.0 as int, b.position.1 as int),
        m.cell(b.position.0 as int, b.position.1 as int).visited,
        forall|r: int, c: int|
            m.in_bounds(r, c) && (#[trigger] m.cell(r, c)).visited ==> m.cell(r, c).heuristics
                == spec_chebyshev((r as u32, c as u32), e),
        m.cell(s.0 as int, s.1 as int).visited,
        m.cell(s.0 as int, s.1 as int).distance == 0,
        is_open_path(o, s, b.position, ps),
        0 <= i < ps.len(),
        forall|k: int|
            0 <= k < i ==> {
                let p = #[trigger] ps[k];
                m.cell(p.0 as int, p.1 as int).visited && !in_frontier(fr, p.0 as int, p.1 as int)
            },
    ensures
        m.cell(b.position.0 as int, b.position.1 as int).distance <= ps.len() - 1,
    decreases ps.len() - i,
{
    assert forall|j: int|
        1 <= j < ps.len() implies m.cell((#[trigger] ps[j]).0 as int, ps[j].1 as int).t
        != KIND_WALL by {
        assert(o.cell(ps[j].0 as int, ps[j].1 as int).t != KIND_WALL);
    }
    let p = ps[i];
    if p == b.position {
        lemma_prefix_dist(m, fr, s, ps, i);
    } else if m.cell(p.0 as int, p.1 as int).visited && !in_frontier(fr, p.0 as int, p.1 as int) {
        assert(i < ps.len() - 1);
        lemma_pop_optimal_scan(m, o, fr, s, e, b, ps, i + 1);
    } else {
        lemma_prefix_dist(m, fr, s, ps, i);
        assert(in_frontier(fr, p.0 as int, p.1 as int));
        let idx = choose|idx: int|
            0 <= idx < fr.len() && (#[trigger] fr[idx]).position == (
            (p.0 as int) as u32,
            (p.1 as int) as u32,
            );
        assert(key_le(m, b, fr[idx]));
        lemma_ps_cheb_bound(ps, i, ps.len() - 1);
        lemma_chebyshev_triangle(p, b.position, e);
    }
}

/// The same scan aimed at the still-unvisited goal: the best frontier
/// key bounds the goal's eventual distance by every walk's length.
proof fn lemma_goal_bound_scan(
    m: Matrix,
    o: Matrix,
    fr: Seq<Position>,
    s: (u32, u32),
    e: (u32, u32),
    b: Position,
    ps: Seq<(u32, u32)>,
    i: int,
)
    requires
        m.wf(),
        m.y_size == o.y_size,
        m.x_size == o.x_size,
        forall|r: int, c: int| m.in_bounds(r, c) ==> (#[trigger] m.cell(r, c)).t == o.cell(r, c).t,
        closed_except(m, fr, -1, -1),
        frontier_ok(fr, m),
        forall|idx: int| 0 <= idx < fr.len() ==> key_le(m, b, #[trigger] fr[idx]),
        m.in_bounds(b.position.0 as int, b.position.1 as int),
        m.cell(b.position.0 as int, b.position.1 as int).visited,
        forall|r: int, c: int|
            m.in_bounds(r, c) && (#[trigger] m.cell(r, c)).visited ==> m.cell(r, c).heuristics
                == spec_chebyshev((r as u32, c as u32), e),
        m.cell(s.0 as int, s.1 as int).visited,
        m.cell(s.0 as int, s.1 as int).distance == 0,
        m.in_bounds(e.0 as int, e.1 as int),
        !m.cell(e.0 as int, e.1 as int).visited,
        is_open_path(o, s, e, ps),
        0 <= i < ps.len(),
        forall|k: int|
            0 <= k < i ==> {
                let p = #[trigger] ps[k];
                m.cell(p.0 as int, p.1 as int).visited && !in_frontier(fr, p.0 as int, p.1 as int)
            },
    ensures
        m.cell(b.position.0 as int, b.position.1 as int).distance + spec_chebyshev(b.position, e)
            <= ps.len() - 1,
    decreases ps.len() - i,
{
    assert forall|j: int|
        1 <= j < ps.len() implies m.cell((#[trigger] ps[j]).0 as int, ps[j].1 as int).t
        != KIND_WALL by {
        assert(o.cell(ps[j].0 as int, ps[j].1 as int).t != KIND_WALL);
    }
    let p = ps[i];
    if i == ps.len() - 1 {
        lemma_prefix_dist(m, fr, s, ps, i);
        assert(false);
    } else if m.cell(p.0 as int, p.1 as int).visited && !in_frontier(fr, p.0 as int, p.1 as int) {
        lemma_goal_bound_scan(m, o, fr, s, e, b, ps, i + 1);
    } else {
        lemma_prefix_dist(m, fr, s, ps, i);
        assert(in_frontier(fr, p.0 as int, p.1 as int));
        let idx = choose|idx: int|
            0 <= idx < fr.len() && (#[trigger] fr[idx]).position == (
            (p.0 as int) as u32,
            (p.1 as int) as u32,
            );
        assert(key_le(m, b, fr[idx]));
        lemma_ps_cheb_bound(ps, i, ps.len() - 1);
    }
}

/// A visited cell's achievable walk extends by one adjacent open step.
proof fn lemma_extend_achievable(
    m: Matrix,
    o: Matrix,
    s: (u32, u32),
    cur: (u32, u32),
    tq: (u32, u32),
)
    requires
        m.y_size == o.y_size,
        m.x_size == o.x_size,
        dist_achievable(m, o, s),
        m.in_bounds(cur.0 as int, cur.1 as int),
        m.cell(cur.0 as int, cur.1 as int).visited,
        m.in_bounds(tq.0 as int, tq.1 as int),
        adjacent(cur, tq),
        o.cell(tq.0 as int, tq.1 as int).t != KIND_WALL,
    ensures
        exists|ps: Seq<(u32, u32)>|
            is_open_path(o, s, ((tq.0 as int) as u32, (tq.1 as int) as u32), ps) && ps.len() - 1
                <= m.cell(cur.0 as int, cur.1 as int).distance + 1,
{
    reveal(dist_achievable);
    let psu = choose|ps: Seq<(u32, u32)>|
        is_open_path(o, s, ((cur.0 as int) as u32, (cur.1 as int) as u32), ps) && ps.len() - 1
            <= m.cell(cur.0 as int, cur.1 as int).distance;
    let pst = psu.push(tq);
    assert(is_open_path(o, s, ((tq.0 as int) as u32, (tq.1 as int) as u32), pst)) by {
        assert(pst[pst.len() - 1] == tq);
        assert(pst[0] == psu[0]);
        assert forall|j: int| 0 <= j < pst.len() - 1 implies adjacent(
            #[trigger] pst[j],
            pst[j + 1],
        ) by {
            if j < psu.len() - 1 {
                assert(pst[j] == psu[j] && pst[j + 1] == psu[j + 1]);
                assert(adjacent(psu[j], psu[j + 1]));
            } else {
                assert(pst[j] == psu[psu.len() - 1] && pst[j + 1] == tq);
                assert(psu[psu.len() - 1] == cur);
            }
        }
        assert forall|j: int| 1 <= j < pst.len() implies o.cell(
            (#[trigger] pst[j]).0 as int,
            pst[j].1 as int,
        ).t != KIND_WALL by {
            if j < psu.len() {
                assert(pst[j] == psu[j]);
                assert(o.cell(psu[j].0 as int, psu[j].1 as int).t != KIND_WALL);
            } else {
                assert(pst[j] == tq);
            }
        }
        assert forall|j: int| 0 <= j < pst.len() implies o.in_bounds(
            (#[trigger] pst[j]).0 as int,
            pst[j].1 as int,
        ) by {
            if j < psu.len() {
                assert(pst[j] == psu[j]);
                assert(o.in_bounds(psu[j].0 as int, psu[j].1 as int));
            } else {
                assert(pst[j] == tq);
            }
        }
    }
    assert(pst.len() - 1 <= m.cell(cur.0 as int, cur.1 as int).distance + 1);
}

/// A cell out of the frontier can never be improved: the candidate cost
/// through any visited neighbor is achievable, so beating the popped
/// cell's optimal distance would contradict its optimality.
proof fn lemma_improved_target_unpopped(
    m: Matrix,
    o: Matrix,
    fr: Seq<Position>,
    s: (u32, u32),
    cur: (u32, u32),
    tq: (u32, u32),
)
    requires
        m.y_size == o.y_size,
        m.x_size == o.x_size,
        forall|r: int, c: int| m.in_bounds(r, c) ==> (#[trigger] m.cell(r, c)).t == o.cell(r, c).t,
        popped_optimal(m, o, fr, s),
        dist_achievable(m, o, s),
        m.in_bounds(cur.0 as int, cur.1 as int),
        m.cell(cur.0 as int, cur.1 as int).visited,
        m.in_bounds(tq.0 as int, tq.1 as int),
        m.cell(tq.0 as int, tq.1 as int).visited,
        adjacent(cur, tq),
        m.cell(tq.0 as int, tq.1 as int).t != KIND_WALL,
        m.cell(cur.0 as int, cur.1 as int).distance + 1 < m.cell(tq.0 as int, tq.1 as int).distance,
    ensures
        in_frontier(fr, tq.0 as int, tq.1 as int),
{
    if !in_frontier(fr, tq.0 as int, tq.1 as int) {
        lemma_extend_achievable(m, o, s, cur, tq);
        let pst = choose|ps: Seq<(u32, u32)>|
            is_open_path(o, s, ((tq.0 as int) as u32, (tq.1 as int) as u32), ps) && ps.len() - 1
                <= m.cell(cur.0 as int, cur.1 as int).distance + 1;
        assert(m.cell(tq.0 as int, tq.1 as int).distance <= pst.len() - 1) by {
            reveal(popped_optimal);
        }
        assert(false);
    }
}

/// The frontier's ordering: `p` is picked no later than `q` when `p`'s
/// combined cost (distance plus heuristic) is below `q`'s, or equal with
/// a distance no larger.
pub open spec fn key_le(m: Matrix, p: Position, q: Position) -> bool {
    let a = m.cell(p.position.0 as int, p.position.1 as int);
    let b = m.cell(q.position.0 as int, q.position.1 as int);
    ||| a.heuristics + a.distance < b.heuristics + b.distance
    ||| (a.heuristics + a.distance == b.heuristics + b.distance && a.distance <= b.distance)
}

/// Index of the frontier entry whose cell has the least combined cost
/// (distance plus heuristic), ties broken by ascending distance.
fn pick_best(matrix: &Matrix, frontier: &Vec<Position>) -> (best: usize)
    requires
        matrix.wf(),
        frontier_ok(frontier@, *matrix),
        frontier@.len() >= 1,
        forall|r: int, c: int|
            matrix.in_bounds(r, c) && (#[trigger] matrix.cell(r, c)).visited ==> matrix.cell(
                r,
                c,
            ).distance < 0x3fff_0001 && matrix.cell(r, c).heuristics <= 0x7fff,
    ensures
        best < frontier@.len(),
        forall|i: int| 0 <= i < frontier@.len() ==> key_le(*matrix, frontier@[best as int], #[trigger] frontier@[i]),
{
    let mut best: usize = 0;
    let mut bi: usize = 1;
    while bi < frontier.len()
        invariant
            matrix.wf(),
            frontier_ok(frontier@, *matrix),
            frontier@.len() >= 1,
            best < bi <= frontier@.len(),
            forall|r: int, c: int|
                matrix.in_bounds(r, c) && (#[trigger] matrix.cell(r, c)).visited ==> matrix.cell(
                    r,
                    c,
                ).distance < 0x3fff_0001 && matrix.cell(r, c).heuristics <= 0x7fff,
            forall|j: int| 0 <= j < bi ==> key_le(*matrix, frontier@[best as int], #[trigger] frontier@[j]),
        decreases frontier@.len() - bi,
    {
        let bpos = frontier[best];
        let cpos = frontier[bi];
        let bcell = *matrix.at_pos(&bpos);
        let ccell = *matrix.at_pos(&cpos);
        let bc = bcell.get_combined();
        let cc2 = ccell.get_combined();
        if cc2 < bc || (cc2 == bc && ccell.get_distance() < bcell.get_distance()) {
            best = bi;
        }
        bi = bi + 1;
    }
    best
}

/// One relaxation step: if the cell at `nbp` is no wall and either
/// unvisited or improvable through `current`, record the cheaper route
/// (distance, heuristic toward `end`, parent link, visited flag).
/// Returns whether the cell was relaxed and whether it was reached for
/// the first time.
#[verifier::rlimit(100)]
#[verifier::spinoff_prover]
fn relax_cell(
    matrix: &mut Matrix,
    nbp: &Position,
    current: &MyCell,
    end: &Position,
    Ghost(o): Ghost<Matrix>,
    Ghost(s): Ghost<(u32, u32)>,
) -> (r: (bool, bool))
    requires
        search_inv(*old(matrix), o, s, end.position),
        o.wf(),
        o.cells_fresh(),
        old(matrix).in_bounds(
            current.position.position.0 as int,
            current.position.position.1 as int,
        ),
        old(matrix).cell(
            current.position.position.0 as int,
            current.position.position.1 as int,
        ).visited,
        old(matrix).cell(
            current.position.position.0 as int,
            current.position.position.1 as int,
        ).distance == current.distance,
        old(matrix).in_bounds(nbp.position.0 as int, nbp.position.1 as int),
        spec_chebyshev(nbp.position, current.position.position) == 1,
        old(matrix).in_bounds(end.position.0 as int, end.position.1 as int),
        visited_count(*old(matrix)) <= o.y_size * o.x_size,
    ensures
        search_inv(*final(matrix), o, s, end.position),
        final(matrix).y_size == old(matrix).y_size,
        final(matrix).x_size == old(matrix).x_size,
        !r.0 ==> *final(matrix) == *old(matrix),
        r.1 ==> r.0,
        r.1 == (r.0 && !old(matrix).cell(nbp.position.0 as int, nbp.position.1 as int).visited),
        r.0 ==> final(matrix).cell(nbp.position.0 as int, nbp.position.1 as int).visited,
        r.1 ==> visited_count(*final(matrix)) == visited_count(*old(matrix)) + 1,
        !r.1 ==> visited_count(*final(matrix)) == visited_count(*old(matrix)),
        old(matrix).cell(nbp.position.0 as int, nbp.position.1 as int).t != KIND_WALL
            ==> final(matrix).cell(nbp.position.0 as int, nbp.position.1 as int).visited,
        forall|rr: int, cc: int|
            old(matrix).in_bounds(rr, cc) && !(rr == nbp.position.0 as int && cc
                == nbp.position.1 as int) ==> #[trigger] final(matrix).cell(rr, cc) == old(matrix).cell(rr, cc),
        visited_monotone(*old(matrix), *final(matrix)),
        r.0 ==> old(matrix).cell(nbp.position.0 as int, nbp.position.1 as int).t != KIND_WALL,
        r.0 ==> final(matrix).cell(nbp.position.0 as int, nbp.position.1 as int).distance
            == current.distance + 1,
        r.0 && !r.1 ==> current.distance + 1 < old(matrix).cell(
            nbp.position.0 as int,
            nbp.position.1 as int,
        ).distance,
        !r.0 && old(matrix).cell(nbp.position.0 as int, nbp.position.1 as int).t != KIND_WALL
            ==> old(matrix).cell(nbp.position.0 as int, nbp.position.1 as int).visited && old(
            matrix,
        ).cell(nbp.position.0 as int, nbp.position.1 as int).distance <= current.distance + 1,
{
    let ghost cur = current.position.position;
    let ghost nq = nbp.position;
    let ncur = *matrix.at_pos(nbp);
    proof {
        assert(o.y_size * o.x_size <= 0x3fff_0001) by (nonlinear_arith)
            requires
                o.y_size <= 0x7fff,
                o.x_size <= 0x7fff,
        ;
        assert(current.distance < 0x3fff_0001);
        assert(spec_chebyshev(cur, nq) == 1);
    }
    let step = current.get_position().distance(nbp);
    let cost = current.get_distance() + step;
    let fresh = !ncur.get_visited();
    if !(!ncur.is_wall() && (fresh || cost < ncur.get_distance())) {
        return (false, false);
    }
    let h = heuristic(nbp, end);
    proof {
        assert(spec_chebyshev(nq, end.position) <= 0x7fff) by {
            assert(nq.0 < 0x8000 && nq.1 < 0x8000 && end.position.0 < 0x8000 && end.position.1
                < 0x8000);
        }
    }
    let mut nc2 = ncur;
    nc2.set_visited(true);
    nc2.set_distance(cost);
    nc2.set_heuristics(h);
    nc2.set_parent(*current);
    let ghost m_prev = *matrix;
    matrix.set(nbp.position.0 as usize, nbp.position.1 as usize, nc2);
    proof {
        if !ncur.visited {
            lemma_count_update(m_prev, *matrix, nq.0 as int, nq.1 as int, m_prev.y_size as int);
        } else {
            lemma_count_agree(m_prev, *matrix, m_prev.y_size as int);
        }
        lemma_count_bounds(*matrix, matrix.y_size as int);
        assert(ncur == m_prev.cell(nq.0 as int, nq.1 as int));
        assert(ncur.position.position == nq);
        assert(matrix.cell(nq.0 as int, nq.1 as int) == nc2);
        assert(cost >= 1);
        assert(nq != s);
        assert(adjacent(cur, nq));
        assert(cur != nq);
        assert(matrix.cell(cur.0 as int, cur.1 as int) == m_prev.cell(cur.0 as int, cur.1 as int));
        assert(matrix.wf());
        assert(matrix.positions_consistent());
        assert(forall|r: int, c: int|
            matrix.in_bounds(r, c) ==> (#[trigger] matrix.cell(r, c)).t == o.cell(r, c).t);
        assert(forall|r: int, c: int|
            matrix.in_bounds(r, c) && !(#[trigger] matrix.cell(r, c)).visited ==> matrix.cell(r, c)
                == o.cell(r, c));
        assert(forall|r: int, c: int|
            matrix.in_bounds(r, c) ==> !(#[trigger] matrix.cell(r, c)).walk);
        assert(chain_inv(*matrix, s)) by {
            assert forall|r: int, c: int|
                matrix.in_bounds(r, c) && (#[trigger] matrix.cell(r, c)).visited && (r, c) != (
                s.0 as int,
                s.1 as int,
            ) implies {
                let cell = matrix.cell(r, c);
                &&& cell.t != KIND_WALL
                &&& cell.parent is Some
                &&& matrix.in_bounds(cell.parent->Some_0.0 as int, cell.parent->Some_0.1 as int)
                &&& adjacent(cell.parent->Some_0, (r as u32, c as u32))
                &&& matrix.cell(
                    cell.parent->Some_0.0 as int,
                    cell.parent->Some_0.1 as int,
                ).visited
                &&& matrix.cell(
                    cell.parent->Some_0.0 as int,
                    cell.parent->Some_0.1 as int,
                ).distance < cell.distance
            } by {
                if r == nq.0 as int && c == nq.1 as int {
                    assert(matrix.cell(r, c) == nc2);
                    assert(nc2.parent == Some(cur));
                    assert(matrix.cell(cur.0 as int, cur.1 as int).distance == current.distance);
                    assert(current.distance < cost);
                } else {
                    let cell = matrix.cell(r, c);
                    assert(cell == m_prev.cell(r, c));
                    assert(m_prev.cell(r, c).visited);
                    let pq = cell.parent->Some_0;
                    if pq.0 == nq.0 && pq.1 == nq.1 {
                        assert(m_prev.cell(pq.0 as int, pq.1 as int).visited);
                        assert(ncur.visited);
                        assert(cost < ncur.distance);
                        assert(matrix.cell(pq.0 as int, pq.1 as int) == nc2);
                    } else {
                        assert(matrix.cell(pq.0 as int, pq.1 as int) == m_prev.cell(
                            pq.0 as int,
                            pq.1 as int,
                        ));
                    }
                }
            }
        }
        assert forall|r: int, c: int|
            matrix.in_bounds(r, c) && (#[trigger] matrix.cell(r, c)).visited implies matrix.cell(
            r,
            c,
        ).distance < visited_count(*matrix) by {
            if r == nq.0 as int && c == nq.1 as int {
                if !ncur.visited {
                    assert(visited_count(*matrix) == visited_count(m_prev) + 1);
                    assert(current.distance < visited_count(m_prev));
                } else {
                    assert(visited_count(*matrix) == visited_count(m_prev));
                    assert(cost < ncur.distance);
                    assert(ncur.distance < visited_count(m_prev));
                }
            } else {
                assert(matrix.cell(r, c) == m_prev.cell(r, c));
                assert(visited_count(m_prev) <= visited_count(*matrix));
            }
        }
        assert(forall|r: int, c: int|
            matrix.in_bounds(r, c) && (#[trigger] matrix.cell(r, c)).visited ==> matrix.cell(
                r,
                c,
            ).heuristics <= 0x7fff);
        assert(nc2.heuristics == spec_chebyshev(nq, end.position));
        assert forall|r: int, c: int|
            matrix.in_bounds(r, c) && (#[trigger] matrix.cell(r, c)).visited implies matrix.cell(
            r,
            c,
        ).heuristics == spec_chebyshev((r as u32, c as u32), end.position) by {
            if !(r == nq.0 as int && c == nq.1 as int) {
                assert(matrix.cell(r, c) == m_prev.cell(r, c));
            }
        }
        assert(search_inv(*matrix, o, s, end.position));
    }
    (true, fresh)
}

/// Packages the reconstruction's outcome: the goal-to-start chain
/// reversed and prefixed with the start is an open walk, so the
/// reconstruction's length meets the goal's optimal distance exactly.
/// The goal-to-start chain from position `j` onward, reversed and
/// prefixed with the start, is an open walk of exactly one step per
/// chain cell.
proof fn lemma_chain_to_walk(
    o: Matrix,
    m_search: Matrix,
    s: (u32, u32),
    pathv: Seq<MyCell>,
    j: int,
)
    requires
        m_search.wf(),
        m_search.y_size == o.y_size,
        m_search.x_size == o.x_size,
        forall|r: int, c: int|
            m_search.in_bounds(r, c) ==> (#[trigger] m_search.cell(r, c)).t == o.cell(r, c).t,
        m_search.in_bounds(s.0 as int, s.1 as int),
        pathv.len() >= 1,
        forall|i: int|
            0 <= i < pathv.len() ==> {
                let cell = #[trigger] pathv[i];
                &&& m_search.in_bounds(cell.position.position.0 as int, cell.position.position.1 as int)
                &&& cell == m_search.cell(
                    cell.position.position.0 as int,
                    cell.position.position.1 as int,
                )
                &&& cell.t != KIND_WALL
            },
        forall|i: int|
            0 <= i < pathv.len() - 1 ==> adjacent(
                (#[trigger] pathv[i + 1]).position.position,
                pathv[i].position.position,
            ),
        adjacent(s, pathv[pathv.len() - 1].position.position),
        0 <= j < pathv.len(),
    ensures
        exists|ps: Seq<(u32, u32)>|
            #[trigger] is_open_path(o, s, pathv[j].position.position, ps) && ps.len() - 1
                == pathv.len() - j,
    decreases pathv.len() - j,
{
    if j == pathv.len() - 1 {
        let ps = seq![s, pathv[j].position.position];
        assert(is_open_path(o, s, pathv[j].position.position, ps)) by {
            assert(ps[0] == s);
            assert(ps[1] == pathv[j].position.position);
            assert(adjacent(ps[0], ps[1]));
            assert(o.cell(ps[1].0 as int, ps[1].1 as int).t != KIND_WALL);
        }
    } else {
        lemma_chain_to_walk(o, m_search, s, pathv, j + 1);
        let psu = choose|ps: Seq<(u32, u32)>|
            #[trigger] is_open_path(o, s, pathv[j + 1].position.position, ps) && ps.len() - 1
                == pathv.len() - (j + 1);
        let tq = pathv[j].position.position;
        let pst = psu.push(tq);
        assert(is_open_path(o, s, tq, pst)) by {
            assert(pst[pst.len() - 1] == tq);
            assert(pst[0] == psu[0]);
            assert forall|k: int| 0 <= k < pst.len() - 1 implies adjacent(
                #[trigger] pst[k],
                pst[k + 1],
            ) by {
                if k < psu.len() - 1 {
                    assert(pst[k] == psu[k] && pst[k + 1] == psu[k + 1]);
                    assert(adjacent(psu[k], psu[k + 1]));
                } else {
                    assert(pst[k] == psu[psu.len() - 1] && pst[k + 1] == tq);
                    assert(psu[psu.len() - 1] == pathv[j + 1].position.position);
                    assert(adjacent(pathv[j + 1].position.position, tq));
                }
            }
            assert forall|k: int| 1 <= k < pst.len() implies o.cell(
                (#[trigger] pst[k]).0 as int,
                pst[k].1 as int,
            ).t != KIND_WALL by {
                if k < psu.len() {
                    assert(pst[k] == psu[k]);
                    assert(o.cell(psu[k].0 as int, psu[k].1 as int).t != KIND_WALL);
                } else {
                    assert(pst[k] == tq);
                }
            }
            assert forall|k: int| 0 <= k < pst.len() implies o.in_bounds(
                (#[trigger] pst[k]).0 as int,
                pst[k].1 as int,
            ) by {
                if k < psu.len() {
                    assert(pst[k] == psu[k]);
                    assert(o.in_bounds(psu[k].0 as int, psu[k].1 as int));
                } else {
                    assert(pst[k] == tq);
                }
            }
        }
    }
}

/// Packages the reconstruction's outcome: the chain yields an open walk
/// of its own length, so the reconstruction meets the goal's optimal
/// distance exactly.
#[verifier::spinoff_prover]
proof fn lemma_reconstruction_optimal(
    o: Matrix,
    m_search: Matrix,
    s: (u32, u32),
    e: (u32, u32),
    pathv: Seq<MyCell>,
)
    requires
        m_search.wf(),
        m_search.y_size == o.y_size,
        m_search.x_size == o.x_size,
        forall|r: int, c: int|
            m_search.in_bounds(r, c) ==> (#[trigger] m_search.cell(r, c)).t == o.cell(r, c).t,
        m_search.in_bounds(s.0 as int, s.1 as int),
        m_search.in_bounds(e.0 as int, e.1 as int),
        pathv.len() >= 1,
        pathv[0].position.position == e,
        forall|i: int|
            0 <= i < pathv.len() ==> {
                let cell = #[trigger] pathv[i];
                &&& m_search.in_bounds(cell.position.position.0 as int, cell.position.position.1 as int)
                &&& cell == m_search.cell(
                    cell.position.position.0 as int,
                    cell.position.position.1 as int,
                )
                &&& cell.t != KIND_WALL
            },
        forall|i: int|
            0 <= i < pathv.len() - 1 ==> adjacent(
                (#[trigger] pathv[i + 1]).position.position,
                pathv[i].position.position,
            ),
        adjacent(s, pathv[pathv.len() - 1].position.position),
        forall|ps: Seq<(u32, u32)>|
            #[trigger] is_open_path(o, s, e, ps) ==> m_search.cell(
                e.0 as int,
                e.1 as int,
            ).distance <= ps.len() - 1,
        pathv.len() <= m_search.cell(e.0 as int, e.1 as int).distance,
    ensures
        reachable(o, s, e),
        pathv.len() == m_search.cell(e.0 as int, e.1 as int).distance,
        exists|ps: Seq<(u32, u32)>| is_open_path(o, s, e, ps) && ps.len() - 1 == pathv.len(),
        forall|ps: Seq<(u32, u32)>|
            #[trigger] is_open_path(o, s, e, ps) ==> pathv.len() <= ps.len() - 1,
        pathv.len() >= spec_chebyshev(s, e),
{
    lemma_chain_to_walk(o, m_search, s, pathv, 0);
    assert(pathv[0].position.position == e);
    let ps = choose|ps: Seq<(u32, u32)>|
        #[trigger] is_open_path(o, s, e, ps) && ps.len() - 1 == pathv.len();
    assert(m_search.cell(e.0 as int, e.1 as int).distance <= ps.len() - 1);
    assert(pathv.len() == m_search.cell(e.0 as int, e.1 as int).distance);
    lemma_path_length_at_least_chebyshev(pathv, s, e);
}

/// After the walk flags are painted, the annotated grid still carries
/// the search's state invariants: the parent chain survives, walked
/// cells are visited open cells, and untouched cells equal the fresh
/// grid's.
proof fn lemma_annotated_grid(
    m: Matrix,
    m_search: Matrix,
    o: Matrix,
    pathv: Seq<MyCell>,
    s: (u32, u32),
)
    requires
        m_search.wf(),
        o.cells_fresh(),
        m.y_size == m_search.y_size,
        m.x_size == m_search.x_size,
        forall|rr: int, cc: int|
            m.in_bounds(rr, cc) ==> #[trigger] m.cell(rr, cc) == (MyCell {
                walk: m.cell(rr, cc).walk,
                ..m_search.cell(rr, cc)
            }),
        forall|rr: int, cc: int|
            m.in_bounds(rr, cc) ==> ((#[trigger] m.cell(rr, cc)).walk <==> on_path(
                pathv,
                rr,
                cc,
            )),
        forall|i: int|
            0 <= i < pathv.len() ==> {
                let cell = #[trigger] pathv[i];
                &&& m_search.in_bounds(cell.position.position.0 as int, cell.position.position.1 as int)
                &&& cell == m_search.cell(
                    cell.position.position.0 as int,
                    cell.position.position.1 as int,
                )
                &&& cell.visited
                &&& cell.t != KIND_WALL
            },
        m_search.y_size == o.y_size,
        m_search.x_size == o.x_size,
        forall|r: int, c: int|
            m_search.in_bounds(r, c) && !(#[trigger] m_search.cell(r, c)).visited
                ==> m_search.cell(r, c) == o.cell(r, c),
        chain_inv(m_search, s),
    ensures
        chain_inv(m, s),
        forall|rr: int, cc: int|
            m.in_bounds(rr, cc) && (#[trigger] m.cell(rr, cc)).walk ==> m.cell(rr, cc).visited
                && m.cell(rr, cc).t != KIND_WALL,
        forall|rr: int, cc: int|
            m.in_bounds(rr, cc) && !(#[trigger] m.cell(rr, cc)).visited ==> m.cell(rr, cc)
                == o.cell(rr, cc),
        forall|rr: int, cc: int|
            m.in_bounds(rr, cc) && (rr, cc) != (s.0 as int, s.1 as int) && (#[trigger] m.cell(
                rr,
                cc,
            )).t == KIND_WALL ==> !m.cell(rr, cc).visited,
{
    assert forall|rr: int, cc: int|
        m.in_bounds(rr, cc) && (#[trigger] m.cell(rr, cc)).walk implies m.cell(rr, cc).visited
        && m.cell(rr, cc).t != KIND_WALL by {
        assert(on_path(pathv, rr, cc));
        let i = choose|i: int|
            0 <= i < pathv.len() && (#[trigger] pathv[i]).position.position == (
            rr as u32,
            cc as u32,
            );
        assert(pathv[i] == m_search.cell(rr, cc));
        assert(pathv[i].visited && pathv[i].t != KIND_WALL);
    }
    assert forall|rr: int, cc: int|
        m.in_bounds(rr, cc) && !(#[trigger] m.cell(rr, cc)).visited implies m.cell(rr, cc)
        == o.cell(rr, cc) by {
        assert(!m_search.cell(rr, cc).visited);
        assert(m_search.cell(rr, cc) == o.cell(rr, cc));
        if m.cell(rr, cc).walk {
            assert(m.cell(rr, cc).visited);
            assert(false);
        }
    }
    assert(chain_inv(m, s)) by {
        assert forall|r: int, c: int|
            m.in_bounds(r, c) && (#[trigger] m.cell(r, c)).visited && (r, c) != (
            s.0 as int,
            s.1 as int,
        ) implies {
            let cell = m.cell(r, c);
            &&& cell.t != KIND_WALL
            &&& cell.parent is Some
            &&& m.in_bounds(cell.parent->Some_0.0 as int, cell.parent->Some_0.1 as int)
            &&& adjacent(cell.parent->Some_0, (r as u32, c as u32))
            &&& m.cell(cell.parent->Some_0.0 as int, cell.parent->Some_0.1 as int).visited
            &&& m.cell(cell.parent->Some_0.0 as int, cell.parent->Some_0.1 as int).distance
                < cell.distance
        } by {
            assert(m_search.cell(r, c).visited);
            let pq = m_search.cell(r, c).parent->Some_0;
            assert(m.cell(pq.0 as int, pq.1 as int) == (MyCell {
                walk: m.cell(pq.0 as int, pq.1 as int).walk,
                ..m_search.cell(pq.0 as int, pq.1 as int)
            }));
        }
    }
}

/// Best-first shortest-path search from `start` to `end` over an 8-connected
/// grid where every move costs 1. The frontier is an indexed priority
/// structure: it holds bare coordinates and reads each key live from the
/// grid, so relaxing a cell in place is the decrease-key operation and no
/// stale entries ever arise. Pops take the least combined cost
/// (distance plus Chebyshev heuristic), ties broken by ascending distance.
///
/// Returns the reconstructed goal-to-start path (end cell included, start
/// cell excluded) and annotates the grid in place: `visited` marks every
/// cell the search reached, `walk` exactly the returned path's cells.
/// The returned path is shortest: its length equals the goal cell's
/// recorded distance, and no open walk from `start` to `end` has fewer
/// steps. Returns `Unreachable` exactly when no open walk connects
/// `start` to `end`; with `start == end` the path is empty and the grid
/// untouched.
#[verifier::rlimit(100)]
#[verifier::spinoff_prover]
pub fn find_shortest(matrix: &mut Matrix, start: &Position, end: &Position) -> (r: Result<
    Vec<MyCell>,
    MazeError,
>)
    requires
        old(matrix).wf(),
        old(matrix).positions_consistent(),
        old(matrix).cells_fresh(),
        old(matrix).in_bounds(start.position.0 as int, start.position.1 as int),
        old(matrix).in_bounds(end.position.0 as int, end.position.1 as int),
    ensures
        final(matrix).wf(),
        final(matrix).y_size == old(matrix).y_size,
        final(matrix).x_size == old(matrix).x_size,
        final(matrix).positions_consistent(),
        forall|rr: int, cc: int|
            final(matrix).in_bounds(rr, cc) ==> (#[trigger] final(matrix).cell(rr, cc)).t == old(
                matrix,
            ).cell(rr, cc).t,
        forall|rr: int, cc: int|
            final(matrix).in_bounds(rr, cc) && !(#[trigger] final(matrix).cell(rr, cc)).visited
                ==> final(matrix).cell(rr, cc) == old(matrix).cell(rr, cc),
        forall|rr: int, cc: int|
            final(matrix).in_bounds(rr, cc) && (rr, cc) != (
                start.position.0 as int,
                start.position.1 as int,
            ) && (#[trigger] final(matrix).cell(rr, cc)).t == KIND_WALL ==> !final(matrix).cell(
                rr,
                cc,
            ).visited,
        forall|rr: int, cc: int|
            final(matrix).in_bounds(rr, cc) && (#[trigger] final(matrix).cell(rr, cc)).walk
                ==> final(matrix).cell(rr, cc).visited && final(matrix).cell(rr, cc).t
                != KIND_WALL,
        start.position != end.position ==> chain_inv(*final(matrix), start.position),
        r is Ok <==> (start.position == end.position || reachable(
            *old(matrix),
            start.position,
            end.position,
        )),
        r is Err ==> r == Err::<Vec<MyCell>, MazeError>(MazeError::Unreachable),
        r is Err ==> forall|rr: int, cc: int|
            final(matrix).in_bounds(rr, cc) ==> !(#[trigger] final(matrix).cell(rr, cc)).walk,
        start.position == end.position ==> r is Ok && (r->Ok_0)@.len() == 0 && *final(matrix)
            == *old(matrix),
        r is Ok && start.position != end.position ==> {
            let path = (r->Ok_0)@;
            &&& path.len() >= 1
            &&& path[0].position.position == end.position
            &&& forall|i: int|
                0 <= i < path.len() ==> (#[trigger] path[i]).position.position != start.position
            &&& forall|i: int|
                0 <= i < path.len() ==> final(matrix).in_bounds(
                    (#[trigger] path[i]).position.position.0 as int,
                    path[i].position.position.1 as int,
                ) && path[i].t != KIND_WALL && path[i].visited
            &&& forall|i: int|
                0 <= i < path.len() - 1 ==> adjacent(
                    (#[trigger] path[i + 1]).position.position,
                    path[i].position.position,
                )
            &&& forall|i: int|
                0 <= i < path.len() - 1 ==> (#[trigger] path[i]).parent == Some(
                    path[i + 1].position.position,
                )
            &&& path[path.len() - 1].parent == Some(start.position)
            &&& adjacent(start.position, path[path.len() - 1].position.position)
            &&& path.len() >= spec_chebyshev(start.position, end.position)
            &&& path.len() == final(matrix).cell(
                end.position.0 as int,
                end.position.1 as int,
            ).distance
            &&& forall|ps: Seq<(u32, u32)>|
                is_open_path(*old(matrix), start.position, end.position, ps) ==> path.len()
                    <= ps.len() - 1
            &&& exists|ps: Seq<(u32, u32)>|
                is_open_path(*old(matrix), start.position, end.position, ps) && ps.len() - 1
                    == path.len()
            &&& forall|rr: int, cc: int|
                final(matrix).in_bounds(rr, cc) ==> ((#[trigger] final(matrix).cell(rr, cc)).walk
                    <==> on_path(path, rr, cc))
            &&& forall|rr: int, cc: int|
                final(matrix).in_bounds(rr, cc) && (#[trigger] final(matrix).cell(rr, cc)).t
                    == KIND_WALL ==> !final(matrix).cell(rr, cc).walk
        },
{
    let ghost o = *old(matrix);
    let ghost s = start.position;
    let ghost e = end.position;

    if start.y() == end.y() && start.x() == end.x() {
        proof {
            let ps = seq![s];
            assert(is_open_path(o, s, e, ps));
        }
        return Ok(Vec::new());
    }

    let mut sc = *matrix.at_pos(start);
    sc.set_visited(true);
    sc.set_distance(0);
    sc.set_heuristics(heuristic(start, end));
    proof {
        lemma_count_none(*matrix, matrix.y_size as int);
    }
    let ghost m_fresh = *matrix;
    matrix.set(start.position.0 as usize, start.position.1 as usize, sc);
    proof {
        lemma_count_none(m_fresh, m_fresh.y_size as int);
        lemma_count_update(
            m_fresh,
            *matrix,
            s.0 as int,
            s.1 as int,
            m_fresh.y_size as int,
        );
        lemma_count_bounds(*matrix, matrix.y_size as int);
        assert(visited_count(*matrix) == 1);
        assert(spec_chebyshev(s, e) <= 0x7fff) by {
            assert(s.0 < 0x8000 && s.1 < 0x8000 && e.0 < 0x8000 && e.1 < 0x8000);
        }
        assert(search_inv(*matrix, o, s, e));
    }
    let mut frontier: Vec<Position> = Vec::new();
    frontier.push(*start);
    let mut found: bool = false;
    proof {
        reveal(closed_except);
        assert(frontier@[0] == *start);
        assert(in_frontier(frontier@, s.0 as int, s.1 as int));
        assert(closed_except(*matrix, frontier@, -1, -1));
        assert(popped_optimal(*matrix, o, frontier@, s)) by {
            reveal(popped_optimal);
        }
        assert(dist_achievable(*matrix, o, s)) by {
            reveal(dist_achievable);
            assert forall|pr: int, pc: int|
                matrix.in_bounds(pr, pc) && (#[trigger] matrix.cell(pr, pc)).visited
                    implies exists|ps: Seq<(u32, u32)>|
                is_open_path(o, s, (pr as u32, pc as u32), ps) && ps.len() - 1 <= matrix.cell(
                    pr,
                    pc,
                ).distance by {
                let ps = seq![s];
                assert(is_open_path(o, s, (pr as u32, pc as u32), ps));
                assert(ps.len() - 1 <= matrix.cell(pr, pc).distance);
            }
        }
    }

    while frontier.len() > 0
        invariant_except_break
            !found,
            !matrix.cell(e.0 as int, e.1 as int).visited,
            closed_except(*matrix, frontier@, -1, -1),
            popped_optimal(*matrix, o, frontier@, s),
            dist_achievable(*matrix, o, s),
        invariant
            o.wf(),
            o.positions_consistent(),
            o.cells_fresh(),
            o.in_bounds(s.0 as int, s.1 as int),
            o.in_bounds(e.0 as int, e.1 as int),
            s == start.position,
            e == end.position,
            s != e,
            search_inv(*matrix, o, s, e),
            frontier_ok(frontier@, *matrix),
            visited_count(*matrix) <= o.y_size * o.x_size,
        ensures
            search_inv(*matrix, o, s, e),
            found ==> matrix.cell(e.0 as int, e.1 as int).visited,
            found ==> forall|ps: Seq<(u32, u32)>|
                #[trigger] is_open_path(o, s, e, ps) ==> matrix.cell(
                    e.0 as int,
                    e.1 as int,
                ).distance <= ps.len() - 1,
            !found ==> frontier@.len() == 0 && !matrix.cell(e.0 as int, e.1 as int).visited
                && closed_except(*matrix, frontier@, -1, -1),
        decreases o.y_size * o.x_size - visited_count(*matrix), frontier@.len(),
    {
        proof {
            lemma_count_bounds(*matrix, matrix.y_size as int);
            assert(o.y_size * o.x_size <= 0x3fff_0001) by (nonlinear_arith)
                requires
                    o.y_size <= 0x7fff,
                    o.x_size <= 0x7fff,
            ;
        }
        let best = pick_best(matrix, &frontier);
        let ghost fr_before = frontier@;
        let cur_pos = frontier.remove(best);
        let current = *matrix.at_pos(&cur_pos);
        let ghost cur = cur_pos.position;
        let ghost fr_popped = frontier@;
        let ghost m_pop = *matrix;
        let ghost entry_count = visited_count(*matrix);
        let ghost entry_flen = frontier@.len();
        proof {
            reveal(closed_except);
            assert(current.position.position == cur);
            assert forall|pr: int, pc: int|
                m_pop.in_bounds(pr, pc) && (#[trigger] m_pop.cell(pr, pc)).visited && !in_frontier(
                    fr_popped,
                    pr,
                    pc,
                ) && !(pr == cur.0 as int && pc == cur.1 as int) implies nbrs_settled(
                m_pop,
                pr,
                pc,
            ) by {
                if in_frontier(fr_before, pr, pc) {
                    let i = choose|i: int|
                        0 <= i < fr_before.len() && (#[trigger] fr_before[i]).position == (
                        pr as u32,
                        pc as u32,
                        );
                    if i < best {
                        assert(fr_popped[i].position == (pr as u32, pc as u32));
                        assert(false);
                    } else if i > best {
                        assert(fr_popped[i - 1].position == (pr as u32, pc as u32));
                        assert(false);
                    } else {
                        assert((pr as u32, pc as u32) == cur);
                        assert(false);
                    }
                }
            }
            assert(closed_except(*matrix, frontier@, cur.0 as int, cur.1 as int));
            assert(popped_optimal(*matrix, o, frontier@, s)) by {
                reveal(popped_optimal);
                assert forall|pr: int, pc: int, ps: Seq<(u32, u32)>|
                    matrix.in_bounds(pr, pc) && (#[trigger] matrix.cell(pr, pc)).visited
                        && !in_frontier(fr_popped, pr, pc) && #[trigger] is_open_path(
                        o,
                        s,
                        (pr as u32, pc as u32),
                        ps,
                    ) implies matrix.cell(pr, pc).distance <= ps.len() - 1 by {
                    if pr == cur.0 as int && pc == cur.1 as int {
                        lemma_pop_optimal_scan(m_pop, o, fr_before, s, e, cur_pos, ps, 0);
                    } else {
                        if in_frontier(fr_before, pr, pc) {
                            let i = choose|i: int|
                                0 <= i < fr_before.len() && (#[trigger] fr_before[i]).position
                                    == (pr as u32, pc as u32);
                            if i < best {
                                assert(fr_popped[i].position == (pr as u32, pc as u32));
                                assert(false);
                            } else if i > best {
                                assert(fr_popped[i - 1].position == (pr as u32, pc as u32));
                                assert(false);
                            } else {
                                assert((pr as u32, pc as u32) == cur);
                                assert(false);
                            }
                        }
                    }
                }
            }
            assert forall|ps: Seq<(u32, u32)>| #[trigger] is_open_path(o, s, e, ps)
                implies current.distance + spec_chebyshev(cur, e) <= ps.len() - 1 by {
                lemma_goal_bound_scan(m_pop, o, fr_before, s, e, cur_pos, ps, 0);
            }
        }
        let neighbours = matrix.get_neighbours(&current);
        proof {
            assert(neighbours_facts(m_pop, neighbours@, cur));
        }
        let mut ni: usize = 0;
        while ni < neighbours.len()
            invariant_except_break
                !found,
                !matrix.cell(e.0 as int, e.1 as int).visited,
                frontier@.len() == entry_flen + visited_count(*matrix) - entry_count,
                closed_except(*matrix, frontier@, cur.0 as int, cur.1 as int),
                popped_optimal(*matrix, o, frontier@, s),
                dist_achievable(*matrix, o, s),
            invariant
                o.wf(),
                o.positions_consistent(),
                o.cells_fresh(),
                o.in_bounds(s.0 as int, s.1 as int),
                o.in_bounds(e.0 as int, e.1 as int),
                s == start.position,
                e == end.position,
                s != e,
                search_inv(*matrix, o, s, e),
                frontier_ok(frontier@, *matrix),
                ni <= neighbours@.len(),
                cur == current.position.position,
                matrix.in_bounds(cur.0 as int, cur.1 as int),
                matrix.cell(cur.0 as int, cur.1 as int).visited,
                matrix.cell(cur.0 as int, cur.1 as int).distance == current.distance,
                m_pop.wf(),
                m_pop.positions_consistent(),
                m_pop.y_size == o.y_size,
                m_pop.x_size == o.x_size,
                matrix.y_size == m_pop.y_size,
                matrix.x_size == m_pop.x_size,
                forall|r: int, c: int|
                    m_pop.in_bounds(r, c) ==> (#[trigger] m_pop.cell(r, c)).t == matrix.cell(
                        r,
                        c,
                    ).t,
                neighbours_facts(m_pop, neighbours@, cur),
                processed_upto(*matrix, neighbours@, ni as int, current.distance as int),
                visited_monotone(m_pop, *matrix),
                entry_count <= visited_count(*matrix),
                visited_count(*matrix) <= o.y_size * o.x_size,
                forall|ps: Seq<(u32, u32)>|
                    #[trigger] is_open_path(o, s, e, ps) ==> current.distance + spec_chebyshev(
                        cur,
                        e,
                    ) <= ps.len() - 1,
            ensures
                search_inv(*matrix, o, s, e),
                frontier_ok(frontier@, *matrix),
                entry_count <= visited_count(*matrix),
                visited_count(*matrix) <= o.y_size * o.x_size,
                found ==> matrix.cell(e.0 as int, e.1 as int).visited,
                found ==> forall|ps: Seq<(u32, u32)>|
                    #[trigger] is_open_path(o, s, e, ps) ==> matrix.cell(
                        e.0 as int,
                        e.1 as int,
                    ).distance <= ps.len() - 1,
                !found ==> frontier@.len() == entry_flen + visited_count(*matrix) - entry_count,
                !found ==> !matrix.cell(e.0 as int, e.1 as int).visited && processed_upto(
                    *matrix,
                    neighbours@,
                    neighbours@.len() as int,
                    current.distance as int,
                ) && closed_except(*matrix, frontier@, cur.0 as int, cur.1 as int)
                    && popped_optimal(*matrix, o, frontier@, s) && dist_achievable(*matrix, o, s)
                    && visited_monotone(m_pop, *matrix) && matrix.cell(
                    cur.0 as int,
                    cur.1 as int,
                ).distance == current.distance && (forall|r: int, c: int|
                    m_pop.in_bounds(r, c) ==> (#[trigger] m_pop.cell(r, c)).t == matrix.cell(
                        r,
                        c,
                    ).t),
            decreases neighbours@.len() - ni,
        {
            let is_ok = neighbours[ni].is_ok();
            if is_ok {
                let nb = match &neighbours[ni] {
                    Ok(n) => *n,
                    Err(_) => {
                        proof {
                            assert(false);
                        }
                        current
                    },
                };
                let nbp: Position = *nb.get_position();
                let ghost nq = nbp.position;
                proof {
                    assert(spec_chebyshev(nq, cur) == 1);
                    assert(spec_chebyshev(cur, nq) == 1);
                    assert(matrix.in_bounds(nq.0 as int, nq.1 as int));
                }
                let ghost m_prev = *matrix;
                let ghost fr_b = frontier@;
                let rf = relax_cell(matrix, &nbp, &current, end, Ghost(o), Ghost(s));
                let relaxed = rf.0;
                let fresh = rf.1;
                proof {
                    if relaxed && !fresh {
                        lemma_improved_target_unpopped(m_prev, o, fr_b, s, cur, nq);
                    }
                }
                if relaxed && nbp.y() == end.y() && nbp.x() == end.x() {
                    found = true;
                    proof {
                        lemma_count_bounds(*matrix, matrix.y_size as int);
                        assert(matrix.cell(e.0 as int, e.1 as int).visited);
                        assert(matrix.cell(e.0 as int, e.1 as int).distance == current.distance
                            + 1);
                        assert(spec_chebyshev(cur, e) == 1);
                        assert forall|ps: Seq<(u32, u32)>| #[trigger] is_open_path(o, s, e, ps)
                            implies matrix.cell(e.0 as int, e.1 as int).distance <= ps.len()
                            - 1 by {
                            assert(current.distance + spec_chebyshev(cur, e) <= ps.len() - 1);
                        }
                    }
                    break;
                }
                if fresh {
                    frontier.push(nbp);
                    proof {
                        assert(frontier@[frontier@.len() - 1] == nbp);
                        assert(in_frontier(frontier@, nq.0 as int, nq.1 as int));
                    }
                }
                proof {
                    lemma_count_bounds(*matrix, matrix.y_size as int);
                    assert(frontier_ok(frontier@, *matrix));
                    assert(processed_upto(*matrix, neighbours@, ni + 1, current.distance as int))
                        by {
                        assert forall|j: int| 0 <= j < ni + 1 && j < neighbours@.len() implies {
                            let n = (#[trigger] neighbours@[j])->Ok_0;
                            n.t != KIND_WALL ==> matrix.cell(
                                n.position.position.0 as int,
                                n.position.position.1 as int,
                            ).visited && matrix.cell(
                                n.position.position.0 as int,
                                n.position.position.1 as int,
                            ).distance <= current.distance + 1
                        } by {
                            let n = neighbours@[j]->Ok_0;
                            if j < ni {
                                assert(m_prev.in_bounds(
                                    n.position.position.0 as int,
                                    n.position.position.1 as int,
                                ));
                                if n.t != KIND_WALL {
                                    assert(m_prev.cell(
                                        n.position.position.0 as int,
                                        n.position.position.1 as int,
                                    ).visited && m_prev.cell(
                                        n.position.position.0 as int,
                                        n.position.position.1 as int,
                                    ).distance <= current.distance + 1);
                                }
                            } else {
                                assert(n == nb);
                                if n.t != KIND_WALL {
                                    assert(m_prev.cell(nq.0 as int, nq.1 as int).t == n.t);
                                }
                            }
                        }
                    }
                    assert forall|r: int, c: int|
                        in_frontier(fr_b, r, c) implies in_frontier(frontier@, r, c) by {
                        let i = choose|i: int|
                            0 <= i < fr_b.len() && (#[trigger] fr_b[i]).position == (
                            r as u32,
                            c as u32,
                            );
                        assert(frontier@[i].position == (r as u32, c as u32));
                    }
                    assert forall|r: int, c: int|
                        m_prev.in_bounds(r, c) && (#[trigger] matrix.cell(r, c)).visited
                            && !m_prev.cell(r, c).visited implies in_frontier(frontier@, r, c) || (
                        r == cur.0 as int && c == cur.1 as int) by {
                        assert(r == nq.0 as int && c == nq.1 as int);
                        assert(fresh);
                        assert(in_frontier(frontier@, nq.0 as int, nq.1 as int));
                    }
                    assert forall|r: int, c: int|
                        m_prev.in_bounds(r, c) && (#[trigger] m_prev.cell(r, c)).visited
                            && !in_frontier(fr_b, r, c) implies matrix.cell(r, c).distance
                        == m_prev.cell(r, c).distance by {
                        if relaxed && r == nq.0 as int && c == nq.1 as int {
                            assert(!fresh);
                            assert(in_frontier(fr_b, nq.0 as int, nq.1 as int));
                            assert(false);
                        }
                    }
                    lemma_closed_monotone(
                        m_prev,
                        *matrix,
                        fr_b,
                        frontier@,
                        cur.0 as int,
                        cur.1 as int,
                    );
                    assert(visited_monotone(m_pop, *matrix));
                    assert(popped_optimal(*matrix, o, frontier@, s)) by {
                        reveal(popped_optimal);
                        assert forall|pr: int, pc: int, ps: Seq<(u32, u32)>|
                            matrix.in_bounds(pr, pc) && (#[trigger] matrix.cell(pr, pc)).visited
                                && !in_frontier(frontier@, pr, pc) && #[trigger] is_open_path(
                                o,
                                s,
                                (pr as u32, pc as u32),
                                ps,
                            ) implies matrix.cell(pr, pc).distance <= ps.len() - 1 by {
                            if relaxed && pr == nq.0 as int && pc == nq.1 as int {
                                assert(in_frontier(frontier@, nq.0 as int, nq.1 as int));
                                assert(false);
                            } else {
                                assert(matrix.cell(pr, pc) == m_prev.cell(pr, pc));
                                assert(!in_frontier(fr_b, pr, pc));
                            }
                        }
                    }
                    assert(dist_achievable(*matrix, o, s)) by {
                        reveal(dist_achievable);
                        assert forall|pr: int, pc: int|
                            matrix.in_bounds(pr, pc) && (#[trigger] matrix.cell(pr, pc)).visited
                                implies exists|ps: Seq<(u32, u32)>|
                            is_open_path(o, s, (pr as u32, pc as u32), ps) && ps.len() - 1
                                <= matrix.cell(pr, pc).distance by {
                            if relaxed && pr == nq.0 as int && pc == nq.1 as int {
                                lemma_extend_achievable(m_prev, o, s, cur, nq);
                                assert(matrix.cell(pr, pc).distance == current.distance + 1);
                            } else {
                                assert(matrix.cell(pr, pc) == m_prev.cell(pr, pc));
                            }
                        }
                    }
                }
            }
            ni = ni + 1;
        }
        if found {
            break;
        }
        proof {
            lemma_nbrs_settled_from_processed(
                m_pop,
                *matrix,
                neighbours@,
                cur,
                current.distance as int,
            );
            assert(closed_except(*matrix, frontier@, -1, -1)) by {
                reveal(closed_except);
            }
        }
    }

    if !found {
        proof {
            if reachable(o, s, e) {
                let ps = choose|ps: Seq<(u32, u32)>| is_open_path(o, s, e, ps);
                assert forall|pr: int, pc: int|
                    matrix.in_bounds(pr, pc) && (#[trigger] matrix.cell(pr, pc)).visited
                        implies nbrs_settled(*matrix, pr, pc) by {
                    reveal(closed_except);
                    assert(!in_frontier(frontier@, pr, pc));
                }
                assert forall|j: int|
                    1 <= j < ps.len() implies matrix.cell(
                    (#[trigger] ps[j]).0 as int,
                    ps[j].1 as int,
                ).t != KIND_WALL by {
                    assert(o.cell(ps[j].0 as int, ps[j].1 as int).t != KIND_WALL);
                }
                lemma_path_prefix_visited(*matrix, ps, ps.len() - 1);
                assert(matrix.cell(e.0 as int, e.1 as int).visited);
                assert(false);
            }
        }
        return Err(MazeError::Unreachable);
    }

    let start_cell = *matrix.at_pos(start);
    let path = get_parents(matrix, &start_cell, end);
    let ghost m_search = *matrix;
    let ghost pathv = path@;
    proof {
        lemma_reconstruction_optimal(o, m_search, s, e, pathv);
    }
    let mut wi: usize = 0;
    while wi < path.len()
        invariant
            matrix.wf(),
            matrix.y_size == m_search.y_size,
            matrix.x_size == m_search.x_size,
            matrix.positions_consistent(),
            m_search.wf(),
            m_search.positions_consistent(),
            wi <= pathv.len(),
            pathv == path@,
            forall|i: int|
                0 <= i < pathv.len() ==> m_search.in_bounds(
                    (#[trigger] pathv[i]).position.position.0 as int,
                    pathv[i].position.position.1 as int,
                ),
            forall|rr: int, cc: int|
                matrix.in_bounds(rr, cc) ==> #[trigger] matrix.cell(rr, cc) == (MyCell {
                    walk: matrix.cell(rr, cc).walk,
                    ..m_search.cell(rr, cc)
                }),
            forall|rr: int, cc: int|
                matrix.in_bounds(rr, cc) ==> ((#[trigger] matrix.cell(rr, cc)).walk
                    <==> on_path_prefix(pathv, wi as int, rr, cc)),
        decreases pathv.len() - wi,
    {
        let c = &path[wi];
        let cy = c.y();
        let cx = c.x();
        let mut cc2 = *matrix.at(cy as usize, cx as usize);
        cc2.set_walk(true);
        matrix.set(cy as usize, cx as usize, cc2);
        proof {
            assert forall|rr: int, cc: int|
                matrix.in_bounds(rr, cc) implies ((#[trigger] matrix.cell(rr, cc)).walk
                <==> on_path_prefix(pathv, wi + 1, rr, cc)) by {
                if rr == cy as int && cc == cx as int {
                    assert(pathv[wi as int].position.position == (rr as u32, cc as u32));
                } else {
                    if on_path_prefix(pathv, wi + 1, rr, cc) {
                        let i = choose|i: int|
                            0 <= i < wi + 1 && i < pathv.len() && (#[trigger] pathv[i]).position.position
                                == (rr as u32, cc as u32);
                        assert(i < wi || i == wi);
                        if i == wi {
                            assert(false);
                        }
                        assert(on_path_prefix(pathv, wi as int, rr, cc));
                    }
                }
            }
        }
        wi = wi + 1;
    }
    proof {
        lemma_annotated_grid(*matrix, m_search, o, pathv, s);
        assert forall|rr: int, cc: int|
            matrix.in_bounds(rr, cc) && (#[trigger] matrix.cell(rr, cc)).t == KIND_WALL
                implies !matrix.cell(rr, cc).walk by {
            if matrix.cell(rr, cc).walk {
                assert(matrix.cell(rr, cc).t != KIND_WALL);
            }
        }
    }
    Ok(path)
}

/// Chebyshev distance obeys the triangle inequality.
proof fn lemma_chebyshev_triangle(a: (u32, u32), b: (u32, u32), c: (u32, u32))
    ensures
        spec_chebyshev(a, c) <= spec_chebyshev(a, b) + spec_chebyshev(b, c),
{
}

/// From position `i` onward, the chain still needs one step per cell:
/// the start is at most `len - i` Chebyshev steps from the chain's cell
/// at `i`.
proof fn lemma_chain_bound(path: Seq<MyCell>, s: (u32, u32), i: int)
    requires
        path.len() >= 1,
        forall|j: int|
            0 <= j < path.len() - 1 ==> adjacent(
                (#[trigger] path[j + 1]).position.position,
                path[j].position.position,
            ),
        adjacent(s, path[path.len() - 1].position.position),
        0 <= i < path.len(),
    ensures
        spec_chebyshev(s, path[i].position.position) <= path.len() - i,
    decreases path.len() - i,
{
    if i == path.len() - 1 {
    } else {
        lemma_chain_bound(path, s, i + 1);
        lemma_chebyshev_triangle(
            s,
            path[i + 1].position.position,
            path[i].position.position,
        );
    }
}

/// No reconstructed path can beat the straight line: a goal-to-start
/// cell chain that moves one 8-connected step at a time and ends
/// adjacent to the start holds at least Chebyshev(start, end) cells.
pub proof fn lemma_path_length_at_least_chebyshev(path: Seq<MyCell>, s: (u32, u32), e: (u32, u32))
    requires
        path.len() >= 1,
        path[0].position.position == e,
        forall|j: int|
            0 <= j < path.len() - 1 ==> adjacent(
                (#[trigger] path[j + 1]).position.position,
                path[j].position.position,
            ),
        adjacent(s, path[path.len() - 1].position.position),
    ensures
        path.len() >= spec_chebyshev(s, e),
{
    lemma_chain_bound(path, s, 0);
}

/// Reconstructs the path by walking parent links backward from the end
/// cell until the start's coordinate is reached. The returned sequence
/// runs goal-to-start; it holds the end cell (when the end is not the
/// start) and never the start cell.
pub fn get_parents(matrix: &Matrix, start: &MyCell, end: &Position) -> (path: Vec<MyCell>)
    requires
        matrix.wf(),
        matrix.positions_consistent(),
        chain_inv(*matrix, start.position.position),
        matrix.in_bounds(end.position.0 as int, end.position.1 as int),
        matrix.cell(end.position.0 as int, end.position.1 as int).visited,
    ensures
        path@.len() == 0 <==> end.position == start.position.position,
        path@.len() >= 1 ==> path@[0].position.position == end.position,
        forall|i: int|
            0 <= i < path@.len() ==> {
                let cell = #[trigger] path@[i];
                &&& matrix.in_bounds(cell.position.position.0 as int, cell.position.position.1 as int)
                &&& cell == matrix.cell(
                    cell.position.position.0 as int,
                    cell.position.position.1 as int,
                )
                &&& cell.visited
                &&& cell.t != KIND_WALL
                &&& cell.position.position != start.position.position
            },
        forall|i: int|
            0 <= i < path@.len() - 1 ==> (#[trigger] path@[i]).parent == Some(
                path@[i + 1].position.position,
            ),
        path@.len() >= 1 ==> path@[path@.len() - 1].parent == Some(start.position.position),
        forall|i: int|
            0 <= i < path@.len() - 1 ==> adjacent(
                (#[trigger] path@[i + 1]).position.position,
                path@[i].position.position,
            ),
        path@.len() >= 1 ==> adjacent(
            start.position.position,
            path@[path@.len() - 1].position.position,
        ),
        forall|i: int|
            0 <= i < path@.len() - 1 ==> (#[trigger] path@[i + 1]).distance < path@[i].distance,
        path@.len() <= matrix.cell(end.position.0 as int, end.position.1 as int).distance,
{
    let ghost s = start.position.position;
    let mut path: Vec<MyCell> = Vec::new();
    let mut last: MyCell = *matrix.at_pos(end);
    while !(last.y() == start.y() && last.x() == start.x())
        invariant
            matrix.wf(),
            matrix.positions_consistent(),
            chain_inv(*matrix, s),
            s == start.position.position,
            matrix.in_bounds(last.position.position.0 as int, last.position.position.1 as int),
            last == matrix.cell(
                last.position.position.0 as int,
                last.position.position.1 as int,
            ),
            last.visited,
            path@.len() == 0 ==> last.position.position == end.position,
            path@.len() >= 1 ==> path@[0].position.position == end.position,
            forall|i: int|
                0 <= i < path@.len() ==> {
                    let cell = #[trigger] path@[i];
                    &&& matrix.in_bounds(
                        cell.position.position.0 as int,
                        cell.position.position.1 as int,
                    )
                    &&& cell == matrix.cell(
                        cell.position.position.0 as int,
                        cell.position.position.1 as int,
                    )
                    &&& cell.visited
                    &&& cell.t != KIND_WALL
                    &&& cell.position.position != s
                },
            forall|i: int|
                0 <= i < path@.len() - 1 ==> (#[trigger] path@[i]).parent == Some(
                    path@[i + 1].position.position,
                ),
            path@.len() >= 1 ==> path@[path@.len() - 1].parent == Some(last.position.position),
            forall|i: int|
                0 <= i < path@.len() - 1 ==> adjacent(
                    (#[trigger] path@[i + 1]).position.position,
                    path@[i].position.position,
                ),
            forall|i: int|
                0 <= i < path@.len() - 1 ==> (#[trigger] path@[i + 1]).distance < path@[i].distance,
            path@.len() >= 1 ==> last.distance < path@[path@.len() - 1].distance,
            path@.len() + last.distance <= matrix.cell(
                end.position.0 as int,
                end.position.1 as int,
            ).distance,
        decreases last.distance,
    {
        path.push(last);
        let parent = match last.get_parent() {
            Some(pp) => *pp,
            None => {
                proof {
                    assert(false);
                }
                (0, 0)
            },
        };
        last = *matrix.at(parent.0 as usize, parent.1 as usize);
    }
    path
}

} // verus!
