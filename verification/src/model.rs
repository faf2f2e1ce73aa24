use vstd::prelude::*;
use crate::rational::{Frac, frac_wf, col_at_least, col_at_most, floor_half_up, ceil_half_down};

verus! {

/// The four cardinal directions. Each one names the quadrant that one pass of
/// the row scan covers; the pass for a cardinal implicitly covers the two
/// octants on either side of that axis through its symmetric column range.
#[derive(Clone, Copy, Debug)]
pub enum Cardinal {
    North,
    East,
    West,
    South,
}

/// Ghost view of one visibility query: the occupancy map as a flat row-major
/// sequence (a cell blocks light exactly when its byte is 1), the row width,
/// the vantage cell as a flat index, and the radius bound.
pub struct Grid {
    pub map: Seq<u8>,
    pub width: int,
    pub pos: int,
    pub radius: int,
}

/// The preconditions of a query: a positive width that divides the map
/// length, a vantage index inside the map, and a non-negative radius.
pub open spec fn grid_wf(g: Grid) -> bool {
    &&& 0 < g.width
    &&& g.map.len() as int % g.width == 0
    &&& 0 <= g.pos < g.map.len()
    &&& 0 <= g.radius
}

pub open spec fn grid_height(g: Grid) -> int {
    g.map.len() as int / g.width
}

pub open spec fn vantage_row(g: Grid) -> int {
    g.pos / g.width
}

pub open spec fn vantage_col(g: Grid) -> int {
    g.pos % g.width
}

/// Grid row of the cell a quadrant scan visits at (depth, column). Depth
/// extends away from the vantage cell along the cardinal axis and the column
/// runs perpendicular to it.
pub open spec fn tile_row(g: Grid, card: Cardinal, d: int, c: int) -> int {
    match card {
        Cardinal::North => vantage_row(g) - d,
        Cardinal::East => vantage_row(g) + d,
        Cardinal::West => vantage_row(g) + c,
        Cardinal::South => vantage_row(g) + c,
    }
}

/// Grid column of the cell a quadrant scan visits at (depth, column).
pub open spec fn tile_col(g: Grid, card: Cardinal, d: int, c: int) -> int {
    match card {
        Cardinal::North => vantage_col(g) + c,
        Cardinal::East => vantage_col(g) + c,
        Cardinal::West => vantage_col(g) + d,
        Cardinal::South => vantage_col(g) - d,
    }
}

pub open spec fn in_grid(g: Grid, r: int, c: int) -> bool {
    0 <= r < grid_height(g) && 0 <= c < g.width
}

pub open spec fn cell_idx(g: Grid, r: int, c: int) -> int {
    r * g.width + c
}

/// Whether the cell at (depth, column) blocks light. A cell outside the grid
/// counts as blocking: the scan treats the map edge as opaque, which guards
/// the otherwise unchecked coordinate arithmetic near the boundary.
pub open spec fn tile_blocks(g: Grid, card: Cardinal, d: int, c: int) -> bool {
    let r = tile_row(g, card, d, c);
    let cc = tile_col(g, card, d, c);
    !in_grid(g, r, cc) || g.map[cell_idx(g, r, cc)] == 1
}

pub open spec fn iabs(x: int) -> int {
    if x < 0 {
        -x
    } else {
        x
    }
}

/// Manhattan distance from the vantage cell to the cell at grid (r, c).
pub open spec fn manhattan(g: Grid, r: int, c: int) -> int {
    iabs(vantage_row(g) - r) + iabs(vantage_col(g) - c)
}

/// The symmetry check: the column lies within the row's open slope wedge.
pub open spec fn within_wedge(d: int, s: Frac, e: Frac, c: int) -> bool {
    col_at_least(c, d, s) && col_at_most(c, d, e)
}

/// First column of the row at depth `d` with start slope `s`.
pub open spec fn row_min_col(d: int, s: Frac) -> int {
    floor_half_up(d, s)
}

/// Last column of the row at depth `d` with end slope `e`.
pub open spec fn row_max_col(d: int, e: Frac) -> int {
    ceil_half_down(d, e)
}

/// A cell is marked visible when it lies in the grid, is strictly closer than
/// the radius, and either blocks light itself or passes the symmetry check.
pub open spec fn tile_marked(g: Grid, card: Cardinal, d: int, s: Frac, e: Frac, c: int) -> bool {
    let r = tile_row(g, card, d, c);
    let cc = tile_col(g, card, d, c);
    in_grid(g, r, cc) && manhattan(g, r, cc) < g.radius && (tile_blocks(g, card, d, c)
        || within_wedge(d, s, e, c))
}

/// The slope through the near corner of the cell at (depth, column):
/// `(2 * column - 1) / (2 * depth)`, the value the scan clips wedges to at a
/// transition between blocked and open cells.
pub open spec fn clip_slope(d: int, c: int) -> Frac {
    Frac { num: 2 * c - 1, den: 2 * d }
}

/// A slope interval handed to the row at the next depth.
pub struct Wedge {
    pub start: Frac,
    pub end: Frac,
}

/// The state of one row scan after some prefix of its columns: the cells it
/// marked, the wedges it spawned for the next depth, whether the last cell
/// seen blocked light, and the current (possibly narrowed) start slope.
pub struct RowScan {
    pub marks: Set<int>,
    pub spawns: Seq<Wedge>,
    pub prev: Option<bool>,
    pub cur: Frac,
}

/// One row of a quadrant scan after its first `n` columns. Each column is
/// marked by `tile_marked`; a transition from blocked to open narrows the
/// current start slope, and a transition from open to blocked spawns a wedge
/// for the next depth whose end slope is clipped at the transition column.
pub open spec fn row_scan_upto(g: Grid, card: Cardinal, d: int, s: Frac, e: Frac, n: nat) -> RowScan
    decreases n,
{
    if n == 0 {
        RowScan { marks: Set::empty(), spawns: Seq::empty(), prev: None, cur: s }
    } else {
        let st = row_scan_upto(g, card, d, s, e, (n - 1) as nat);
        let c = row_min_col(d, s) + n - 1;
        let b = tile_blocks(g, card, d, c);
        RowScan {
            marks: if tile_marked(g, card, d, s, e, c) {
                st.marks.insert(cell_idx(g, tile_row(g, card, d, c), tile_col(g, card, d, c)))
            } else {
                st.marks
            },
            spawns: if st.prev == Some(false) && b {
                st.spawns.push(Wedge { start: st.cur, end: clip_slope(d, c) })
            } else {
                st.spawns
            },
            prev: Some(b),
            cur: if st.prev == Some(true) && !b {
                clip_slope(d, c)
            } else {
                st.cur
            },
        }
    }
}

/// Number of columns in the row at depth `d` between slopes `s` and `e`.
pub open spec fn row_len(d: int, s: Frac, e: Frac) -> nat {
    let lo = row_min_col(d, s);
    let hi = row_max_col(d, e);
    if hi >= lo {
        (hi - lo + 1) as nat
    } else {
        0
    }
}

/// One whole row of a quadrant scan.
pub open spec fn row_scan_full(g: Grid, card: Cardinal, d: int, s: Frac, e: Frac) -> RowScan {
    row_scan_upto(g, card, d, s, e, row_len(d, s, e))
}

/// Every cell the quadrant scan marks from depth `d` outward within the wedge
/// (s, e): the marks of the row at depth `d`, together with the marks of all
/// wedges the row hands to depth `d + 1`. A row whose last cell was open
/// continues into the next depth with its current slopes. Rows at depths at
/// or beyond the radius mark nothing, because every cell they visit is at
/// least `depth` away from the vantage cell.
pub open spec fn scan_marks(g: Grid, card: Cardinal, d: int, s: Frac, e: Frac) -> Set<int>
    decreases g.radius - d, 0int,
{
    if d >= g.radius {
        Set::empty()
    } else {
        let st = row_scan_full(g, card, d, s, e);
        let ws = if st.prev == Some(false) {
            st.spawns.push(Wedge { start: st.cur, end: e })
        } else {
            st.spawns
        };
        st.marks.union(wedge_marks(g, card, d + 1, ws))
    }
}

/// The union of the scan marks of a sequence of wedges, all at depth `d`.
pub open spec fn wedge_marks(g: Grid, card: Cardinal, d: int, ws: Seq<Wedge>) -> Set<int>
    decreases g.radius - d, ws.len() + 1,
{
    if d >= g.radius || ws.len() == 0 {
        Set::empty()
    } else {
        scan_marks(g, card, d, ws[0].start, ws[0].end).union(
            wedge_marks(g, card, d, ws.drop_first()),
        )
    }
}

/// The seed wedge of every quadrant scan runs from slope -1 to slope 1.
pub open spec fn seed_start() -> Frac {
    Frac { num: -1, den: 1 }
}

pub open spec fn seed_end() -> Frac {
    Frac { num: 1, den: 1 }
}

/// Everything one cardinal's scan marks.
pub open spec fn quadrant_marks(g: Grid, card: Cardinal) -> Set<int> {
    scan_marks(g, card, 1, seed_start(), seed_end())
}

/// The visible cells of a query: the vantage cell itself, plus whatever the
/// four quadrant scans mark.
pub open spec fn visible_set(g: Grid) -> Set<int> {
    Set::empty().insert(g.pos).union(quadrant_marks(g, Cardinal::North)).union(
        quadrant_marks(g, Cardinal::East),
    ).union(quadrant_marks(g, Cardinal::West)).union(quadrant_marks(g, Cardinal::South))
}

/// The ghost view of a query's inputs.
pub open spec fn grid_view(map: Seq<u8>, width: int, pos: int, radius: int) -> Grid {
    Grid { map: map, width: width, pos: pos, radius: radius }
}

/// A cell inside the grid has a flat index inside the map, and the index
/// recovers the cell's row and column.
pub proof fn lemma_idx_coords(g: Grid, r: int, c: int)
    requires
        grid_wf(g),
        in_grid(g, r, c),
    ensures
        0 <= cell_idx(g, r, c) < g.map.len(),
        cell_idx(g, r, c) / g.width == r,
        cell_idx(g, r, c) % g.width == c,
{
    vstd::arithmetic::div_mod::lemma_fundamental_div_mod(g.map.len() as int, g.width);
    assert(0 <= r * g.width + c < g.map.len()) by (nonlinear_arith)
        requires
            0 <= r,
            r < grid_height(g),
            0 <= c < g.width,
            g.map.len() as int == g.width * grid_height(g),
    ;
    vstd::arithmetic::div_mod::lemma_fundamental_div_mod_converse(
        r * g.width + c,
        g.width,
        r,
        c,
    );
}

/// A flat index inside the map names a cell inside the grid.
pub proof fn lemma_coords_idx(g: Grid, i: int)
    requires
        grid_wf(g),
        0 <= i < g.map.len(),
    ensures
        in_grid(g, i / g.width, i % g.width),
        cell_idx(g, i / g.width, i % g.width) == i,
{
    vstd::arithmetic::div_mod::lemma_fundamental_div_mod(i, g.width);
    vstd::arithmetic::div_mod::lemma_fundamental_div_mod(g.map.len() as int, g.width);
    assert((grid_height(g) - 1 + 1) * g.width == g.width * grid_height(g)) by (nonlinear_arith);
    crate::rational::lemma_div_upper_bound(i, g.width, grid_height(g) - 1);
    vstd::arithmetic::div_mod::lemma_div_pos_is_pos(i, g.width);
    assert(cell_idx(g, i / g.width, i % g.width) == i) by (nonlinear_arith)
        requires
            i == g.width * (i / g.width) + i % g.width,
            cell_idx(g, i / g.width, i % g.width) == (i / g.width) * g.width + i % g.width,
    ;
}

/// Appending a wedge to a sequence adds exactly that wedge's scan marks.
pub proof fn lemma_wedge_marks_push(g: Grid, card: Cardinal, d: int, ws: Seq<Wedge>, w: Wedge)
    ensures
        wedge_marks(g, card, d, ws.push(w)) == wedge_marks(g, card, d, ws).union(
            scan_marks(g, card, d, w.start, w.end),
        ),
    decreases ws.len(),
{
    reveal_with_fuel(wedge_marks, 3);
    if d >= g.radius {
        assert(scan_marks(g, card, d, w.start, w.end) == Set::<int>::empty());
        assert(wedge_marks(g, card, d, ws.push(w)) =~= wedge_marks(g, card, d, ws).union(
            scan_marks(g, card, d, w.start, w.end),
        ));
    } else if ws.len() == 0 {
        assert(ws.push(w).drop_first() =~= Seq::<Wedge>::empty());
        assert(wedge_marks(g, card, d, ws.push(w)) =~= wedge_marks(g, card, d, ws).union(
            scan_marks(g, card, d, w.start, w.end),
        ));
    } else {
        assert(ws.push(w).drop_first() =~= ws.drop_first().push(w));
        assert(ws.push(w)[0] == ws[0]);
        lemma_wedge_marks_push(g, card, d, ws.drop_first(), w);
        assert(wedge_marks(g, card, d, ws.push(w)) =~= wedge_marks(g, card, d, ws).union(
            scan_marks(g, card, d, w.start, w.end),
        ));
    }
}

} // verus!
