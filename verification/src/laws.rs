use vstd::prelude::*;
use crate::model::{
    Cardinal, Grid, Wedge, cell_idx, grid_wf, iabs, in_grid, lemma_coords_idx, lemma_idx_coords,
    manhattan, row_len, row_max_col, row_min_col, row_scan_full, row_scan_upto, scan_marks,
    seed_end, seed_start, tile_blocks, tile_col, tile_marked, tile_row, vantage_col, vantage_row,
    visible_set, wedge_marks, within_wedge,
};
use crate::rational::{Frac, lemma_div_lower_bound, lemma_div_upper_bound};

verus! {

/// Depth, within the quadrant of `card`, of the cell at grid (r, c): how far
/// the cell lies from the vantage point along the cardinal axis.
pub open spec fn quad_depth(g: Grid, card: Cardinal, r: int, c: int) -> int {
    match card {
        Cardinal::North => vantage_row(g) - r,
        Cardinal::East => r - vantage_row(g),
        Cardinal::West => c - vantage_col(g),
        Cardinal::South => vantage_col(g) - c,
    }
}

/// Column, within the quadrant of `card`, of the cell at grid (r, c): the
/// offset perpendicular to the cardinal axis.
pub open spec fn quad_col(g: Grid, card: Cardinal, r: int, c: int) -> int {
    match card {
        Cardinal::North => c - vantage_col(g),
        Cardinal::East => c - vantage_col(g),
        Cardinal::West => r - vantage_row(g),
        Cardinal::South => r - vantage_row(g),
    }
}

/// The cell at grid (r, c) exists and does not block light.
pub open spec fn cell_open(g: Grid, r: int, c: int) -> bool {
    in_grid(g, r, c) && g.map[cell_idx(g, r, c)] != 1
}

/// Every cell whose row and column both lie within `radius - 1` of the
/// vantage cell is on the grid and open. Everything a scan bounded by
/// `radius` can reach is then unobstructed.
pub open spec fn open_square(g: Grid) -> bool {
    forall|r: int, c: int|
        iabs(vantage_row(g) - r) <= g.radius - 1 && iabs(vantage_col(g) - c) <= g.radius - 1
            ==> #[trigger] cell_open(g, r, c)
}

/// What an all-open row marks: the in-range cells of its depth that are
/// close enough and pass the symmetry check.
pub open spec fn row_open_mark(
    g: Grid,
    card: Cardinal,
    d: int,
    s: Frac,
    e: Frac,
    n: nat,
    i: int,
) -> bool {
    let r = i / g.width;
    let c = i % g.width;
    &&& 0 <= i < g.map.len()
    &&& quad_depth(g, card, r, c) == d
    &&& row_min_col(d, s) <= quad_col(g, card, r, c) < row_min_col(d, s) + n
    &&& manhattan(g, r, c) < g.radius
    &&& within_wedge(d, s, e, quad_col(g, card, r, c))
}

/// Quadrant coordinates invert the tile transform.
proof fn lemma_tile_quad(g: Grid, card: Cardinal, d: int, c: int)
    ensures
        quad_depth(g, card, tile_row(g, card, d, c), tile_col(g, card, d, c)) == d,
        quad_col(g, card, tile_row(g, card, d, c), tile_col(g, card, d, c)) == c,
{
}

/// The tile transform inverts quadrant coordinates.
proof fn lemma_quad_tile(g: Grid, card: Cardinal, r: int, c: int)
    ensures
        tile_row(g, card, quad_depth(g, card, r, c), quad_col(g, card, r, c)) == r,
        tile_col(g, card, quad_depth(g, card, r, c), quad_col(g, card, r, c)) == c,
{
}

/// Manhattan distance splits into the quadrant depth and column offsets.
proof fn lemma_manhattan_quad(g: Grid, card: Cardinal, r: int, c: int)
    ensures
        manhattan(g, r, c) == iabs(quad_depth(g, card, r, c)) + iabs(quad_col(g, card, r, c)),
{
}

/// The seed wedge spans columns `-d ..= d` at depth `d`.
proof fn lemma_seed_cols(d: int)
    requires
        1 <= d,
    ensures
        row_min_col(d, seed_start()) == -d,
        row_max_col(d, seed_end()) == d,
{
    lemma_div_lower_bound(1 - 2 * d, 2, -d);
    lemma_div_upper_bound(1 - 2 * d, 2, -d);
}

/// A row all of whose cells are open makes no transitions: it keeps its
/// slopes, spawns nothing, and marks exactly the in-range cells of its depth
/// that are close enough and pass the symmetry check.
proof fn lemma_open_row(g: Grid, card: Cardinal, d: int, s: Frac, e: Frac, n: nat)
    requires
        grid_wf(g),
        1 <= d,
        forall|c: int|
            row_min_col(d, s) <= c < row_min_col(d, s) + n ==> !tile_blocks(g, card, d, c),
    ensures
        row_scan_upto(g, card, d, s, e, n).prev == (if n == 0 {
            Option::<bool>::None
        } else {
            Some(false)
        }),
        row_scan_upto(g, card, d, s, e, n).cur == s,
        row_scan_upto(g, card, d, s, e, n).spawns == Seq::<Wedge>::empty(),
        forall|i: int|
            row_scan_upto(g, card, d, s, e, n).marks.contains(i) <==> row_open_mark(
                g,
                card,
                d,
                s,
                e,
                n,
                i,
            ),
    decreases n,
{
    let lo = row_min_col(d, s);
    if n == 0 {
        assert(forall|i: int| !row_scan_upto(g, card, d, s, e, n).marks.contains(i));
    } else {
        lemma_open_row(g, card, d, s, e, (n - 1) as nat);
        let c0 = lo + n - 1;
        let r0 = tile_row(g, card, d, c0);
        let cc0 = tile_col(g, card, d, c0);
        assert(!tile_blocks(g, card, d, c0));
        assert(in_grid(g, r0, cc0));
        lemma_idx_coords(g, r0, cc0);
        lemma_tile_quad(g, card, d, c0);
        let st = row_scan_upto(g, card, d, s, e, n);
        let stp = row_scan_upto(g, card, d, s, e, (n - 1) as nat);
        assert(st.spawns == Seq::<Wedge>::empty());
        assert forall|i: int| st.marks.contains(i) implies row_open_mark(
            g,
            card,
            d,
            s,
            e,
            n,
            i,
        ) by {
            if stp.marks.contains(i) {
                assert(row_open_mark(g, card, d, s, e, (n - 1) as nat, i));
            } else {
                assert(i == cell_idx(g, r0, cc0));
                assert(tile_marked(g, card, d, s, e, c0));
            }
        }
        assert forall|i: int| row_open_mark(g, card, d, s, e, n, i) implies st.marks.contains(
            i,
        ) by {
            lemma_coords_idx(g, i);
            let qd = quad_depth(g, card, i / g.width, i % g.width);
            let qc = quad_col(g, card, i / g.width, i % g.width);
            if qc < c0 {
                assert(row_open_mark(g, card, d, s, e, (n - 1) as nat, i));
            } else {
                lemma_quad_tile(g, card, i / g.width, i % g.width);
                assert(i / g.width == r0 && i % g.width == cc0);
                assert(i == cell_idx(g, r0, cc0));
                assert(tile_marked(g, card, d, s, e, c0));
            }
        }
    }
}

/// The vantage cell is always visible, for every well-formed query.
pub proof fn lemma_vantage_visible(g: Grid)
    requires
        grid_wf(g),
    ensures
        visible_set(g).contains(g.pos),
{
}

/// Visibility is a pure function of its inputs: any two outputs that satisfy
/// the contract of `get_visible_idxs` on the same query are equal, so calling
/// the function twice with identical inputs yields identical results.
pub proof fn lemma_visibility_deterministic(g: Grid, out1: Seq<u8>, out2: Seq<u8>)
    requires
        out1.len() == g.map.len(),
        out2.len() == g.map.len(),
        forall|i: int|
            0 <= i < g.map.len() ==> out1[i] == (if visible_set(g).contains(i) {
                1u8
            } else {
                0u8
            }),
        forall|i: int|
            0 <= i < g.map.len() ==> out2[i] == (if visible_set(g).contains(i) {
                1u8
            } else {
                0u8
            }),
    ensures
        out1 == out2,
{
    assert(out1 =~= out2);
}

/// What an unobstructed quadrant scan from depth `dlo` outward sees of cell
/// `i`: the cell's quadrant depth is at least `dlo`, the cell lies inside the
/// quadrant, and it is closer than the radius.
pub open spec fn quad_open_vis(g: Grid, card: Cardinal, dlo: int, i: int) -> bool {
    let qd = quad_depth(g, card, i / g.width, i % g.width);
    let qc = quad_col(g, card, i / g.width, i % g.width);
    &&& 0 <= i < g.map.len()
    &&& dlo <= qd
    &&& iabs(qc) <= qd
    &&& qd + iabs(qc) < g.radius
}

/// On an open square, a quadrant scan seeded with the full wedge marks
/// exactly the cells of its quadrant that are closer than the radius.
proof fn lemma_scan_open(g: Grid, card: Cardinal, dlo: int)
    requires
        grid_wf(g),
        open_square(g),
        1 <= dlo,
    ensures
        forall|i: int|
            scan_marks(g, card, dlo, seed_start(), seed_end()).contains(i) <==> quad_open_vis(
                g,
                card,
                dlo,
                i,
            ),
    decreases g.radius + 1 - dlo,
{
    if dlo >= g.radius {
        assert(scan_marks(g, card, dlo, seed_start(), seed_end()) == Set::<int>::empty());
        assert forall|i: int| !quad_open_vis(g, card, dlo, i) by {
            let qc = quad_col(g, card, i / g.width, i % g.width);
            assert(iabs(qc) >= 0);
        }
    } else {
        lemma_seed_cols(dlo);
        let n = row_len(dlo, seed_start(), seed_end());
        assert(n == 2 * dlo + 1);
        assert forall|c: int| -dlo <= c < dlo + 1 implies !tile_blocks(g, card, dlo, c) by {
            let r0 = tile_row(g, card, dlo, c);
            let c0 = tile_col(g, card, dlo, c);
            match card {
                Cardinal::North => {
                    assert(vantage_row(g) - r0 == dlo && vantage_col(g) - c0 == -c);
                },
                Cardinal::East => {
                    assert(vantage_row(g) - r0 == -dlo && vantage_col(g) - c0 == -c);
                },
                Cardinal::West => {
                    assert(vantage_row(g) - r0 == -c && vantage_col(g) - c0 == -dlo);
                },
                Cardinal::South => {
                    assert(vantage_row(g) - r0 == -c && vantage_col(g) - c0 == dlo);
                },
            }
            assert(iabs(vantage_row(g) - r0) <= g.radius - 1 && iabs(vantage_col(g) - c0)
                <= g.radius - 1);
            assert(cell_open(g, r0, c0));
        }
        lemma_open_row(g, card, dlo, seed_start(), seed_end(), n);
        let st = row_scan_full(g, card, dlo, seed_start(), seed_end());
        let w = Wedge { start: seed_start(), end: seed_end() };
        let ws = st.spawns.push(w);
        assert(st.prev == Some(false));
        assert(scan_marks(g, card, dlo, seed_start(), seed_end()) == st.marks.union(
            wedge_marks(g, card, dlo + 1, ws),
        ));
        assert(ws.drop_first() =~= Seq::<Wedge>::empty());
        assert(ws[0] == w);
        assert(wedge_marks(g, card, dlo + 1, ws.drop_first()) == Set::<int>::empty());
        assert(wedge_marks(g, card, dlo + 1, ws) == scan_marks(
            g,
            card,
            dlo + 1,
            seed_start(),
            seed_end(),
        ).union(wedge_marks(g, card, dlo + 1, ws.drop_first())));
        lemma_scan_open(g, card, dlo + 1);
        assert forall|i: int|
            scan_marks(g, card, dlo, seed_start(), seed_end()).contains(i) <==> quad_open_vis(
                g,
                card,
                dlo,
                i,
            ) by {
            lemma_manhattan_quad(g, card, i / g.width, i % g.width);
            let qd = quad_depth(g, card, i / g.width, i % g.width);
            let qc = quad_col(g, card, i / g.width, i % g.width);
            if scan_marks(g, card, dlo, seed_start(), seed_end()).contains(i) {
                if st.marks.contains(i) {
                    assert(row_open_mark(g, card, dlo, seed_start(), seed_end(), n, i));
                    assert(iabs(qc) <= dlo);
                    assert(quad_open_vis(g, card, dlo, i));
                } else {
                    assert(quad_open_vis(g, card, dlo + 1, i));
                }
            }
            if quad_open_vis(g, card, dlo, i) {
                if qd == dlo {
                    assert(manhattan(g, i / g.width, i % g.width) < g.radius);
                    assert(within_wedge(dlo, seed_start(), seed_end(), qc));
                    assert(row_open_mark(g, card, dlo, seed_start(), seed_end(), n, i));
                } else {
                    assert(quad_open_vis(g, card, dlo + 1, i));
                }
            }
        }
    }
}

/// Symmetry on an unobstructed map: when every cell within the scan's reach
/// is open, the visible set is exactly the vantage cell together with every
/// map cell at Manhattan distance strictly below the radius. Nothing blocks,
/// so nothing is occluded, and the symmetric rounding rule leaves no
/// artifacts.
pub proof fn lemma_open_map_visibility(g: Grid)
    requires
        grid_wf(g),
        open_square(g),
    ensures
        forall|i: int|
            visible_set(g).contains(i) <==> (0 <= i < g.map.len() && (i == g.pos || manhattan(
                g,
                i / g.width,
                i % g.width,
            ) < g.radius)),
{
    lemma_scan_open(g, Cardinal::North, 1);
    lemma_scan_open(g, Cardinal::East, 1);
    lemma_scan_open(g, Cardinal::West, 1);
    lemma_scan_open(g, Cardinal::South, 1);
    assert forall|i: int|
        visible_set(g).contains(i) <==> (0 <= i < g.map.len() && (i == g.pos || manhattan(
            g,
            i / g.width,
            i % g.width,
        ) < g.radius)) by {
        let r = i / g.width;
        let c = i % g.width;
        lemma_manhattan_quad(g, Cardinal::North, r, c);
        lemma_manhattan_quad(g, Cardinal::West, r, c);
        if visible_set(g).contains(i) {
            if i == g.pos {
                assert(0 <= i < g.map.len());
            } else {
                assert(quad_open_vis(g, Cardinal::North, 1, i) || quad_open_vis(
                    g,
                    Cardinal::East,
                    1,
                    i,
                ) || quad_open_vis(g, Cardinal::West, 1, i) || quad_open_vis(
                    g,
                    Cardinal::South,
                    1,
                    i,
                ));
            }
        }
        if 0 <= i < g.map.len() {
            lemma_coords_idx(g, i);
            lemma_coords_idx(g, g.pos);
            if i == g.pos {
                assert(visible_set(g).contains(i));
            } else if manhattan(g, r, c) < g.radius {
                let dr = r - vantage_row(g);
                let dc = c - vantage_col(g);
                assert(!(dr == 0 && dc == 0));
                if dr < 0 && iabs(dc) <= -dr {
                    assert(quad_open_vis(g, Cardinal::North, 1, i));
                } else if dr > 0 && iabs(dc) <= dr {
                    assert(quad_open_vis(g, Cardinal::East, 1, i));
                } else if dc > 0 {
                    assert(iabs(dr) <= dc);
                    assert(quad_open_vis(g, Cardinal::West, 1, i));
                } else {
                    assert(dc < 0 && iabs(dr) <= -dc);
                    assert(quad_open_vis(g, Cardinal::South, 1, i));
                }
                assert(visible_set(g).contains(i));
            }
        }
    }
}

/// Every cell one row marks lies in the grid at the row's own depth, within
/// the row's column range, closer than the radius, and is either itself a
/// blocking cell or inside the row's slope wedge.
proof fn lemma_row_marks_coords(g: Grid, card: Cardinal, d: int, s: Frac, e: Frac, n: nat)
    requires
        grid_wf(g),
        1 <= d,
    ensures
        forall|i: int|
            #![trigger row_scan_upto(g, card, d, s, e, n).marks.contains(i)]
            row_scan_upto(g, card, d, s, e, n).marks.contains(i) ==> {
                &&& 0 <= i < g.map.len()
                &&& quad_depth(g, card, i / g.width, i % g.width) == d
                &&& row_min_col(d, s) <= quad_col(g, card, i / g.width, i % g.width) < row_min_col(
                    d,
                    s,
                ) + n
                &&& manhattan(g, i / g.width, i % g.width) < g.radius
                &&& (g.map[i] == 1 || within_wedge(
                    d,
                    s,
                    e,
                    quad_col(g, card, i / g.width, i % g.width),
                ))
            },
    decreases n,
{
    if n > 0 {
        lemma_row_marks_coords(g, card, d, s, e, (n - 1) as nat);
        let c0 = row_min_col(d, s) + n - 1;
        if tile_marked(g, card, d, s, e, c0) {
            let r0 = tile_row(g, card, d, c0);
            let cc0 = tile_col(g, card, d, c0);
            lemma_idx_coords(g, r0, cc0);
            lemma_tile_quad(g, card, d, c0);
        }
    }
}

/// Every cell a quadrant scan from depth `d` marks lies in the map, at a
/// quadrant depth of at least `d`.
proof fn lemma_scan_depth(g: Grid, card: Cardinal, d: int, s: Frac, e: Frac)
    requires
        grid_wf(g),
        1 <= d,
    ensures
        forall|i: int|
            #![trigger scan_marks(g, card, d, s, e).contains(i)]
            scan_marks(g, card, d, s, e).contains(i) ==> 0 <= i < g.map.len() && quad_depth(
                g,
                card,
                i / g.width,
                i % g.width,
            ) >= d,
    decreases g.radius - d, 0int,
{
    if d < g.radius {
        lemma_row_marks_coords(g, card, d, s, e, row_len(d, s, e));
        let st = row_scan_full(g, card, d, s, e);
        let ws = if st.prev == Some(false) {
            st.spawns.push(Wedge { start: st.cur, end: e })
        } else {
            st.spawns
        };
        lemma_wedges_depth(g, card, d + 1, ws);
        assert(scan_marks(g, card, d, s, e) == st.marks.union(wedge_marks(g, card, d + 1, ws)));
    }
}

/// The wedge-sequence form of `lemma_scan_depth`.
proof fn lemma_wedges_depth(g: Grid, card: Cardinal, d: int, ws: Seq<Wedge>)
    requires
        grid_wf(g),
        1 <= d,
    ensures
        forall|i: int|
            #![trigger wedge_marks(g, card, d, ws).contains(i)]
            wedge_marks(g, card, d, ws).contains(i) ==> 0 <= i < g.map.len() && quad_depth(
                g,
                card,
                i / g.width,
                i % g.width,
            ) >= d,
    decreases g.radius - d, ws.len() + 1,
{
    if d >= g.radius || ws.len() == 0 {
        assert(wedge_marks(g, card, d, ws) == Set::<int>::empty());
    } else {
        lemma_scan_depth(g, card, d, ws[0].start, ws[0].end);
        lemma_wedges_depth(g, card, d, ws.drop_first());
        assert(wedge_marks(g, card, d, ws) == scan_marks(
            g,
            card,
            d,
            ws[0].start,
            ws[0].end,
        ).union(wedge_marks(g, card, d, ws.drop_first())));
    }
}

/// The cell at grid (r, c) exists, and blocks light exactly when it is the
/// lone blocker `k` cells north of the vantage cell.
pub open spec fn cell_lone(g: Grid, k: int, r: int, c: int) -> bool {
    in_grid(g, r, c) && (g.map[cell_idx(g, r, c)] == 1 <==> (r == vantage_row(g) - k && c
        == vantage_col(g)))
}

/// Every cell whose row and column both lie within `radius - 1` of the
/// vantage cell is on the grid, and the only one of them that blocks light is
/// the cell `k` rows north of the vantage cell.
pub open spec fn lone_blocker_square(g: Grid, k: int) -> bool {
    forall|r: int, c: int|
        iabs(vantage_row(g) - r) <= g.radius - 1 && iabs(vantage_col(g) - c) <= g.radius - 1
            ==> #[trigger] cell_lone(g, k, r, c)
}

/// A scan confined to a wedge that lies strictly on one side of the axis
/// through the blocker marks no cell of the axis itself: with the lone
/// blocker behind it, every row it visits is open, so every mark passes the
/// symmetry check, which pins its column to the wedge's side.
proof fn lemma_scan_wedge_off_axis(g: Grid, card: Cardinal, k: int, d: int, s: Frac, e: Frac)
    requires
        grid_wf(g),
        lone_blocker_square(g, k),
        1 <= k,
        k + 1 <= d,
        0 < s.den,
        0 < e.den,
        -s.den <= s.num <= s.den,
        -e.den <= e.num <= e.den,
        2 * k * s.num >= s.den || 2 * k * e.num <= -e.den,
    ensures
        forall|i: int|
            #![trigger scan_marks(g, card, d, s, e).contains(i)]
            scan_marks(g, card, d, s, e).contains(i) ==> quad_col(
                g,
                card,
                i / g.width,
                i % g.width,
            ) != 0,
    decreases g.radius + 1 - d,
{
    if d < g.radius {
        crate::rational::lemma_min_col_lower(d, s);
        crate::rational::lemma_min_col_upper(d, s);
        crate::rational::lemma_max_col_upper(d, e);
        let lo = row_min_col(d, s);
        let n = row_len(d, s, e);
        assert forall|c: int| lo <= c < lo + n implies !tile_blocks(g, card, d, c) by {
            let r0 = tile_row(g, card, d, c);
            let c0 = tile_col(g, card, d, c);
            assert(-d <= c <= d);
            match card {
                Cardinal::North => {
                    assert(vantage_row(g) - r0 == d && vantage_col(g) - c0 == -c);
                },
                Cardinal::East => {
                    assert(vantage_row(g) - r0 == -d && vantage_col(g) - c0 == -c);
                },
                Cardinal::West => {
                    assert(vantage_row(g) - r0 == -c && vantage_col(g) - c0 == -d);
                },
                Cardinal::South => {
                    assert(vantage_row(g) - r0 == -c && vantage_col(g) - c0 == d);
                },
            }
            assert(cell_lone(g, k, r0, c0));
            lemma_tile_quad(g, card, d, c);
            lemma_quad_tile(g, card, vantage_row(g) - k, vantage_col(g));
        }
        lemma_open_row(g, card, d, s, e, n);
        let st = row_scan_full(g, card, d, s, e);
        let ws = if st.prev == Some(false) {
            st.spawns.push(Wedge { start: st.cur, end: e })
        } else {
            st.spawns
        };
        assert(scan_marks(g, card, d, s, e) == st.marks.union(wedge_marks(g, card, d + 1, ws)));
        if st.prev == Some(false) {
            assert(ws == Seq::<Wedge>::empty().push(Wedge { start: s, end: e }));
            assert(ws[0] == (Wedge { start: s, end: e }));
            assert(ws.drop_first() =~= Seq::<Wedge>::empty());
            lemma_scan_wedge_off_axis(g, card, k, d + 1, s, e);
            assert(wedge_marks(g, card, d + 1, ws) == scan_marks(g, card, d + 1, s, e).union(
                wedge_marks(g, card, d + 1, ws.drop_first()),
            ));
            assert(wedge_marks(g, card, d + 1, ws.drop_first()) == Set::<int>::empty());
        } else {
            assert(ws == Seq::<Wedge>::empty());
            assert(wedge_marks(g, card, d + 1, ws) == Set::<int>::empty());
        }
        assert forall|i: int| scan_marks(g, card, d, s, e).contains(i) implies quad_col(
            g,
            card,
            i / g.width,
            i % g.width,
        ) != 0 by {
            let qc = quad_col(g, card, i / g.width, i % g.width);
            if st.marks.contains(i) {
                assert(row_open_mark(g, card, d, s, e, n, i));
                assert(within_wedge(d, s, e, qc));
                if 2 * k * s.num >= s.den {
                    assert(qc >= 1) by (nonlinear_arith)
                        requires
                            qc * s.den >= d * s.num,
                            2 * k * s.num >= s.den,
                            0 < s.den,
                            1 <= k,
                            1 <= d,
                    ;
                } else {
                    assert(qc <= -1) by (nonlinear_arith)
                        requires
                            qc * e.den <= d * e.num,
                            2 * k * e.num <= -e.den,
                            0 < e.den,
                            1 <= k,
                            1 <= d,
                    ;
                }
            }
        }
    }
}

/// A scan confined to a wedge whose far side is still a seed slope marks
/// every cell inside the wedge that is closer than the radius: the lone
/// blocker's shadow claims nothing beside itself.
proof fn lemma_scan_wedge_covers(g: Grid, card: Cardinal, k: int, d: int, s: Frac, e: Frac)
    requires
        grid_wf(g),
        lone_blocker_square(g, k),
        1 <= k,
        k + 1 <= d,
        0 < s.den,
        0 < e.den,
        -s.den <= s.num <= s.den,
        -e.den <= e.num <= e.den,
        s == seed_start() || e == seed_end(),
    ensures
        forall|i: int|
            #![trigger scan_marks(g, card, d, s, e).contains(i)]
            (0 <= i < g.map.len() && d <= quad_depth(g, card, i / g.width, i % g.width)
                && within_wedge(
                quad_depth(g, card, i / g.width, i % g.width),
                s,
                e,
                quad_col(g, card, i / g.width, i % g.width),
            ) && quad_depth(g, card, i / g.width, i % g.width) + iabs(
                quad_col(g, card, i / g.width, i % g.width),
            ) < g.radius) ==> scan_marks(g, card, d, s, e).contains(i),
    decreases g.radius + 1 - d,
{
    if d < g.radius {
        lemma_seed_cols(d);
        crate::rational::lemma_min_col_lower(d, s);
        crate::rational::lemma_min_col_upper(d, s);
        crate::rational::lemma_max_col_upper(d, e);
        let lo = row_min_col(d, s);
        let hi = row_max_col(d, e);
        if s == seed_start() {
            assert(e.den - 2 * d * e.num < (d + 1) * (2 * e.den)) by (nonlinear_arith)
                requires
                    0 < e.den,
                    -e.den <= e.num,
                    1 <= d,
            ;
            lemma_div_upper_bound(e.den - 2 * d * e.num, 2 * e.den, d);
            assert(-d <= hi);
        }
        assert(lo <= hi);
        let n = row_len(d, s, e);
        assert(n == hi - lo + 1);
        assert forall|c: int| lo <= c < lo + n implies !tile_blocks(g, card, d, c) by {
            let r0 = tile_row(g, card, d, c);
            let c0 = tile_col(g, card, d, c);
            assert(-d <= c <= d);
            match card {
                Cardinal::North => {
                    assert(vantage_row(g) - r0 == d && vantage_col(g) - c0 == -c);
                },
                Cardinal::East => {
                    assert(vantage_row(g) - r0 == -d && vantage_col(g) - c0 == -c);
                },
                Cardinal::West => {
                    assert(vantage_row(g) - r0 == -c && vantage_col(g) - c0 == -d);
                },
                Cardinal::South => {
                    assert(vantage_row(g) - r0 == -c && vantage_col(g) - c0 == d);
                },
            }
            assert(cell_lone(g, k, r0, c0));
            lemma_tile_quad(g, card, d, c);
            lemma_quad_tile(g, card, vantage_row(g) - k, vantage_col(g));
        }
        lemma_open_row(g, card, d, s, e, n);
        let st = row_scan_full(g, card, d, s, e);
        assert(st.prev == Some(false));
        let ws = st.spawns.push(Wedge { start: s, end: e });
        assert(scan_marks(g, card, d, s, e) == st.marks.union(wedge_marks(g, card, d + 1, ws)));
        assert(ws == Seq::<Wedge>::empty().push(Wedge { start: s, end: e }));
        assert(ws[0] == (Wedge { start: s, end: e }));
        assert(ws.drop_first() =~= Seq::<Wedge>::empty());
        lemma_scan_wedge_covers(g, card, k, d + 1, s, e);
        assert(wedge_marks(g, card, d + 1, ws) == scan_marks(g, card, d + 1, s, e).union(
            wedge_marks(g, card, d + 1, ws.drop_first()),
        ));
        assert forall|i: int|
            (0 <= i < g.map.len() && d <= quad_depth(g, card, i / g.width, i % g.width)
                && within_wedge(
                quad_depth(g, card, i / g.width, i % g.width),
                s,
                e,
                quad_col(g, card, i / g.width, i % g.width),
            ) && quad_depth(g, card, i / g.width, i % g.width) + iabs(
                quad_col(g, card, i / g.width, i % g.width),
            ) < g.radius) implies scan_marks(g, card, d, s, e).contains(i) by {
            let qd = quad_depth(g, card, i / g.width, i % g.width);
            let qc = quad_col(g, card, i / g.width, i % g.width);
            if qd == d {
                assert(2 * d * s.num + s.den < (qc + 1) * (2 * s.den)) by (nonlinear_arith)
                    requires
                        0 < s.den,
                        qc * s.den >= d * s.num,
                ;
                lemma_div_upper_bound(2 * d * s.num + s.den, 2 * s.den, qc);
                assert(lo <= qc);
                assert(e.den - 2 * d * e.num < ((-qc) + 1) * (2 * e.den)) by (nonlinear_arith)
                    requires
                        0 < e.den,
                        qc * e.den <= d * e.num,
                ;
                lemma_div_upper_bound(e.den - 2 * d * e.num, 2 * e.den, -qc);
                assert(qc <= hi);
                assert(manhattan(g, i / g.width, i % g.width) < g.radius) by {
                    lemma_manhattan_quad(g, card, i / g.width, i % g.width);
                }
                assert(row_open_mark(g, card, d, s, e, n, i));
                assert(st.marks.contains(i));
            } else {
                assert(scan_marks(g, card, d + 1, s, e).contains(i));
            }
        }
    }
}

/// The row at the blocker's depth, under the full seed wedge: the blocker at
/// its centre is marked (blockers are visible), one wedge is spawned to its
/// left clipped at the blocker's near corner, and the row ends open so the
/// right wedge continues with its narrowed start slope.
proof fn lemma_blocker_row(g: Grid, k: int, n: nat)
    requires
        grid_wf(g),
        lone_blocker_square(g, k),
        1 <= k <= g.radius - 1,
        n <= 2 * k + 1,
    ensures
        row_scan_upto(g, Cardinal::North, k, seed_start(), seed_end(), n).prev == (if n == 0 {
            Option::<bool>::None
        } else {
            Some(-k + n - 1 == 0)
        }),
        row_scan_upto(g, Cardinal::North, k, seed_start(), seed_end(), n).cur == (if -k + n - 1
            >= 1 {
            crate::model::clip_slope(k, 1)
        } else {
            seed_start()
        }),
        row_scan_upto(g, Cardinal::North, k, seed_start(), seed_end(), n).spawns == (if -k + n - 1
            >= 0 {
            Seq::<Wedge>::empty().push(
                Wedge { start: seed_start(), end: crate::model::clip_slope(k, 0) },
            )
        } else {
            Seq::<Wedge>::empty()
        }),
        n >= k + 1 ==> row_scan_upto(
            g,
            Cardinal::North,
            k,
            seed_start(),
            seed_end(),
            n,
        ).marks.contains(cell_idx(g, vantage_row(g) - k, vantage_col(g))),
    decreases n,
{
    lemma_seed_cols(k);
    if n > 0 {
        lemma_blocker_row(g, k, (n - 1) as nat);
        let c0 = -k + n - 1;
        let r0 = tile_row(g, Cardinal::North, k, c0);
        let cc0 = tile_col(g, Cardinal::North, k, c0);
        assert(vantage_row(g) - r0 == k && vantage_col(g) - cc0 == -c0);
        assert(cell_lone(g, k, r0, cc0));
        assert(tile_blocks(g, Cardinal::North, k, c0) <==> c0 == 0);
        if c0 == 0 {
            lemma_idx_coords(g, r0, cc0);
            assert(manhattan(g, r0, cc0) == k);
            assert(tile_marked(g, Cardinal::North, k, seed_start(), seed_end(), c0));
        }
    }
}

/// The part of the North quadrant scan from depth `d` up to the blocker's
/// depth `k`: every row is fully open until depth `k`, the blocker is marked
/// there, nothing at quadrant column 0 beyond depth `k` is ever marked, and
/// everything the two wedges beside the blocker see stays marked.
proof fn lemma_north_prefix(g: Grid, k: int, m: int, d: int)
    requires
        grid_wf(g),
        lone_blocker_square(g, k),
        1 <= d <= k,
        k < m,
        m <= g.radius - 1,
    ensures
        !scan_marks(g, Cardinal::North, d, seed_start(), seed_end()).contains(
            cell_idx(g, vantage_row(g) - m, vantage_col(g)),
        ),
        scan_marks(g, Cardinal::North, d, seed_start(), seed_end()).contains(
            cell_idx(g, vantage_row(g) - k, vantage_col(g)),
        ),
        forall|i: int|
            #![trigger scan_marks(g, Cardinal::North, k + 1, seed_start(), crate::model::clip_slope(k, 0)).contains(i)]
            scan_marks(g, Cardinal::North, k + 1, seed_start(), crate::model::clip_slope(k, 0)).contains(i)
                ==> scan_marks(g, Cardinal::North, d, seed_start(), seed_end()).contains(i),
        forall|i: int|
            #![trigger scan_marks(g, Cardinal::North, k + 1, crate::model::clip_slope(k, 1), seed_end()).contains(i)]
            scan_marks(g, Cardinal::North, k + 1, crate::model::clip_slope(k, 1), seed_end()).contains(i)
                ==> scan_marks(g, Cardinal::North, d, seed_start(), seed_end()).contains(i),
    decreases k - d,
{
    lemma_seed_cols(d);
    let target = cell_idx(g, vantage_row(g) - m, vantage_col(g));
    let blocker = cell_idx(g, vantage_row(g) - k, vantage_col(g));
    let n = row_len(d, seed_start(), seed_end());
    assert(n == 2 * d + 1);
    lemma_row_marks_coords(g, Cardinal::North, d, seed_start(), seed_end(), n);
    let st = row_scan_full(g, Cardinal::North, d, seed_start(), seed_end());
    assert(cell_lone(g, k, vantage_row(g) - m, vantage_col(g)));
    lemma_idx_coords(g, vantage_row(g) - m, vantage_col(g));
    assert(cell_lone(g, k, vantage_row(g) - k, vantage_col(g)));
    lemma_idx_coords(g, vantage_row(g) - k, vantage_col(g));
    lemma_tile_quad(g, Cardinal::North, m, 0);
    lemma_tile_quad(g, Cardinal::North, k, 0);
    if d < k {
        assert forall|c: int| -d <= c < -d + n implies !tile_blocks(
            g,
            Cardinal::North,
            d,
            c,
        ) by {
            let r0 = tile_row(g, Cardinal::North, d, c);
            let c0 = tile_col(g, Cardinal::North, d, c);
            assert(vantage_row(g) - r0 == d && vantage_col(g) - c0 == -c);
            assert(cell_lone(g, k, r0, c0));
        }
        lemma_open_row(g, Cardinal::North, d, seed_start(), seed_end(), n);
        let w = Wedge { start: seed_start(), end: seed_end() };
        let ws = st.spawns.push(w);
        assert(st.prev == Some(false));
        assert(scan_marks(g, Cardinal::North, d, seed_start(), seed_end()) == st.marks.union(
            wedge_marks(g, Cardinal::North, d + 1, ws),
        ));
        assert(ws == Seq::<Wedge>::empty().push(w));
        assert(ws[0] == w);
        assert(ws.drop_first() =~= Seq::<Wedge>::empty());
        assert(wedge_marks(g, Cardinal::North, d + 1, ws) == scan_marks(
            g,
            Cardinal::North,
            d + 1,
            seed_start(),
            seed_end(),
        ).union(wedge_marks(g, Cardinal::North, d + 1, ws.drop_first())));
        assert(wedge_marks(g, Cardinal::North, d + 1, ws.drop_first()) == Set::<int>::empty());
        lemma_north_prefix(g, k, m, d + 1);
        assert(!st.marks.contains(target));
        assert(!st.marks.contains(blocker));
    } else {
        lemma_blocker_row(g, k, n);
        let w1 = Wedge { start: seed_start(), end: crate::model::clip_slope(k, 0) };
        let w2 = Wedge { start: crate::model::clip_slope(k, 1), end: seed_end() };
        assert(st.prev == Some(false));
        assert(st.cur == crate::model::clip_slope(k, 1));
        assert(st.spawns == Seq::<Wedge>::empty().push(w1));
        let ws = st.spawns.push(w2);
        assert(scan_marks(g, Cardinal::North, k, seed_start(), seed_end()) == st.marks.union(
            wedge_marks(g, Cardinal::North, k + 1, ws),
        ));
        assert(ws[0] == w1);
        assert(ws.drop_first() =~= Seq::<Wedge>::empty().push(w2));
        assert(ws.drop_first()[0] == w2);
        assert(ws.drop_first().drop_first() =~= Seq::<Wedge>::empty());
        if k + 1 < g.radius {
            assert(wedge_marks(g, Cardinal::North, k + 1, ws) == scan_marks(
                g,
                Cardinal::North,
                k + 1,
                w1.start,
                w1.end,
            ).union(wedge_marks(g, Cardinal::North, k + 1, ws.drop_first())));
            assert(wedge_marks(g, Cardinal::North, k + 1, ws.drop_first()) == scan_marks(
                g,
                Cardinal::North,
                k + 1,
                w2.start,
                w2.end,
            ).union(wedge_marks(g, Cardinal::North, k + 1, ws.drop_first().drop_first())));
            lemma_scan_wedge_off_axis(g, Cardinal::North, k, k + 1, w1.start, w1.end);
            lemma_scan_wedge_off_axis(g, Cardinal::North, k, k + 1, w2.start, w2.end);
        } else {
            assert(wedge_marks(g, Cardinal::North, k + 1, ws) == Set::<int>::empty());
        }
        assert(st.marks.contains(blocker));
        assert(!st.marks.contains(target));
    }
}

/// Single-blocker shadow: with one lone blocking cell strictly between the
/// vantage cell and a farther cell on the same northward ray, the farther
/// cell is occluded, while the blocker itself stays visible and the cells
/// beside the shadow — those at or past the slopes through the blocker's
/// corners — are still seen.
pub proof fn lemma_lone_blocker_occludes(g: Grid, k: int, m: int)
    requires
        grid_wf(g),
        lone_blocker_square(g, k),
        1 <= k < m,
        m <= g.radius - 1,
    ensures
        !visible_set(g).contains(cell_idx(g, vantage_row(g) - m, vantage_col(g))),
        visible_set(g).contains(cell_idx(g, vantage_row(g) - k, vantage_col(g))),
        forall|r: int, c: int|
            {
                let dd = vantage_row(g) - r;
                let qc = c - vantage_col(g);
                k < dd && dd <= 2 * k * qc && qc <= dd && dd + qc < g.radius
            } ==> visible_set(g).contains(#[trigger] cell_idx(g, r, c)),
        forall|r: int, c: int|
            {
                let dd = vantage_row(g) - r;
                let qc = c - vantage_col(g);
                k < dd && 2 * k * qc <= -dd && -dd <= qc && dd - qc < g.radius
            } ==> visible_set(g).contains(#[trigger] cell_idx(g, r, c)),
{
    let target = cell_idx(g, vantage_row(g) - m, vantage_col(g));
    lemma_north_prefix(g, k, m, 1);
    lemma_scan_wedge_covers(
        g,
        Cardinal::North,
        k,
        k + 1,
        seed_start(),
        crate::model::clip_slope(k, 0),
    );
    lemma_scan_wedge_covers(
        g,
        Cardinal::North,
        k,
        k + 1,
        crate::model::clip_slope(k, 1),
        seed_end(),
    );
    assert forall|r: int, c: int|
        {
            let dd = vantage_row(g) - r;
            let qc = c - vantage_col(g);
            k < dd && dd <= 2 * k * qc && qc <= dd && dd + qc < g.radius
        } implies visible_set(g).contains(#[trigger] cell_idx(g, r, c)) by {
        let dd = vantage_row(g) - r;
        let qc = c - vantage_col(g);
        let r0 = vantage_row(g) - dd;
        let c0 = vantage_col(g) + qc;
        assert(1 <= qc) by (nonlinear_arith)
            requires
                dd <= 2 * k * qc,
                1 <= k < dd,
        ;
        assert(cell_lone(g, k, r0, c0));
        lemma_idx_coords(g, r0, c0);
        lemma_tile_quad(g, Cardinal::North, dd, qc);
        let i = cell_idx(g, r0, c0);
        assert(qc * (2 * k) == 2 * k * qc) by (nonlinear_arith);
        assert(within_wedge(dd, crate::model::clip_slope(k, 1), seed_end(), qc));
        assert(iabs(qc) == qc);
        assert(scan_marks(
            g,
            Cardinal::North,
            k + 1,
            crate::model::clip_slope(k, 1),
            seed_end(),
        ).contains(i));
    }
    assert forall|r: int, c: int|
        {
            let dd = vantage_row(g) - r;
            let qc = c - vantage_col(g);
            k < dd && 2 * k * qc <= -dd && -dd <= qc && dd - qc < g.radius
        } implies visible_set(g).contains(#[trigger] cell_idx(g, r, c)) by {
        let dd = vantage_row(g) - r;
        let qc = c - vantage_col(g);
        let r0 = vantage_row(g) - dd;
        let c0 = vantage_col(g) + qc;
        assert(qc <= -1) by (nonlinear_arith)
            requires
                2 * k * qc <= -dd,
                1 <= k < dd,
        ;
        assert(cell_lone(g, k, r0, c0));
        lemma_idx_coords(g, r0, c0);
        lemma_tile_quad(g, Cardinal::North, dd, qc);
        let i = cell_idx(g, r0, c0);
        assert(qc * (2 * k) == 2 * k * qc) by (nonlinear_arith);
        assert(within_wedge(dd, seed_start(), crate::model::clip_slope(k, 0), qc));
        assert(iabs(qc) == -qc);
        assert(scan_marks(
            g,
            Cardinal::North,
            k + 1,
            seed_start(),
            crate::model::clip_slope(k, 0),
        ).contains(i));
    }
    lemma_scan_depth(g, Cardinal::East, 1, seed_start(), seed_end());
    lemma_scan_depth(g, Cardinal::West, 1, seed_start(), seed_end());
    lemma_scan_depth(g, Cardinal::South, 1, seed_start(), seed_end());
    assert(cell_lone(g, k, vantage_row(g) - m, vantage_col(g)));
    lemma_idx_coords(g, vantage_row(g) - m, vantage_col(g));
    lemma_tile_quad(g, Cardinal::North, m, 0);
    assert(quad_depth(g, Cardinal::East, target / g.width, target % g.width) == -m);
    assert(quad_depth(g, Cardinal::West, target / g.width, target % g.width) == 0);
    assert(quad_depth(g, Cardinal::South, target / g.width, target % g.width) == 0);
    assert(target != g.pos) by {
        lemma_coords_idx(g, g.pos);
    }
}

/// Two queries that differ only in their radius: one row scan makes the same
/// decisions under both, and marks under the smaller radius a subset of what
/// it marks under the larger.
proof fn lemma_row_radius_monotonic(
    g1: Grid,
    g2: Grid,
    card: Cardinal,
    d: int,
    s: crate::rational::Frac,
    e: crate::rational::Frac,
    n: nat,
)
    requires
        g1.map == g2.map,
        g1.width == g2.width,
        g1.pos == g2.pos,
        g1.radius <= g2.radius,
    ensures
        row_scan_upto(g1, card, d, s, e, n).prev == row_scan_upto(g2, card, d, s, e, n).prev,
        row_scan_upto(g1, card, d, s, e, n).cur == row_scan_upto(g2, card, d, s, e, n).cur,
        row_scan_upto(g1, card, d, s, e, n).spawns == row_scan_upto(g2, card, d, s, e, n).spawns,
        forall|i: int|
            row_scan_upto(g1, card, d, s, e, n).marks.contains(i) ==> row_scan_upto(
                g2,
                card,
                d,
                s,
                e,
                n,
            ).marks.contains(i),
    decreases n,
{
    if n > 0 {
        lemma_row_radius_monotonic(g1, g2, card, d, s, e, (n - 1) as nat);
        let c = crate::model::row_min_col(d, s) + n - 1;
        assert(tile_blocks(g1, card, d, c) == tile_blocks(g2, card, d, c));
        assert(tile_marked(g1, card, d, s, e, c) ==> tile_marked(g2, card, d, s, e, c));
    }
}

/// A quadrant scan under a smaller radius marks a subset of what the same
/// scan marks under a larger radius.
proof fn lemma_scan_radius_monotonic(
    g1: Grid,
    g2: Grid,
    card: Cardinal,
    d: int,
    s: crate::rational::Frac,
    e: crate::rational::Frac,
)
    requires
        g1.map == g2.map,
        g1.width == g2.width,
        g1.pos == g2.pos,
        g1.radius <= g2.radius,
    ensures
        forall|i: int|
            scan_marks(g1, card, d, s, e).contains(i) ==> scan_marks(
                g2,
                card,
                d,
                s,
                e,
            ).contains(i),
    decreases g2.radius - d, 0int,
{
    if d < g1.radius {
        lemma_row_radius_monotonic(g1, g2, card, d, s, e, row_len(d, s, e));
        let st1 = row_scan_full(g1, card, d, s, e);
        let st2 = row_scan_full(g2, card, d, s, e);
        let ws1 = if st1.prev == Some(false) {
            st1.spawns.push(Wedge { start: st1.cur, end: e })
        } else {
            st1.spawns
        };
        let ws2 = if st2.prev == Some(false) {
            st2.spawns.push(Wedge { start: st2.cur, end: e })
        } else {
            st2.spawns
        };
        assert(ws1 == ws2);
        lemma_wedges_radius_monotonic(g1, g2, card, d + 1, ws1);
        assert forall|i: int|
            scan_marks(g1, card, d, s, e).contains(i) implies scan_marks(
            g2,
            card,
            d,
            s,
            e,
        ).contains(i) by {
            assert(scan_marks(g1, card, d, s, e) == st1.marks.union(
                wedge_marks(g1, card, d + 1, ws1),
            ));
            assert(scan_marks(g2, card, d, s, e) == st2.marks.union(
                wedge_marks(g2, card, d + 1, ws2),
            ));
            if st1.marks.contains(i) {
                assert(st2.marks.contains(i));
            } else {
                assert(wedge_marks(g1, card, d + 1, ws1).contains(i));
                assert(wedge_marks(g2, card, d + 1, ws1).contains(i));
            }
        }
    } else {
        assert(scan_marks(g1, card, d, s, e) == Set::<int>::empty());
    }
}

/// The wedge-sequence form of `lemma_scan_radius_monotonic`.
proof fn lemma_wedges_radius_monotonic(
    g1: Grid,
    g2: Grid,
    card: Cardinal,
    d: int,
    ws: Seq<Wedge>,
)
    requires
        g1.map == g2.map,
        g1.width == g2.width,
        g1.pos == g2.pos,
        g1.radius <= g2.radius,
    ensures
        forall|i: int|
            wedge_marks(g1, card, d, ws).contains(i) ==> wedge_marks(g2, card, d, ws).contains(i),
    decreases g2.radius - d, ws.len() + 1,
{
    if d >= g1.radius || ws.len() == 0 {
        assert(wedge_marks(g1, card, d, ws) == Set::<int>::empty());
    } else {
        lemma_scan_radius_monotonic(g1, g2, card, d, ws[0].start, ws[0].end);
        lemma_wedges_radius_monotonic(g1, g2, card, d, ws.drop_first());
        assert forall|i: int|
            wedge_marks(g1, card, d, ws).contains(i) implies wedge_marks(
            g2,
            card,
            d,
            ws,
        ).contains(i) by {
            assert(wedge_marks(g1, card, d, ws) == scan_marks(
                g1,
                card,
                d,
                ws[0].start,
                ws[0].end,
            ).union(wedge_marks(g1, card, d, ws.drop_first())));
            assert(wedge_marks(g2, card, d, ws) == scan_marks(
                g2,
                card,
                d,
                ws[0].start,
                ws[0].end,
            ).union(wedge_marks(g2, card, d, ws.drop_first())));
        }
    }
}

/// Monotonic radius: with the vantage point and map held fixed, everything
/// visible at radius `g1.radius` stays visible at any radius at least as
/// large.
pub proof fn lemma_radius_monotonic(g1: Grid, g2: Grid)
    requires
        g1.map == g2.map,
        g1.width == g2.width,
        g1.pos == g2.pos,
        g1.radius <= g2.radius,
    ensures
        visible_set(g1).subset_of(visible_set(g2)),
{
    lemma_scan_radius_monotonic(g1, g2, Cardinal::North, 1, seed_start(), seed_end());
    lemma_scan_radius_monotonic(g1, g2, Cardinal::East, 1, seed_start(), seed_end());
    lemma_scan_radius_monotonic(g1, g2, Cardinal::West, 1, seed_start(), seed_end());
    lemma_scan_radius_monotonic(g1, g2, Cardinal::South, 1, seed_start(), seed_end());
}

} // verus!
