use vstd::prelude::*;
use crate::model::{
    Cardinal, Grid, Wedge, cell_idx, clip_slope, grid_height, grid_view, in_grid, manhattan,
    row_len, row_max_col, row_min_col, row_scan_full, row_scan_upto, scan_marks, seed_end,
    seed_start, tile_blocks, tile_col, tile_marked, tile_row, visible_set, wedge_marks,
    within_wedge, lemma_wedge_marks_push,
};
use crate::rational::{
    Frac, lemma_div_lower_bound, lemma_div_upper_bound, lemma_max_col_lower, lemma_max_col_upper,
    lemma_min_col_lower, lemma_min_col_upper, lemma_mul_abs_bound,
};

verus! {

/// A slope held as an exact fraction in machine integers. Every slope the
/// scan ever builds has the shape `(2 * column - 1) / (2 * depth)` or is one
/// of the seeds `-1 / 1` and `1 / 1`, so `i128` fields leave ample headroom
/// for the cross-multiplied comparisons.
#[derive(Clone, Copy)]
pub struct Slope {
    pub num: i128,
    pub den: i128,
}

impl Slope {
    /// The exact rational value this slope holds.
    pub open spec fn frac(self) -> Frac {
        Frac { num: self.num as int, den: self.den as int }
    }
}

/// A slope used by a row at depth `d` stays within the seed wedge and its
/// denominator is at most `2 * d`, which bounds every product the scan forms.
pub open spec fn slope_wf(s: Slope, d: int) -> bool {
    &&& 0 < s.den <= 2 * d
    &&& -s.den <= s.num <= s.den
}

/// Flooring division for a positive divisor, carried out in unsigned
/// arithmetic so that the rounding direction is explicit.
fn floor_div(a: i128, b: i128) -> (q: i128)
    requires
        0 < b <= 0x1000_0000_0000_0000_0000,
        -0x1000_0000_0000_0000_0000 <= a <= 0x1000_0000_0000_0000_0000,
    ensures
        q as int == a as int / b as int,
        -0x2000_0000_0000_0000_0000 <= q <= 0x1000_0000_0000_0000_0000,
{
    if a >= 0 {
        let qu: u128 = (a as u128) / (b as u128);
        proof {
            vstd::arithmetic::div_mod::lemma_div_pos_is_pos(a as int, b as int);
            vstd::arithmetic::div_mod::lemma_div_nonincreasing(a as int, b as int);
        }
        qu as i128
    } else {
        let m: u128 = (-a) as u128;
        let bu: u128 = b as u128;
        let q2: u128 = (m + bu - 1) / bu;
        proof {
            let ai = a as int;
            let bi = b as int;
            let mi = m as int;
            let q2i = q2 as int;
            vstd::arithmetic::div_mod::lemma_fundamental_div_mod(mi + bi - 1, bi);
            assert((-q2i) * bi <= ai && ai < ((-q2i) + 1) * bi) by (nonlinear_arith)
                requires
                    mi == -ai,
                    0 < bi,
                    q2i == (mi + bi - 1) / bi,
                    mi + bi - 1 == bi * ((mi + bi - 1) / bi) + (mi + bi - 1) % bi,
                    0 <= (mi + bi - 1) % bi < bi,
            ;
            lemma_div_lower_bound(ai, bi, -q2i);
            lemma_div_upper_bound(ai, bi, -q2i);
            vstd::arithmetic::div_mod::lemma_div_pos_is_pos(mi + bi - 1, bi);
            vstd::arithmetic::div_mod::lemma_div_nonincreasing(mi + bi - 1, bi);
        }
        -(q2 as i128)
    }
}

/// One quadrant scan from depth `depth` outward, confined to the wedge
/// between `s` and `e`. Marks every cell that `scan_marks` holds visible and
/// touches nothing else.
#[verifier::loop_isolation(false)]
#[verifier::rlimit(60)]
fn scan_rec(
    map: &Vec<u8>,
    map_width: usize,
    position: usize,
    radius: u32,
    card: Cardinal,
    depth: u64,
    s: Slope,
    e: Slope,
    fov: &mut Vec<u8>,
)
    requires
        0 < map_width,
        position < map.len(),
        map@.len() % (map_width as nat) == 0,
        1 <= depth <= radius as int + 1,
        slope_wf(s, depth as int),
        slope_wf(e, depth as int),
        old(fov)@.len() == map@.len(),
        forall|i: int| 0 <= i < map@.len() ==> old(fov)@[i] == 0 || old(fov)@[i] == 1,
    ensures
        final(fov)@.len() == map@.len(),
        forall|i: int|
            0 <= i < map@.len() ==> final(fov)@[i] == (if old(fov)@[i] == 1 || scan_marks(
                grid_view(map@, map_width as int, position as int, radius as int),
                card,
                depth as int,
                s.frac(),
                e.frac(),
            ).contains(i) {
                1u8
            } else {
                0u8
            }),
    decreases radius as int + 1 - depth as int,
{
    let ghost g = grid_view(map@, map_width as int, position as int, radius as int);
    if depth >= radius as u64 {
        return ;
    }
    let d: i128 = depth as i128;
    let w: i128 = map_width as i128;
    let prow: i128 = (position / map_width) as i128;
    let pcol: i128 = (position % map_width) as i128;
    let hgt: i128 = (map.len() / map_width) as i128;
    proof {
        lemma_min_col_lower(d as int, s.frac());
        lemma_min_col_upper(d as int, s.frac());
        lemma_max_col_lower(d as int, e.frac());
        lemma_max_col_upper(d as int, e.frac());
        lemma_mul_abs_bound(2 * (d as int), s.num as int, 0x2_0000_0000, 0x2_0000_0000);
        lemma_mul_abs_bound(2 * (d as int), e.num as int, 0x2_0000_0000, 0x2_0000_0000);
    }
    let min_col: i128 = floor_div(2 * d * s.num + s.den, 2 * s.den);
    let max_col: i128 = -floor_div(e.den - 2 * d * e.num, 2 * e.den);
    assert(min_col as int == row_min_col(d as int, s.frac()));
    assert(max_col as int == row_max_col(d as int, e.frac()));
    assert(-(d as int) <= min_col as int <= d as int);
    assert(-(d as int) - 1 <= max_col as int <= d as int);
    let ghost fov0 = fov@;
    let mut c: i128 = min_col;
    let mut prev: Option<bool> = None;
    let mut cur: Slope = s;
    while c <= max_col
        invariant
            min_col <= c,
            c <= max_col + 1 || c == min_col,
            slope_wf(cur, depth as int),
            fov@.len() == map@.len(),
            forall|i: int| 0 <= i < map@.len() ==> fov@[i] == 0 || fov@[i] == 1,
            prev == row_scan_upto(g, card, depth as int, s.frac(), e.frac(), (c
                - min_col) as nat).prev,
            cur.frac() == row_scan_upto(g, card, depth as int, s.frac(), e.frac(), (c
                - min_col) as nat).cur,
            forall|i: int| #![trigger fov@[i]]
                0 <= i < map@.len() ==> fov@[i] == (if fov0[i] == 1 || row_scan_upto(
                    g,
                    card,
                    depth as int,
                    s.frac(),
                    e.frac(),
                    (c - min_col) as nat,
                ).marks.contains(i) || wedge_marks(
                    g,
                    card,
                    depth as int + 1,
                    row_scan_upto(g, card, depth as int, s.frac(), e.frac(), (c
                        - min_col) as nat).spawns,
                ).contains(i) {
                    1u8
                } else {
                    0u8
                }),
        decreases max_col + 1 - c,
    {
        let ghost n = (c - min_col) as nat;
        let ghost st_pre = row_scan_upto(g, card, depth as int, s.frac(), e.frac(), n);
        proof {
            lemma_mul_abs_bound(c as int, s.den as int, 0x1_0000_0000, 0x2_0000_0000);
            lemma_mul_abs_bound(c as int, e.den as int, 0x1_0000_0000, 0x2_0000_0000);
            lemma_mul_abs_bound(d as int, s.num as int, 0x1_0000_0000, 0x2_0000_0000);
            lemma_mul_abs_bound(d as int, e.num as int, 0x1_0000_0000, 0x2_0000_0000);
        }
        let (tr, tc): (i128, i128) = match card {
            Cardinal::North => (prow - d, pcol + c),
            Cardinal::East => (prow + d, pcol + c),
            Cardinal::West => (prow + c, pcol + d),
            Cardinal::South => (prow + c, pcol - d),
        };
        assert(tr as int == tile_row(g, card, depth as int, c as int));
        assert(tc as int == tile_col(g, card, depth as int, c as int));
        let in_g: bool = 0 <= tr && tr < hgt && 0 <= tc && tc < w;
        assert(in_g == in_grid(g, tr as int, tc as int));
        let ghost idx_g = cell_idx(
            g,
            tile_row(g, card, depth as int, c as int),
            tile_col(g, card, depth as int, c as int),
        );
        let ghost mkd = tile_marked(g, card, depth as int, s.frac(), e.frac(), c as int);
        let ghost m1 = if mkd {
            st_pre.marks.insert(idx_g)
        } else {
            st_pre.marks
        };
        let ghost w0 = wedge_marks(g, card, depth as int + 1, st_pre.spawns);
        let ghost fov_pre = fov@;
        assert(forall|i: int|
            0 <= i < map@.len() ==> fov_pre[i] == (if fov0[i] == 1 || st_pre.marks.contains(i)
                || w0.contains(i) {
                1u8
            } else {
                0u8
            }));
        let mut b: bool = true;
        if in_g {
            proof {
                vstd::arithmetic::div_mod::lemma_fundamental_div_mod(
                    map@.len() as int,
                    map_width as int,
                );
                assert((tr as int) * (map_width as int) + (tc as int) < map@.len()
                    && 0 <= (tr as int) * (map_width as int)) by (nonlinear_arith)
                    requires
                        0 <= tr as int,
                        (tr as int) < grid_height(g),
                        0 <= tc as int,
                        (tc as int) < map_width as int,
                        grid_height(g) * (map_width as int) == map@.len(),
                        0 < map_width as int,
                        grid_height(g) == map@.len() as int / map_width as int,
                ;
            }
            let idx: usize = (tr as usize) * map_width + (tc as usize);
            assert(idx as int == cell_idx(g, tr as int, tc as int));
            b = map[idx] == 1;
            let dr: i128 = if prow >= tr {
                prow - tr
            } else {
                tr - prow
            };
            let dc: i128 = if pcol >= tc {
                pcol - tc
            } else {
                tc - pcol
            };
            let dist: i128 = dr + dc;
            assert(dist as int == manhattan(g, tr as int, tc as int));
            let symmetric: bool = c * s.den >= d * s.num && c * e.den <= d * e.num;
            assert(symmetric == within_wedge(depth as int, s.frac(), e.frac(), c as int));
            if dist < radius as i128 && (b || symmetric) {
                assert(tile_marked(g, card, depth as int, s.frac(), e.frac(), c as int));
                fov[idx] = 1;
            } else {
                assert(!tile_marked(g, card, depth as int, s.frac(), e.frac(), c as int));
            }
        } else {
            assert(!tile_marked(g, card, depth as int, s.frac(), e.frac(), c as int));
        }
        assert(b == tile_blocks(g, card, depth as int, c as int));
        assert(forall|i: int|
            0 <= i < map@.len() ==> fov@[i] == (if fov0[i] == 1 || m1.contains(i) || w0.contains(i) {
                1u8
            } else {
                0u8
            }));
        match prev {
            Some(pb) => {
                if pb && !b {
                    cur = Slope { num: 2 * c - 1, den: 2 * d };
                    assert(cur.frac() == clip_slope(depth as int, c as int));
                } else if !pb && b {
                    let clip: Slope = Slope { num: 2 * c - 1, den: 2 * d };
                    assert(clip.frac() == clip_slope(depth as int, c as int));
                    assert(slope_wf(clip, depth as int + 1));
                    assert(slope_wf(cur, depth as int + 1));
                    let ghost fov_mid = fov@;
                    assert(forall|i: int|
                        0 <= i < map@.len() ==> fov@[i] == 0 || fov@[i] == 1);
                    scan_rec(map, map_width, position, radius, card, depth + 1, cur, clip, fov);
                    proof {
                        lemma_wedge_marks_push(
                            g,
                            card,
                            depth as int + 1,
                            st_pre.spawns,
                            Wedge { start: st_pre.cur, end: clip_slope(depth as int, c as int) },
                        );
                        assert(forall|i: int|
                            0 <= i < map@.len() ==> fov@[i] == (if fov_mid[i] == 1 || scan_marks(
                                g,
                                card,
                                depth as int + 1,
                                st_pre.cur,
                                clip_slope(depth as int, c as int),
                            ).contains(i) {
                                1u8
                            } else {
                                0u8
                            }));
                        assert(forall|i: int|
                            0 <= i < map@.len() ==> fov@[i] == (if fov0[i] == 1 || m1.contains(i)
                                || wedge_marks(
                                g,
                                card,
                                depth as int + 1,
                                st_pre.spawns.push(
                                    Wedge {
                                        start: st_pre.cur,
                                        end: clip_slope(depth as int, c as int),
                                    },
                                ),
                            ).contains(i) {
                                1u8
                            } else {
                                0u8
                            }));
                    }
                }
            },
            None => {},
        }
        prev = Some(b);
        proof {
            let st_post = row_scan_upto(g, card, depth as int, s.frac(), e.frac(), n + 1);
            assert(row_min_col(depth as int, s.frac()) + (n + 1) - 1 == c as int);
            assert(st_post.prev == Some(b));
            assert(st_post.marks == m1);
            assert(st_post.cur == cur.frac());
            assert(st_post.spawns == (if st_pre.prev == Some(false) && b {
                st_pre.spawns.push(
                    Wedge { start: st_pre.cur, end: clip_slope(depth as int, c as int) },
                )
            } else {
                st_pre.spawns
            }));
        }
        c = c + 1;
    }
    let ghost n_full = (c - min_col) as nat;
    proof {
        assert(n_full == row_len(depth as int, s.frac(), e.frac()));
    }
    let ghost st_full = row_scan_full(g, card, depth as int, s.frac(), e.frac());
    let mut trail: bool = false;
    match prev {
        Some(pb) => {
            if !pb {
                trail = true;
            }
        },
        None => {},
    }
    if trail {
        assert(slope_wf(cur, depth as int + 1));
        assert(slope_wf(e, depth as int + 1));
        assert(forall|i: int| 0 <= i < map@.len() ==> fov@[i] == 0 || fov@[i] == 1);
        scan_rec(map, map_width, position, radius, card, depth + 1, cur, e, fov);
        proof {
            lemma_wedge_marks_push(
                g,
                card,
                depth as int + 1,
                st_full.spawns,
                Wedge { start: st_full.cur, end: e.frac() },
            );
        }
    }
}

/// Computes the cells visible from `position` on a flat row-major map of
/// width `map_width`, out to Manhattan distance strictly below `radius`.
///
/// A map byte of 1 blocks light and any other value is open. The result has
/// the same length as the map and holds 1 exactly at the visible cells: the
/// vantage cell itself, plus every cell that one of the four quadrant scans
/// marks. A cell is marked when it is strictly closer than `radius` and
/// either blocks light itself (blockers are visible; only what lies behind
/// them is shadowed) or passes the symmetry check against the slope wedge
/// still open at its depth. Cells outside the grid are treated as blocking,
/// which guards the coordinate arithmetic near the map edge.
pub fn get_visible_idxs(position: usize, map: &Vec<u8>, map_width: usize, radius: u32) -> (fov_map:
    Vec<u8>)
    requires
        0 < map_width,
        position < map.len(),
        map@.len() % (map_width as nat) == 0,
    ensures
        fov_map@.len() == map@.len(),
        forall|i: int|
            0 <= i < map@.len() ==> fov_map@[i] == (if visible_set(
                grid_view(map@, map_width as int, position as int, radius as int),
            ).contains(i) {
                1u8
            } else {
                0u8
            }),
        fov_map@[position as int] == 1,
{
    let ghost g = grid_view(map@, map_width as int, position as int, radius as int);
    let mut fov_map: Vec<u8> = Vec::new();
    while fov_map.len() < map.len()
        invariant
            fov_map@.len() <= map@.len(),
            forall|i: int| 0 <= i < fov_map@.len() ==> fov_map@[i] == 0u8,
        decreases map@.len() - fov_map@.len(),
    {
        fov_map.push(0u8);
    }
    fov_map[position] = 1;
    let seed_s: Slope = Slope { num: -1, den: 1 };
    let seed_e: Slope = Slope { num: 1, den: 1 };
    assert(seed_s.frac() == seed_start());
    assert(seed_e.frac() == seed_end());
    scan_rec(map, map_width, position, radius, Cardinal::North, 1, seed_s, seed_e, &mut fov_map);
    scan_rec(map, map_width, position, radius, Cardinal::East, 1, seed_s, seed_e, &mut fov_map);
    scan_rec(map, map_width, position, radius, Cardinal::West, 1, seed_s, seed_e, &mut fov_map);
    scan_rec(map, map_width, position, radius, Cardinal::South, 1, seed_s, seed_e, &mut fov_map);
    fov_map
}

} // verus!
