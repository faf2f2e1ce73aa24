use shadowcast::get_visible_idxs;

#[test]
fn it_works() {
    let map = vec![
        1, 1, 1, 1, 1, 1, 1, 1, 1, 1, //
        1, 1, 1, 1, 1, 1, 1, 1, 1, 1, //
        1, 1, 0, 0, 0, 0, 0, 0, 1, 1, //
        1, 1, 0, 0, 0, 0, 0, 0, 1, 1, //
        1, 1, 0, 0, 0, 0, 0, 0, 1, 1, //
        1, 1, 0, 0, 0, 0, 0, 0, 1, 1, //
        1, 1, 0, 0, 0, 0, 0, 0, 1, 1, //
        1, 1, 0, 0, 0, 0, 0, 0, 1, 1, //
        1, 1, 1, 1, 1, 1, 1, 1, 1, 1, //
        1, 1, 1, 1, 1, 1, 1, 1, 1, 1, //
    ];
    let map_width = 10;
    let position = 35;
    let expected = vec![
        0, 0, 0, 0, 0, 0, 0, 0, 0, 0, //
        0, 1, 1, 1, 1, 1, 1, 1, 1, 0, //
        0, 1, 1, 1, 1, 1, 1, 1, 1, 0, //
        0, 1, 1, 1, 1, 1, 1, 1, 1, 0, //
        0, 1, 1, 1, 1, 1, 1, 1, 1, 0, //
        0, 1, 1, 1, 1, 1, 1, 1, 1, 0, //
        0, 1, 1, 1, 1, 1, 1, 1, 1, 0, //
        0, 1, 1, 1, 1, 1, 1, 1, 1, 0, //
        0, 1, 1, 1, 1, 1, 1, 1, 1, 0, //
        0, 0, 0, 0, 0, 0, 0, 0, 0, 0, //
    ];
    let result = get_visible_idxs(position, &map, map_width, 10);
    assert_eq!(result, expected);
}

#[test]
fn it_occludes_the_north_west_corner() {
    let map = vec![
        1, 1, 1, 1, 1, 1, 1, 1, 1, 1, //
        1, 1, 1, 1, 1, 1, 1, 1, 1, 1, //
        1, 1, 0, 0, 0, 0, 0, 0, 1, 1, //
        1, 1, 0, 1, 0, 0, 0, 0, 1, 1, //
        1, 1, 0, 0, 0, 0, 0, 0, 1, 1, //
        1, 1, 0, 0, 0, 0, 0, 0, 1, 1, //
        1, 1, 0, 0, 0, 0, 0, 0, 1, 1, //
        1, 1, 0, 0, 0, 0, 0, 0, 1, 1, //
        1, 1, 1, 1, 1, 1, 1, 1, 1, 1, //
        1, 1, 1, 1, 1, 1, 1, 1, 1, 1, //
    ];
    let map_width = 10;
    let position = 45;
    let expected = vec![
        0, 0, 0, 0, 0, 0, 0, 0, 0, 0, //
        0, 1, 1, 1, 1, 1, 1, 1, 1, 0, //
        0, 0, 0, 1, 1, 1, 1, 1, 1, 0, //
        0, 1, 0, 1, 1, 1, 1, 1, 1, 0, //
        0, 1, 1, 1, 1, 1, 1, 1, 1, 0, //
        0, 1, 1, 1, 1, 1, 1, 1, 1, 0, //
        0, 1, 1, 1, 1, 1, 1, 1, 1, 0, //
        0, 1, 1, 1, 1, 1, 1, 1, 1, 0, //
        0, 1, 1, 1, 1, 1, 1, 1, 1, 0, //
        0, 0, 0, 0, 0, 0, 0, 0, 0, 0, //
    ];
    let result = get_visible_idxs(position, &map, map_width, 10);
    assert_eq!(result, expected);
}

/// Radius 0 leaves only the vantage cell visible.
#[test]
fn radius_zero_sees_only_the_vantage_cell() {
    let map = vec![0; 25];
    let result = get_visible_idxs(12, &map, 5, 0);
    let mut expected = vec![0; 25];
    expected[12] = 1;
    assert_eq!(result, expected);
}

/// The vantage cell is visible even when it blocks light itself.
#[test]
fn vantage_cell_is_visible_even_when_opaque() {
    let map = vec![1; 9];
    let result = get_visible_idxs(4, &map, 3, 1);
    assert_eq!(result[4], 1);
}

/// On an open map the visible region is exactly the cells at Manhattan
/// distance strictly below the radius: a diamond, with no occlusion artifacts.
#[test]
fn open_map_yields_exact_manhattan_diamond() {
    let map = vec![0u8; 81];
    let map_width = 9;
    let position = 40; // row 4, col 4: the center
    let radius = 4;
    let result = get_visible_idxs(position, &map, map_width, radius);
    for row in 0..9i64 {
        for col in 0..9i64 {
            let idx = (row * 9 + col) as usize;
            let dist = (row - 4).abs() + (col - 4).abs();
            let expected = if dist < radius as i64 { 1 } else { 0 };
            assert_eq!(result[idx], expected, "cell ({}, {})", row, col);
        }
    }
}

/// Growing the radius never hides a cell that a smaller radius saw.
#[test]
fn larger_radius_sees_a_superset() {
    let map = vec![
        1, 1, 1, 1, 1, 1, 1, 1, 1, 1, //
        1, 1, 1, 1, 1, 1, 1, 1, 1, 1, //
        1, 1, 0, 0, 0, 0, 0, 0, 1, 1, //
        1, 1, 0, 1, 0, 0, 0, 0, 1, 1, //
        1, 1, 0, 0, 0, 0, 0, 0, 1, 1, //
        1, 1, 0, 0, 0, 0, 0, 0, 1, 1, //
        1, 1, 0, 0, 1, 0, 0, 0, 1, 1, //
        1, 1, 0, 0, 0, 0, 0, 0, 1, 1, //
        1, 1, 1, 1, 1, 1, 1, 1, 1, 1, //
        1, 1, 1, 1, 1, 1, 1, 1, 1, 1, //
    ];
    let position = 45;
    for r in 0..10u32 {
        let smaller = get_visible_idxs(position, &map, 10, r);
        let larger = get_visible_idxs(position, &map, 10, r + 1);
        for idx in 0..100 {
            assert!(
                smaller[idx] == 0 || larger[idx] == 1,
                "radius {} sees {} but radius {} does not",
                r,
                idx,
                r + 1
            );
        }
    }
}

/// A lone blocker between the vantage cell and a farther cell on the same
/// axis occludes that farther cell, stays visible itself, and leaves the
/// cells beside the shadow visible.
#[test]
fn lone_blocker_shadows_the_cell_behind_it() {
    let mut map = vec![0u8; 81];
    let map_width = 9;
    let position = 58; // row 6, col 4
    map[40] = 1; // row 4, col 4: two cells north of the vantage cell
    let result = get_visible_idxs(position, &map, map_width, 6);
    assert_eq!(result[40], 1, "the blocker itself is visible");
    assert_eq!(result[22], 0, "row 2, col 4, straight behind the blocker");
    assert_eq!(result[13], 0, "row 1, col 4, farther along the same ray");
    assert_eq!(result[31], 0, "row 3, col 4, directly behind the blocker");
    assert_eq!(result[21], 1, "row 2, col 3, beside the shadow");
    assert_eq!(result[23], 1, "row 2, col 5, beside the shadow");
    assert_eq!(result[49], 1, "row 5, col 4, between vantage and blocker");
}

/// Two calls on identical inputs give identical outputs.
#[test]
fn repeated_calls_agree() {
    let map = vec![
        0, 0, 0, 0, 0, //
        0, 1, 0, 1, 0, //
        0, 0, 0, 0, 0, //
        0, 1, 0, 1, 0, //
        0, 0, 0, 0, 0, //
    ];
    let first = get_visible_idxs(12, &map, 5, 4);
    let second = get_visible_idxs(12, &map, 5, 4);
    assert_eq!(first, second);
}
