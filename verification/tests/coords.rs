use hex_forge::coords::{cell_center, cell_for, HexCell, WorldPosition};

#[test]
fn cell_for_is_deterministic() {
    let positions = [
        (0i64, 0i64),
        (186, 0),
        (-372, 321),
        (12345, -6789),
        (-1, 1),
        (300_000_000_000, -300_000_000_000),
    ];
    for &(x, y) in positions.iter() {
        let first = cell_for(WorldPosition { x, y });
        let second = cell_for(WorldPosition { x, y });
        assert_eq!(first, second);
    }
}

#[test]
fn origin_maps_to_cell_zero() {
    let cell = cell_for(WorldPosition { x: 0, y: 0 });
    assert_eq!(cell, HexCell { col: 0, row: 0 });
}

#[test]
fn cell_for_exact_values() {
    assert_eq!(cell_for(WorldPosition { x: 186, y: 0 }), HexCell { col: 1, row: 0 });
    assert_eq!(cell_for(WorldPosition { x: 0, y: 107 }), HexCell { col: 0, row: 0 });
    assert_eq!(cell_for(WorldPosition { x: 372, y: 321 }), HexCell { col: 2, row: 1 });
    assert_eq!(cell_for(WorldPosition { x: -186, y: -214 }), HexCell { col: -1, row: -1 });
    assert_eq!(cell_for(WorldPosition { x: -372, y: 321 }), HexCell { col: -2, row: 1 });
    assert_eq!(cell_for(WorldPosition { x: -372, y: 213 }), HexCell { col: -2, row: 0 });
}

#[test]
fn cell_for_ties_round_upward() {
    // x = 93 lies exactly between the center lines of columns 0 and 1.
    assert_eq!(cell_for(WorldPosition { x: 93, y: 107 }).col, 1);
    assert_eq!(cell_for(WorldPosition { x: -93, y: 107 }).col, 0);
    // y = 0 lies exactly between the centers of cells (0, -1) and (0, 0).
    assert_eq!(cell_for(WorldPosition { x: 0, y: 0 }).row, 0);
    assert_eq!(cell_for(WorldPosition { x: 0, y: -1 }).row, -1);
}

#[test]
fn cell_center_exact_values() {
    assert_eq!(cell_center(HexCell { col: 0, row: 0 }), WorldPosition { x: 0, y: 107 });
    assert_eq!(cell_center(HexCell { col: 1, row: 0 }), WorldPosition { x: 186, y: 0 });
    assert_eq!(cell_center(HexCell { col: -2, row: 1 }), WorldPosition { x: -372, y: 321 });
    assert_eq!(cell_center(HexCell { col: 3, row: -2 }), WorldPosition { x: 558, y: -428 });
}

#[test]
fn cell_center_round_trip_small_range() {
    for col in -50i64..=50 {
        for row in -50i64..=50 {
            let cell = HexCell { col, row };
            assert_eq!(cell_for(cell_center(cell)), cell);
        }
    }
}

#[test]
fn cell_center_round_trip_far_cells() {
    for &col in [-1_400_000_000i64, -65537, 65536, 1_400_000_000].iter() {
        for &row in [-1_400_000_000i64, -4096, 4095, 1_400_000_000].iter() {
            let cell = HexCell { col, row };
            assert_eq!(cell_for(cell_center(cell)), cell);
        }
    }
}
