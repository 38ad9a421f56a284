use hex_forge::coords::{cell_center, HexCell, WorldPosition};
use hex_forge::window::{tile_handle, TileWindow};

fn has_cell(cells: &[HexCell], col: i64, row: i64) -> bool {
    cells.iter().any(|c| *c == HexCell { col, row })
}

/// The window invariant, checked at run time: exactly the inclusive
/// square of half-width `radius` around the reference, no duplicates.
fn assert_window_shape(window: &TileWindow) {
    let radius = window.radius();
    let reference = window.reference_cell();
    let cells = window.active_cells();
    let side = (2 * radius + 1) as usize;
    assert_eq!(cells.len(), side * side);
    for c in cells.iter() {
        assert!((c.col - reference.col).abs() <= radius);
        assert!((c.row - reference.row).abs() <= radius);
    }
    for col in reference.col - radius..=reference.col + radius {
        for row in reference.row - radius..=reference.row + radius {
            assert_eq!(cells.iter().filter(|c| **c == HexCell { col, row }).count(), 1);
        }
    }
}

#[test]
fn new_window_has_square_of_cells() {
    let window = TileWindow::new(5);
    assert_eq!(window.radius(), 5);
    assert_eq!(window.reference_cell(), HexCell { col: 0, row: 0 });
    let cells = window.active_cells();
    assert_eq!(cells.len(), 121);
    assert!(has_cell(&cells, 0, 0));
    assert!(has_cell(&cells, 5, 5));
    assert!(has_cell(&cells, -5, -5));
    assert!(has_cell(&cells, 5, -5));
    assert!(!has_cell(&cells, 6, 0));
    assert!(!has_cell(&cells, 0, -6));
    assert_window_shape(&window);
}

#[test]
fn no_op_guard_skips_same_cell_moves() {
    let mut window = TileWindow::new(2);
    let before = window.active_cells();

    // A move inside cell (0, 0) must not touch the tile set at all.
    let delta = window.on_reference_moved(WorldPosition { x: 10, y: 107 });
    assert!(delta.destroyed.is_empty());
    assert!(delta.created.is_empty());
    assert_eq!(window.active_cells(), before);
    assert_eq!(window.reference_cell(), HexCell { col: 0, row: 0 });

    // Crossing into cell (1, 0) does work once ...
    let delta = window.on_reference_moved(WorldPosition { x: 186, y: 0 });
    assert!(!delta.destroyed.is_empty());
    assert!(!delta.created.is_empty());

    // ... and a second position in the same cell is again a no-op.
    let after = window.active_cells();
    let delta = window.on_reference_moved(WorldPosition { x: 200, y: 5 });
    assert!(delta.destroyed.is_empty());
    assert!(delta.created.is_empty());
    assert_eq!(window.active_cells(), after);
    assert_eq!(window.reference_cell(), HexCell { col: 1, row: 0 });
}

#[test]
fn scenario_move_right_with_radius_two() {
    let mut window = TileWindow::new(2);
    assert_eq!(window.active_cells().len(), 25);

    let delta = window.on_reference_moved(WorldPosition { x: 186, y: 0 });

    assert_eq!(window.reference_cell(), HexCell { col: 1, row: 0 });
    assert_eq!(delta.destroyed.len(), 5);
    for tile in delta.destroyed.iter() {
        assert_eq!(tile.cell.col, -2);
        assert_eq!(tile.handle, tile_handle(tile.cell));
    }
    for row in -2..=2 {
        assert!(delta.destroyed.iter().any(|t| t.cell == HexCell { col: -2, row }));
    }

    assert_eq!(delta.created.len(), 5);
    for cell in delta.created.iter() {
        assert_eq!(cell.col, 3);
    }
    for row in -2..=2 {
        assert!(delta.created.iter().any(|c| *c == HexCell { col: 3, row }));
    }

    assert_eq!(window.active_cells().len(), 25);
    assert_window_shape(&window);
}

#[test]
fn window_invariant_holds_along_a_path() {
    let mut window = TileWindow::new(2);
    let path = [
        (186i64, 0i64),
        (372, 321),
        (372, 322),
        (-558, -428),
        (0, 107),
        (930, 535),
        (0, 107),
    ];
    for &(x, y) in path.iter() {
        let delta = window.on_reference_moved(WorldPosition { x, y });
        // Whatever moved, the window shape is restored, destroyed tiles
        // are gone, and created cells are present exactly once.
        assert_window_shape(&window);
        let cells = window.active_cells();
        for tile in delta.destroyed.iter() {
            assert!(!cells.contains(&tile.cell));
        }
        for cell in delta.created.iter() {
            assert_eq!(cells.iter().filter(|c| **c == *cell).count(), 1);
        }
    }
}

#[test]
fn hover_at_center_returns_that_cell() {
    let window = TileWindow::new(2);
    let pointer = cell_center(HexCell { col: 1, row: 1 });
    let hovered = window.hovered_tile(pointer).expect("center of an active cell is hovered");
    assert_eq!(hovered.cell, HexCell { col: 1, row: 1 });
    assert_eq!(hovered.handle, tile_handle(HexCell { col: 1, row: 1 }));

    // Exactly one materialized tile carries the hovered cell address.
    let cells = window.active_cells();
    assert_eq!(cells.iter().filter(|c| **c == hovered.cell).count(), 1);

    // The pointer's cell is reported even away from the exact center.
    assert_eq!(window.current_cell_for_pointer(pointer), HexCell { col: 1, row: 1 });
}

#[test]
fn hover_outside_window_returns_none() {
    let window = TileWindow::new(2);
    let pointer = cell_center(HexCell { col: 5, row: 5 });
    assert!(window.hovered_tile(pointer).is_none());
    assert_eq!(window.current_cell_for_pointer(pointer), HexCell { col: 5, row: 5 });
}

#[test]
fn radius_zero_window_has_single_cell() {
    let mut window = TileWindow::new(0);
    assert_eq!(window.active_cells(), vec![HexCell { col: 0, row: 0 }]);

    let delta = window.on_reference_moved(WorldPosition { x: 186, y: 0 });
    assert_eq!(delta.destroyed.len(), 1);
    assert_eq!(delta.destroyed[0].cell, HexCell { col: 0, row: 0 });
    assert_eq!(delta.created, vec![HexCell { col: 1, row: 0 }]);
    assert_eq!(window.active_cells(), vec![HexCell { col: 1, row: 0 }]);
    assert_window_shape(&window);
}

#[test]
fn handles_are_distinct_per_cell() {
    let mut handles = Vec::new();
    for col in -3i64..=3 {
        for row in -3i64..=3 {
            handles.push(tile_handle(HexCell { col, row }));
        }
    }
    for i in 0..handles.len() {
        for j in 0..handles.len() {
            if i != j {
                assert_ne!(handles[i], handles[j]);
            }
        }
    }
}
