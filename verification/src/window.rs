//! Windowed tile streaming around a moving reference point.
//!
//! A `TileWindow` keeps materialized exactly the cells of an inclusive
//! square window (in offset-coordinate space — a deliberate
//! approximation of a true hex-radius disk) of half-width `radius`
//! around the cell containing a reference position. Each frame the host
//! reports the reference position; only when the computed cell changes
//! does the window recompute, returning which tiles to destroy and which
//! to create. Each materialized cell carries the handle under which the
//! host tracks its render object; the handle is a stable key derived
//! from the cell address, so the host can associate it with whatever
//! engine object it spawns for the tile and resolve it again on
//! destruction.

use crate::coords::{cell_for, cell_key, spec_cell, HexCell, WorldPosition, MAX_CELL, MAX_WORLD};
use vstd::prelude::*;
use vstd::relations::injective_on;
use vstd::set_lib::{lemma_int_range, lemma_map_size, lemma_set_disjoint_lens, set_int_range};

verus! {

broadcast use vstd::seq::Seq::lemma_push_to_set_commute, vstd::seq_lib::lemma_seq_contains_after_push;

/// Bound on the window half-width.
pub const MAX_RADIUS: i64 = 1_000;

/// One materialized cell, together with the handle under which the host
/// tracks the render object that backs it.
#[derive(Clone, Copy, PartialEq, Eq, Structural, Debug)]
pub struct ActiveTile {
    pub cell: HexCell,
    pub handle: u64,
}

/// Create and destroy instructions handed back to the host after the
/// reference point crossed a cell boundary.
pub struct WindowDelta {
    /// Tiles that left the window; the host destroys their render
    /// objects by handle.
    pub destroyed: Vec<ActiveTile>,
    /// Cells that entered the window; the host creates a render object
    /// at each cell's world-space center.
    pub created: Vec<HexCell>,
}

/// The cell addresses of a sequence of active tiles, in order.
pub open spec fn cells_of(tiles: Seq<ActiveTile>) -> Seq<(int, int)> {
    tiles.map_values(|t: ActiveTile| cell_key(t.cell))
}

/// The addresses of a sequence of cells, in order.
pub open spec fn keys_of(cells: Seq<HexCell>) -> Seq<(int, int)> {
    cells.map_values(|c: HexCell| cell_key(c))
}

/// The cells `(c, r)` with `clo <= c <= chi` and `rlo <= r <= rhi`.
pub open spec fn rect(clo: int, chi: int, rlo: int, rhi: int) -> Set<(int, int)> {
    Set::new(|p: (int, int)| clo <= p.0 <= chi && rlo <= p.1 <= rhi)
}

/// The inclusive square window of half-width `radius` around `center`:
/// both components within `radius` of the center, bounds included.
pub open spec fn window_set(center: (int, int), radius: int) -> Set<(int, int)> {
    rect(center.0 - radius, center.0 + radius, center.1 - radius, center.1 + radius)
}

/// The cell containing `position`, which drives the window.
pub open spec fn target(position: WorldPosition) -> (int, int) {
    spec_cell(position.x as int, position.y as int)
}

/// The handle under which the host tracks the tile of the cell at `p`:
/// both components, shifted to be nonnegative, packed into one word.
pub open spec fn spec_handle(p: (int, int)) -> int {
    (p.0 + 0x8000_0000) * 0x1_0000_0000 + (p.1 + 0x8000_0000)
}

/// Strict lexicographic order on cell addresses, column first.
spec fn lex_before(p: (int, int), q: (int, int)) -> bool {
    p.0 < q.0 || (p.0 == q.0 && p.1 < q.1)
}

/// The cells of the complete columns `clo..c` of a rectangle with rows
/// `rlo..=rhi`, plus the cells `rlo..r` of column `c` itself.
spec fn rect_prefix(clo: int, rlo: int, rhi: int, c: int, r: int) -> Set<(int, int)> {
    rect(clo, c - 1, rlo, rhi).union(Set::new(|p: (int, int)| p.0 == c && rlo <= p.1 < r))
}

/// The handle for the tile of `cell`.
pub fn tile_handle(cell: HexCell) -> (h: u64)
    requires
        -MAX_CELL - MAX_RADIUS <= cell.col <= MAX_CELL + MAX_RADIUS,
        -MAX_CELL - MAX_RADIUS <= cell.row <= MAX_CELL + MAX_RADIUS,
    ensures
        h == spec_handle(cell_key(cell)),
{
    let a: u64 = (cell.col + 0x8000_0000) as u64;
    let b: u64 = (cell.row + 0x8000_0000) as u64;
    a * 0x1_0000_0000 + b
}

/// Distinct cells always receive distinct handles, so destroying a tile
/// by handle can never hit the tile of another cell.
pub proof fn lemma_handle_injective(p: (int, int), q: (int, int))
    requires
        -MAX_CELL - MAX_RADIUS <= p.0 <= MAX_CELL + MAX_RADIUS,
        -MAX_CELL - MAX_RADIUS <= p.1 <= MAX_CELL + MAX_RADIUS,
        -MAX_CELL - MAX_RADIUS <= q.0 <= MAX_CELL + MAX_RADIUS,
        -MAX_CELL - MAX_RADIUS <= q.1 <= MAX_CELL + MAX_RADIUS,
        spec_handle(p) == spec_handle(q),
    ensures
        p == q,
{
    assert((p.0 - q.0) * 0x1_0000_0000 == (q.1 + 0x8000_0000) - (p.1 + 0x8000_0000));
}

/// Whether `tiles` holds a tile for `cell`.
fn contains_cell(tiles: &Vec<ActiveTile>, cell: HexCell) -> (found: bool)
    ensures
        found == cells_of(tiles@).to_set().contains(cell_key(cell)),
{
    let mut i: usize = 0;
    while i < tiles.len()
        invariant
            0 <= i <= tiles@.len(),
            forall|j: int| 0 <= j < i ==> #[trigger] cells_of(tiles@)[j] != cell_key(cell),
        decreases tiles@.len() - i,
    {
        if tiles[i].cell == cell {
            assert(cells_of(tiles@)[i as int] == cell_key(cell));
            return true;
        }
        i = i + 1;
    }
    proof {
        if cells_of(tiles@).to_set().contains(cell_key(cell)) {
            let j: int = choose|j: int|
                0 <= j < cells_of(tiles@).len() && cells_of(tiles@)[j] == cell_key(cell);
            assert(cells_of(tiles@)[j] != cell_key(cell));
        }
    }
    false
}

/// The tiles of `old_tiles` that lie outside the window of half-width
/// `radius` around `center`, in storage order.
fn collect_departures(old_tiles: &Vec<ActiveTile>, center: HexCell, radius: i64) -> (gone: Vec<
    ActiveTile,
>)
    requires
        0 <= radius <= MAX_RADIUS,
        -MAX_CELL <= center.col <= MAX_CELL,
        -MAX_CELL <= center.row <= MAX_CELL,
        cells_of(old_tiles@).no_duplicates(),
    ensures
        cells_of(gone@).no_duplicates(),
        cells_of(gone@).to_set() == cells_of(old_tiles@).to_set().difference(
            window_set(cell_key(center), radius as int),
        ),
        forall|k: int| 0 <= k < gone@.len() ==> old_tiles@.contains(#[trigger] gone@[k]),
{
    let col_lo: i64 = center.col - radius;
    let col_hi: i64 = center.col + radius;
    let row_lo: i64 = center.row - radius;
    let row_hi: i64 = center.row + radius;
    let ghost window: Set<(int, int)> = window_set(cell_key(center), radius as int);
    let mut gone: Vec<ActiveTile> = Vec::new();
    let mut i: usize = 0;
    while i < old_tiles.len()
        invariant
            0 <= i <= old_tiles@.len(),
            cells_of(old_tiles@).no_duplicates(),
            col_lo == center.col - radius,
            col_hi == center.col + radius,
            row_lo == center.row - radius,
            row_hi == center.row + radius,
            window == window_set(cell_key(center), radius as int),
            cells_of(gone@).no_duplicates(),
            cells_of(gone@).to_set() == cells_of(old_tiles@.take(i as int)).to_set().difference(
                window,
            ),
            forall|k: int|
                0 <= k < gone@.len() ==> old_tiles@.take(i as int).contains(#[trigger] gone@[k]),
        decreases old_tiles@.len() - i,
    {
        let t: ActiveTile = old_tiles[i];
        let inside: bool = t.cell.col >= col_lo && t.cell.col <= col_hi && t.cell.row >= row_lo
            && t.cell.row <= row_hi;
        proof {
            assert(inside == window.contains(cell_key(t.cell)));
            assert(old_tiles@.take(i as int + 1) =~= old_tiles@.take(i as int).push(t));
            assert(cells_of(old_tiles@.take(i as int + 1)) =~= cells_of(
                old_tiles@.take(i as int),
            ).push(cell_key(t.cell)));
        }
        let ghost gone0 = gone@;
        if !inside {
            gone.push(t);
            proof {
                assert(cells_of(gone@) =~= cells_of(gone0).push(cell_key(t.cell)));
                assert(!cells_of(gone0).to_set().contains(cell_key(t.cell))) by {
                    if cells_of(gone0).to_set().contains(cell_key(t.cell)) {
                        let k: int = choose|k: int|
                            0 <= k < cells_of(gone0).len() && cells_of(gone0)[k] == cell_key(
                                t.cell,
                            );
                        assert(old_tiles@.take(i as int).contains(gone0[k]));
                        let j: int = choose|j: int|
                            0 <= j < i && old_tiles@.take(i as int)[j] == gone0[k];
                        assert(cells_of(old_tiles@)[j] == cell_key(t.cell));
                        assert(cells_of(old_tiles@)[i as int] == cell_key(t.cell));
                    }
                };
                assert(cells_of(gone@).no_duplicates());
                assert(cells_of(gone@).to_set() =~= cells_of(
                    old_tiles@.take(i as int + 1),
                ).to_set().difference(window));
            }
        } else {
            proof {
                assert(cells_of(gone@).to_set() =~= cells_of(
                    old_tiles@.take(i as int + 1),
                ).to_set().difference(window));
            }
        }
        proof {
            assert forall|k: int|
                0 <= k < gone@.len() implies old_tiles@.take(i as int + 1).contains(
                #[trigger] gone@[k],
            ) by {
                if k < gone0.len() {
                    let j: int = choose|j: int|
                        0 <= j < i && old_tiles@.take(i as int)[j] == gone0[k];
                    assert(old_tiles@.take(i as int + 1)[j] == gone@[k]);
                } else {
                    assert(old_tiles@.take(i as int + 1)[i as int] == gone@[k]);
                }
            }
        }
        i = i + 1;
    }
    proof {
        assert(old_tiles@.take(old_tiles@.len() as int) =~= old_tiles@);
    }
    gone
}

/// All tiles of the window of half-width `radius` around `reference`,
/// in column-major order, each under its handle; and, in the same
/// order, the cells among them for which `old_tiles` holds no tile yet.
fn fill_window(reference: HexCell, radius: i64, old_tiles: &Vec<ActiveTile>) -> (filled: (
    Vec<ActiveTile>,
    Vec<HexCell>,
))
    requires
        0 <= radius <= MAX_RADIUS,
        -MAX_CELL <= reference.col <= MAX_CELL,
        -MAX_CELL <= reference.row <= MAX_CELL,
    ensures
        cells_of(filled.0@).no_duplicates(),
        cells_of(filled.0@).to_set() == window_set(cell_key(reference), radius as int),
        forall|k: int|
            0 <= k < filled.0@.len() ==> (#[trigger] filled.0@[k]).handle == spec_handle(
                cell_key(filled.0@[k].cell),
            ),
        keys_of(filled.1@).no_duplicates(),
        keys_of(filled.1@).to_set() == window_set(cell_key(reference), radius as int).difference(
            cells_of(old_tiles@).to_set(),
        ),
{
    let col_lo: i64 = reference.col - radius;
    let col_hi: i64 = reference.col + radius;
    let row_lo: i64 = reference.row - radius;
    let row_hi: i64 = reference.row + radius;
    let ghost old_cells: Set<(int, int)> = cells_of(old_tiles@).to_set();
    let mut tiles: Vec<ActiveTile> = Vec::new();
    let mut created: Vec<HexCell> = Vec::new();
    let mut c: i64 = col_lo;
    while c <= col_hi
        invariant
            col_lo <= c <= col_hi + 1,
            col_lo == reference.col - radius,
            col_hi == reference.col + radius,
            row_lo == reference.row - radius,
            row_hi == reference.row + radius,
            0 <= radius <= MAX_RADIUS,
            -MAX_CELL <= reference.col <= MAX_CELL,
            -MAX_CELL <= reference.row <= MAX_CELL,
            old_cells == cells_of(old_tiles@).to_set(),
            cells_of(tiles@).no_duplicates(),
            cells_of(tiles@).to_set() == rect_prefix(
                col_lo as int,
                row_lo as int,
                row_hi as int,
                c as int,
                row_lo as int,
            ),
            forall|k: int|
                0 <= k < tiles@.len() ==> lex_before(
                    #[trigger] cells_of(tiles@)[k],
                    (c as int, row_lo as int),
                ),
            forall|k: int|
                0 <= k < tiles@.len() ==> (#[trigger] tiles@[k]).handle == spec_handle(
                    cell_key(tiles@[k].cell),
                ),
            keys_of(created@).no_duplicates(),
            keys_of(created@).to_set() == cells_of(tiles@).to_set().difference(old_cells),
            forall|k: int|
                0 <= k < created@.len() ==> lex_before(
                    #[trigger] keys_of(created@)[k],
                    (c as int, row_lo as int),
                ),
        decreases col_hi + 1 - c,
    {
        let mut r: i64 = row_lo;
        while r <= row_hi
            invariant
                row_lo <= r <= row_hi + 1,
                col_lo <= c <= col_hi,
                col_lo == reference.col - radius,
                col_hi == reference.col + radius,
                row_lo == reference.row - radius,
                row_hi == reference.row + radius,
                0 <= radius <= MAX_RADIUS,
                -MAX_CELL <= reference.col <= MAX_CELL,
                -MAX_CELL <= reference.row <= MAX_CELL,
                old_cells == cells_of(old_tiles@).to_set(),
                cells_of(tiles@).no_duplicates(),
                cells_of(tiles@).to_set() == rect_prefix(
                    col_lo as int,
                    row_lo as int,
                    row_hi as int,
                    c as int,
                    r as int,
                ),
                forall|k: int|
                    0 <= k < tiles@.len() ==> lex_before(
                        #[trigger] cells_of(tiles@)[k],
                        (c as int, r as int),
                    ),
                forall|k: int|
                    0 <= k < tiles@.len() ==> (#[trigger] tiles@[k]).handle == spec_handle(
                        cell_key(tiles@[k].cell),
                    ),
                keys_of(created@).no_duplicates(),
                keys_of(created@).to_set() == cells_of(tiles@).to_set().difference(old_cells),
                forall|k: int|
                    0 <= k < created@.len() ==> lex_before(
                        #[trigger] keys_of(created@)[k],
                        (c as int, r as int),
                    ),
            decreases row_hi + 1 - r,
        {
            let cell: HexCell = HexCell { col: c, row: r };
            let handle: u64 = tile_handle(cell);
            let ghost tiles0 = tiles@;
            let ghost created0 = created@;
            let is_new: bool = !contains_cell(old_tiles, cell);
            if is_new {
                created.push(cell);
            }
            tiles.push(ActiveTile { cell, handle });
            proof {
                let key: (int, int) = cell_key(cell);
                assert(cells_of(tiles@) =~= cells_of(tiles0).push(key));
                assert(forall|k: int|
                    0 <= k < tiles0.len() ==> #[trigger] cells_of(tiles0)[k] != key);
                assert(cells_of(tiles@).no_duplicates());
                assert(cells_of(tiles@).to_set() =~= rect_prefix(
                    col_lo as int,
                    row_lo as int,
                    row_hi as int,
                    c as int,
                    r as int + 1,
                ));
                if is_new {
                    assert(keys_of(created@) =~= keys_of(created0).push(key));
                    assert(forall|k: int|
                        0 <= k < created0.len() ==> #[trigger] keys_of(created0)[k] != key);
                    assert(keys_of(created@).no_duplicates());
                }
                assert(keys_of(created@).to_set() =~= cells_of(tiles@).to_set().difference(
                    old_cells,
                ));
            }
            r = r + 1;
        }
        proof {
            assert(cells_of(tiles@).to_set() =~= rect_prefix(
                col_lo as int,
                row_lo as int,
                row_hi as int,
                c as int + 1,
                row_lo as int,
            ));
        }
        c = c + 1;
    }
    proof {
        assert(cells_of(tiles@).to_set() =~= window_set(cell_key(reference), radius as int));
    }
    (tiles, created)
}

/// The set of tiles kept materialized around the reference cell: the
/// active tile set, the reference cell it was computed from, and the
/// fixed window half-width chosen when the session began.
pub struct TileWindow {
    radius: i64,
    reference: HexCell,
    active: Vec<ActiveTile>,
}

impl TileWindow {
    /// The window half-width, fixed for the lifetime of the value.
    pub closed spec fn spec_radius(self) -> int {
        self.radius as int
    }

    /// The address of the cell the reference position was last mapped to.
    pub closed spec fn reference_key(self) -> (int, int) {
        cell_key(self.reference)
    }

    /// The materialized tiles, in storage order.
    pub closed spec fn tiles(self) -> Seq<ActiveTile> {
        self.active@
    }

    /// The addresses of the materialized cells.
    pub open spec fn active_keys(self) -> Set<(int, int)> {
        cells_of(self.tiles()).to_set()
    }

    /// Well-formedness: the active tile set holds, without duplicates,
    /// exactly the cells of the inclusive square window of half-width
    /// `radius` around the reference cell, each under the handle of its
    /// cell.
    pub open spec fn wf(self) -> bool {
        &&& 0 <= self.spec_radius() <= MAX_RADIUS
        &&& -MAX_CELL <= self.reference_key().0 <= MAX_CELL
        &&& -MAX_CELL <= self.reference_key().1 <= MAX_CELL
        &&& cells_of(self.tiles()).no_duplicates()
        &&& self.active_keys() == window_set(self.reference_key(), self.spec_radius())
        &&& forall|k: int|
            0 <= k < self.tiles().len() ==> (#[trigger] self.tiles()[k]).handle == spec_handle(
                cell_key(self.tiles()[k].cell),
            )
    }

    /// A window around the origin cell, fully materialized. The host
    /// reads `active_cells` to create the initial render objects.
    pub fn new(radius: i64) -> (w: TileWindow)
        requires
            0 <= radius <= MAX_RADIUS,
        ensures
            w.wf(),
            w.spec_radius() == radius,
            w.reference_key() == (0int, 0int),
    {
        let origin: HexCell = HexCell { col: 0, row: 0 };
        let empty: Vec<ActiveTile> = Vec::new();
        let (tiles, _initial) = fill_window(origin, radius, &empty);
        TileWindow { radius, reference: origin, active: tiles }
    }

    /// The window half-width.
    pub fn radius(&self) -> (r: i64)
        ensures
            r as int == self.spec_radius(),
    {
        self.radius
    }

    /// The cell the reference position was last mapped to.
    pub fn reference_cell(&self) -> (cell: HexCell)
        ensures
            cell_key(cell) == self.reference_key(),
    {
        self.reference
    }

    /// The addresses of all currently materialized cells, in storage
    /// order; also the record a session save persists.
    pub fn active_cells(&self) -> (cells: Vec<HexCell>)
        ensures
            keys_of(cells@) == cells_of(self.tiles()),
    {
        let mut cells: Vec<HexCell> = Vec::new();
        let mut i: usize = 0;
        while i < self.active.len()
            invariant
                0 <= i <= self.active@.len(),
                keys_of(cells@) == cells_of(self.active@.take(i as int)),
            decreases self.active@.len() - i,
        {
            let ghost cells0 = cells@;
            cells.push(self.active[i].cell);
            proof {
                assert(self.active@.take(i as int + 1) =~= self.active@.take(i as int).push(
                    self.active@[i as int],
                ));
                assert(keys_of(cells@) =~= keys_of(cells0).push(cell_key(self.active@[i as int].cell)));
                assert(cells_of(self.active@.take(i as int + 1)) =~= cells_of(
                    self.active@.take(i as int),
                ).push(cell_key(self.active@[i as int].cell)));
            }
            i = i + 1;
        }
        proof {
            assert(self.active@.take(self.active@.len() as int) =~= self.active@);
        }
        cells
    }

    /// Recomputes the window after the host reports the reference
    /// position for the frame.
    ///
    /// When the position still maps to the current reference cell this
    /// is a no-op: the tile set is untouched and the delta is empty, so
    /// sub-cell jitter never causes create or destroy calls. When the
    /// cell changed, the reference moves to it and the delta lists
    /// exactly the tiles that left the window (to destroy) and the cells
    /// that entered it (to create), each exactly once.
    pub fn on_reference_moved(&mut self, position: WorldPosition) -> (delta: WindowDelta)
        requires
            old(self).wf(),
            -MAX_WORLD <= position.x <= MAX_WORLD,
            -MAX_WORLD <= position.y <= MAX_WORLD,
        ensures
            final(self).wf(),
            final(self).spec_radius() == old(self).spec_radius(),
            final(self).reference_key() == target(position),
            target(position) == old(self).reference_key() ==> (final(self).tiles() == old(
                self,
            ).tiles() && delta.destroyed@.len() == 0 && delta.created@.len() == 0),
            target(position) != old(self).reference_key() ==> (cells_of(
                delta.destroyed@,
            ).no_duplicates() && cells_of(delta.destroyed@).to_set() == old(
                self,
            ).active_keys().difference(window_set(target(position), old(self).spec_radius()))
                && (forall|k: int|
                0 <= k < delta.destroyed@.len() ==> old(self).tiles().contains(
                    #[trigger] delta.destroyed@[k],
                )) && keys_of(delta.created@).no_duplicates() && keys_of(delta.created@).to_set()
                == window_set(target(position), old(self).spec_radius()).difference(
                old(self).active_keys(),
            )),
    {
        let new_cell: HexCell = cell_for(position);
        if new_cell == self.reference {
            let destroyed: Vec<ActiveTile> = Vec::new();
            let created: Vec<HexCell> = Vec::new();
            return WindowDelta { destroyed, created };
        }
        self.reference = new_cell;
        let destroyed: Vec<ActiveTile> = collect_departures(&self.active, new_cell, self.radius);
        let (tiles, created) = fill_window(new_cell, self.radius, &self.active);
        self.active = tiles;
        WindowDelta { destroyed, created }
    }

    /// The cell under the pointer, for hover highlighting.
    pub fn current_cell_for_pointer(&self, pointer: WorldPosition) -> (cell: HexCell)
        requires
            -MAX_WORLD <= pointer.x <= MAX_WORLD,
            -MAX_WORLD <= pointer.y <= MAX_WORLD,
        ensures
            cell_key(cell) == target(pointer),
    {
        cell_for(pointer)
    }

    /// The materialized tile under the pointer, if any: the pointer's
    /// cell is computed with the mapper and looked up among the active
    /// tiles by cell address, so at most one tile can ever be hovered.
    pub fn hovered_tile(&self, pointer: WorldPosition) -> (hovered: Option<ActiveTile>)
        requires
            self.wf(),
            -MAX_WORLD <= pointer.x <= MAX_WORLD,
            -MAX_WORLD <= pointer.y <= MAX_WORLD,
        ensures
            match hovered {
                Some(tile) => self.tiles().contains(tile) && cell_key(tile.cell) == target(
                    pointer,
                ) && tile.handle == spec_handle(target(pointer)),
                None => !self.active_keys().contains(target(pointer)),
            },
    {
        let cell: HexCell = cell_for(pointer);
        let mut i: usize = 0;
        while i < self.active.len()
            invariant
                self.wf(),
                0 <= i <= self.active@.len(),
                cell_key(cell) == target(pointer),
                forall|j: int| 0 <= j < i ==> #[trigger] cells_of(self.active@)[j] != cell_key(cell),
            decreases self.active@.len() - i,
        {
            if self.active[i].cell == cell {
                assert(self.tiles()[i as int] == self.active@[i as int]);
                return Some(self.active[i]);
            }
            i = i + 1;
        }
        proof {
            if self.active_keys().contains(cell_key(cell)) {
                let j: int = choose|j: int|
                    0 <= j < cells_of(self.active@).len() && cells_of(self.active@)[j] == cell_key(
                        cell,
                    );
                assert(cells_of(self.active@)[j] != cell_key(cell));
            }
        }
        None
    }
}

/// No two active tiles of a well-formed window share a cell: together
/// with the window-shape clause of `wf`, each cell of the window is
/// materialized exactly once.
pub proof fn lemma_one_tile_per_cell(w: TileWindow, i: int, j: int)
    requires
        w.wf(),
        0 <= i < w.tiles().len(),
        0 <= j < w.tiles().len(),
        cell_key(w.tiles()[i].cell) == cell_key(w.tiles()[j].cell),
    ensures
        i == j,
{
    assert(cells_of(w.tiles())[i] == cell_key(w.tiles()[i].cell));
    assert(cells_of(w.tiles())[j] == cell_key(w.tiles()[j].cell));
}

/// The number of cells in a single column strip of a rectangle.
proof fn lemma_column_len(c: int, rlo: int, rhi: int)
    requires
        rlo <= rhi + 1,
    ensures
        rect(c, c, rlo, rhi).finite(),
        rect(c, c, rlo, rhi).len() == rhi - rlo + 1,
{
    let rows: Set<int> = set_int_range(rlo, rhi + 1);
    let pair = (|r: int| (c, r));
    lemma_int_range(rlo, rhi + 1);
    assert(injective_on(pair, rows));
    assert forall|p: (int, int)| rect(c, c, rlo, rhi).contains(p) implies rows.map(
        pair,
    ).contains(p) by {
        assert(rows.contains(p.1) && pair(p.1) == p);
    }
    assert forall|p: (int, int)| rows.map(pair).contains(p) implies rect(c, c, rlo, rhi).contains(
        p,
    ) by {
        let a: int = choose|a: int| rows.contains(a) && pair(a) == p;
    }
    assert(rows.map(pair) =~= rect(c, c, rlo, rhi));
    lemma_map_size(rows, rect(c, c, rlo, rhi), pair);
}

/// The number of cells in a rectangle of columns `clo..=chi` and rows
/// `rlo..=rhi`.
proof fn lemma_rect_len(clo: int, chi: int, rlo: int, rhi: int)
    requires
        clo <= chi + 1,
        rlo <= rhi + 1,
    ensures
        rect(clo, chi, rlo, rhi).finite(),
        rect(clo, chi, rlo, rhi).len() == (chi - clo + 1) * (rhi - rlo + 1),
    decreases chi + 1 - clo,
{
    if clo > chi {
        assert(rect(clo, chi, rlo, rhi) =~= Set::<(int, int)>::empty());
        assert((chi - clo + 1) * (rhi - rlo + 1) == 0) by (nonlinear_arith)
            requires
                chi - clo + 1 == 0,
        ;
    } else {
        lemma_rect_len(clo, chi - 1, rlo, rhi);
        lemma_column_len(chi, rlo, rhi);
        let body: Set<(int, int)> = rect(clo, chi - 1, rlo, rhi);
        let strip: Set<(int, int)> = rect(chi, chi, rlo, rhi);
        assert(rect(clo, chi, rlo, rhi) =~= body + strip);
        assert(body.disjoint(strip));
        lemma_set_disjoint_lens(body, strip);
        assert((body + strip).len() == body.len() + strip.len());
        assert((chi - clo) * (rhi - rlo + 1) + (rhi - rlo + 1) == (chi - clo + 1) * (rhi - rlo
            + 1)) by (nonlinear_arith);
    }
}

/// A well-formed window always materializes exactly the full square:
/// `(2 * radius + 1)` columns of `(2 * radius + 1)` cells each.
pub proof fn lemma_active_count(w: TileWindow)
    requires
        w.wf(),
    ensures
        w.tiles().len() == (2 * w.spec_radius() + 1) * (2 * w.spec_radius() + 1),
{
    cells_of(w.tiles()).unique_seq_to_set();
    lemma_rect_len(
        w.reference_key().0 - w.spec_radius(),
        w.reference_key().0 + w.spec_radius(),
        w.reference_key().1 - w.spec_radius(),
        w.reference_key().1 + w.spec_radius(),
    );
}

} // verus!
