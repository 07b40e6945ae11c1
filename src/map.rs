//! The tile grid: cell indexing, and carving rooms and corridors into it.
use crate::random::{fresh_rng, roll_dice};
use crate::rect::Rect;
use vstd::prelude::*;

verus! {

/// Width of the grid in tiles.
pub const MAP_WIDTH: i32 = 80;

/// Height of the grid in tiles.
pub const MAP_HEIGHT: i32 = 50;

/// Number of cells in the grid.
pub const MAP_SIZE: usize = 4000;

/// The terrain of one grid cell.
#[derive(Clone, Copy, Debug, PartialEq, Eq, Structural)]
pub enum TileType {
    Wall,
    Floor,
}

/// `(x, y)` names a cell of the grid.
pub open spec fn in_grid(x: int, y: int) -> bool {
    0 <= x < MAP_WIDTH && 0 <= y < MAP_HEIGHT
}

/// The row-major index of cell `(x, y)`.
pub open spec fn cell_index(x: int, y: int) -> int {
    y * MAP_WIDTH + x
}

/// Column of the cell at index `i`.
pub open spec fn col_of(i: int) -> int {
    i % (MAP_WIDTH as int)
}

/// Row of the cell at index `i`.
pub open spec fn row_of(i: int) -> int {
    i / (MAP_WIDTH as int)
}

/// Cell `i` lies on the horizontal segment from `x1` to `x2` (either order) in row `y`.
pub open spec fn on_horizontal(x1: int, x2: int, y: int, i: int) -> bool {
    row_of(i) == y && ((x1 <= col_of(i) <= x2) || (x2 <= col_of(i) <= x1))
}

/// Cell `i` lies on the vertical segment from `y1` to `y2` (either order) in column `x`.
pub open spec fn on_vertical(y1: int, y2: int, x: int, i: int) -> bool {
    col_of(i) == x && ((y1 <= row_of(i) <= y2) || (y2 <= row_of(i) <= y1))
}

/// Cell `i` lies in the floor region of `room`: `x1 + 1 ..= x2` by `y1 + 1 ..= y2`.
pub open spec fn in_room(room: Rect, i: int) -> bool {
    room.x1 + 1 <= col_of(i) <= room.x2 && room.y1 + 1 <= row_of(i) <= room.y2
}

/// The floor region of `room` lies inside the grid.
pub open spec fn room_fits(room: Rect) -> bool {
    room.wf() && -1 <= room.x1 && room.x2 < MAP_WIDTH && -1 <= room.y1 && room.y2 < MAP_HEIGHT
}

/// `after` is `before` with exactly the cells that `carved` selects set to floor.
pub open spec fn carved_exactly(
    before: Seq<TileType>,
    after: Seq<TileType>,
    carved: spec_fn(int) -> bool,
) -> bool {
    &&& after.len() == before.len()
    &&& forall|i: int|
        0 <= i < after.len() ==> #[trigger] after[i] == if carved(i) {
            TileType::Floor
        } else {
            before[i]
        }
}

/// The index of cell `(x, y)` in the row-major grid.
pub fn xy_idx(x: i32, y: i32) -> (r: usize)
    requires
        in_grid(x as int, y as int),
    ensures
        r == cell_index(x as int, y as int),
        r < MAP_SIZE,
{
    (y as usize * 80) + x as usize
}

/// The cell `(x, y)` at index `idx` of the grid.
pub fn idx_to_xy(idx: usize) -> (r: (i32, i32))
    requires
        idx < MAP_SIZE,
    ensures
        r.0 == col_of(idx as int),
        r.1 == row_of(idx as int),
        in_grid(r.0 as int, r.1 as int),
{
    let x = idx % 80;
    let y = idx / 80;
    (x as i32, y as i32)
}

/// For every cell of the grid, turning it into an index and back gives the
/// cell again; and every index of the grid comes from its own cell.
pub proof fn lemma_index_round_trip(x: int, y: int, i: int)
    requires
        in_grid(x, y),
        0 <= i < MAP_SIZE,
    ensures
        0 <= cell_index(x, y) < MAP_SIZE,
        col_of(cell_index(x, y)) == x,
        row_of(cell_index(x, y)) == y,
        in_grid(col_of(i), row_of(i)),
        cell_index(col_of(i), row_of(i)) == i,
{
}

/// Sets every cell from `x1` to `x2` (inclusive, either order) of row `y` to floor.
pub fn apply_horizontal_tunnel(map: &mut [TileType], x1: i32, x2: i32, y: i32)
    requires
        old(map)@.len() == MAP_SIZE,
        in_grid(x1 as int, y as int),
        in_grid(x2 as int, y as int),
    ensures
        carved_exactly(old(map)@, final(map)@, |i: int| on_horizontal(x1 as int, x2 as int, y as int, i)),
{
    let lo = if x1 <= x2 { x1 } else { x2 };
    let hi = if x1 <= x2 { x2 } else { x1 };
    let mut x = lo;
    while x <= hi
        invariant
            lo <= x <= hi + 1,
            lo == if x1 <= x2 { x1 } else { x2 },
            hi == if x1 <= x2 { x2 } else { x1 },
            in_grid(lo as int, y as int),
            in_grid(hi as int, y as int),
            map@.len() == MAP_SIZE,
            forall|i: int|
                0 <= i < MAP_SIZE ==> #[trigger] map@[i] == if row_of(i) == y && lo <= col_of(i) < x {
                    TileType::Floor
                } else {
                    old(map)@[i]
                },
        decreases hi + 1 - x,
    {
        let idx = xy_idx(x, y);
        map[idx] = TileType::Floor;
        x = x + 1;
    }
}

/// Sets every cell from `y1` to `y2` (inclusive, either order) of column `x` to floor.
pub fn apply_vertical_tunnel(map: &mut [TileType], y1: i32, y2: i32, x: i32)
    requires
        old(map)@.len() == MAP_SIZE,
        in_grid(x as int, y1 as int),
        in_grid(x as int, y2 as int),
    ensures
        carved_exactly(old(map)@, final(map)@, |i: int| on_vertical(y1 as int, y2 as int, x as int, i)),
{
    let lo = if y1 <= y2 { y1 } else { y2 };
    let hi = if y1 <= y2 { y2 } else { y1 };
    let mut y = lo;
    while y <= hi
        invariant
            lo <= y <= hi + 1,
            lo == if y1 <= y2 { y1 } else { y2 },
            hi == if y1 <= y2 { y2 } else { y1 },
            in_grid(x as int, lo as int),
            in_grid(x as int, hi as int),
            map@.len() == MAP_SIZE,
            forall|i: int|
                0 <= i < MAP_SIZE ==> #[trigger] map@[i] == if col_of(i) == x && lo <= row_of(i) < y {
                    TileType::Floor
                } else {
                    old(map)@[i]
                },
        decreases hi + 1 - y,
    {
        let idx = xy_idx(x, y);
        map[idx] = TileType::Floor;
        y = y + 1;
    }
}

/// Sets the floor region of `room` to floor.
pub fn apply_room_to_map(room: &Rect, map: &mut [TileType])
    requires
        old(map)@.len() == MAP_SIZE,
        room_fits(*room),
    ensures
        carved_exactly(old(map)@, final(map)@, |i: int| in_room(*room, i)),
{
    let mut y = room.y1 + 1;
    while y <= room.y2
        invariant
            room.y1 + 1 <= y <= room.y2 + 1,
            room_fits(*room),
            map@.len() == MAP_SIZE,
            forall|i: int|
                0 <= i < MAP_SIZE ==> #[trigger] map@[i] == if room.x1 + 1 <= col_of(i) <= room.x2
                    && room.y1 + 1 <= row_of(i) < y {
                    TileType::Floor
                } else {
                    old(map)@[i]
                },
        decreases room.y2 + 1 - y,
    {
        let mut x = room.x1 + 1;
        while x <= room.x2
            invariant
                room.x1 + 1 <= x <= room.x2 + 1,
                room.y1 + 1 <= y <= room.y2,
                room_fits(*room),
                map@.len() == MAP_SIZE,
                forall|i: int|
                    0 <= i < MAP_SIZE ==> #[trigger] map@[i] == if (room.x1 + 1 <= col_of(i)
                        <= room.x2 && room.y1 + 1 <= row_of(i) < y) || (row_of(i) == y && room.x1
                        + 1 <= col_of(i) < x) {
                        TileType::Floor
                    } else {
                        old(map)@[i]
                    },
            decreases room.x2 + 1 - x,
        {
            let idx = xy_idx(x, y);
            map[idx] = TileType::Floor;
            x = x + 1;
        }
        y = y + 1;
    }
}

/// A grid of `MAP_SIZE` cells, all `tile`.
pub(crate) fn filled_map(tile: TileType) -> (r: Vec<TileType>)
    ensures
        r@.len() == MAP_SIZE,
        forall|i: int| 0 <= i < MAP_SIZE ==> #[trigger] r@[i] == tile,
{
    let mut map: Vec<TileType> = Vec::new();
    let mut n: usize = 0;
    while n < MAP_SIZE
        invariant
            n <= MAP_SIZE,
            map@.len() == n,
            forall|i: int| 0 <= i < n ==> #[trigger] map@[i] == tile,
        decreases MAP_SIZE - n,
    {
        map.push(tile);
        n = n + 1;
    }
    map
}

/// Cell `i` is on the outer edge of the grid.
pub open spec fn on_border(i: int) -> bool {
    row_of(i) == 0 || row_of(i) == MAP_HEIGHT - 1 || col_of(i) == 0 || col_of(i) == MAP_WIDTH - 1
}

/// Cell `i` is one of the first `n` rolled cells.
pub open spec fn hit_by_roll(rolls: Seq<(i32, i32)>, n: int, i: int) -> bool {
    exists|k: int| 0 <= k < n && i == cell_index((#[trigger] rolls[k]).0 as int, rolls[k].1 as int)
}

/// Every rolled cell has both coordinates at least 1 and lies in the grid.
pub open spec fn rolls_inside(rolls: Seq<(i32, i32)>) -> bool {
    forall|k: int| 0 <= k < rolls.len() ==> 1 <= (#[trigger] rolls[k]).0 <= 79 && 1 <= rolls[k].1 <= 49
}

/// `map` is the test grid for `rolls`: a cell is a wall exactly when it is on
/// the edge, or was rolled and is not the centre cell `(40, 25)`.
pub open spec fn scattered(rolls: Seq<(i32, i32)>, map: Seq<TileType>) -> bool {
    &&& map.len() == MAP_SIZE
    &&& forall|i: int|
        0 <= i < MAP_SIZE ==> #[trigger] map[i] == if on_border(i) || (hit_by_roll(rolls, rolls.len() as int, i)
            && i != cell_index(40, 25)) {
            TileType::Wall
        } else {
            TileType::Floor
        }
}

/// The test grid for the given rolled cells: walls all around the edge and on
/// every rolled cell but the centre `(40, 25)`, floor elsewhere.
pub fn new_map_from_rolls(rolls: &Vec<(i32, i32)>) -> (r: Vec<TileType>)
    requires
        rolls_inside(rolls@),
    ensures
        scattered(rolls@, r@),
{
    let mut map = filled_map(TileType::Floor);
    let mut x: i32 = 0;
    while x < MAP_WIDTH
        invariant
            0 <= x <= MAP_WIDTH,
            map@.len() == MAP_SIZE,
            forall|i: int|
                0 <= i < MAP_SIZE ==> #[trigger] map@[i] == if (row_of(i) == 0 || row_of(i) == 49)
                    && col_of(i) < x {
                    TileType::Wall
                } else {
                    TileType::Floor
                },
        decreases MAP_WIDTH - x,
    {
        let top = xy_idx(x, 0);
        map[top] = TileType::Wall;
        let bottom = xy_idx(x, 49);
        map[bottom] = TileType::Wall;
        x = x + 1;
    }
    let mut y: i32 = 0;
    while y < MAP_HEIGHT
        invariant
            0 <= y <= MAP_HEIGHT,
            map@.len() == MAP_SIZE,
            forall|i: int|
                0 <= i < MAP_SIZE ==> #[trigger] map@[i] == if row_of(i) == 0 || row_of(i) == 49 || ((
                col_of(i) == 0 || col_of(i) == 79) && row_of(i) < y) {
                    TileType::Wall
                } else {
                    TileType::Floor
                },
        decreases MAP_HEIGHT - y,
    {
        let left = xy_idx(0, y);
        map[left] = TileType::Wall;
        let right = xy_idx(79, y);
        map[right] = TileType::Wall;
        y = y + 1;
    }
    let centre = xy_idx(40, 25);
    let mut n: usize = 0;
    while n < rolls.len()
        invariant
            0 <= n <= rolls@.len(),
            rolls_inside(rolls@),
            centre == cell_index(40, 25),
            map@.len() == MAP_SIZE,
            forall|i: int|
                0 <= i < MAP_SIZE ==> #[trigger] map@[i] == if on_border(i) || (hit_by_roll(rolls@, n as int, i)
                    && i != cell_index(40, 25)) {
                    TileType::Wall
                } else {
                    TileType::Floor
                },
        decreases rolls@.len() - n,
    {
        let (x, y) = rolls[n];
        let idx = xy_idx(x, y);
        if idx != centre {
            map[idx] = TileType::Wall;
        }
        proof {
            assert forall|i: int| 0 <= i < MAP_SIZE implies hit_by_roll(rolls@, n + 1, i) == (hit_by_roll(
                rolls@,
                n as int,
                i,
            ) || i == idx) by {
                if i == idx {
                    assert(rolls@[n as int] == (x, y));
                }
                if hit_by_roll(rolls@, n + 1, i) && !hit_by_roll(rolls@, n as int, i) {
                    let k = choose|k: int| 0 <= k < n + 1 && i == cell_index((#[trigger] rolls@[k]).0 as int, rolls@[k].1 as int);
                    assert(k == n);
                }
            }
        }
        n = n + 1;
    }
    map
}

/// A test grid: walls all around the edge, the centre cell `(40, 25)` left as
/// floor, and walls on 400 cells rolled at random inside the edge.
pub fn new_map_test() -> (r: Vec<TileType>)
    ensures
        exists|rolls: Seq<(i32, i32)>|
            rolls.len() == 400 && rolls_inside(rolls) && #[trigger] scattered(rolls, r@),
{
    let mut rng = fresh_rng();
    let mut rolls: Vec<(i32, i32)> = Vec::new();
    let mut n: i32 = 0;
    while n < 400
        invariant
            0 <= n <= 400,
            rolls@.len() == n,
            rolls_inside(rolls@),
        decreases 400 - n,
    {
        let x = roll_dice(&mut rng, 1, 79);
        let y = roll_dice(&mut rng, 1, 49);
        rolls.push((x, y));
        n = n + 1;
    }
    let map = new_map_from_rolls(&rolls);
    proof {
        assert(scattered(rolls@, map@));
    }
    map
}

} // verus!
