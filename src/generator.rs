//! The clustered-rooms layout generator: rows of rooms placed beside one
//! another at random, kept apart by an overlap test and joined by corridors.
use crate::map::{
    apply_horizontal_tunnel, apply_room_to_map, apply_vertical_tunnel, carved_exactly,
    filled_map, in_grid, in_room, on_horizontal, on_vertical, room_fits, TileType, MAP_HEIGHT,
    MAP_SIZE, MAP_WIDTH,
};
use crate::random::{draw_range, fresh_rng};
use crate::rect::Rect;
use rltk::RandomNumberGenerator;
use vstd::prelude::*;

verus! {

/// Coordinates of a rectangle keep three tiles of room from the integer limits.
pub open spec fn clear_of_limits(room: Rect) -> bool {
    &&& i32::MIN + 3 <= room.x1
    &&& room.x2 <= i32::MAX - 3
    &&& i32::MIN + 3 <= room.y1
    &&& room.y2 <= i32::MAX - 3
}

/// Where the next room goes beside `room`: one tile beyond the edge named by
/// `side` (0 up, 1 left, 2 below, 3 right), jittered at random along that edge.
pub fn side_switcher(rng: &mut RandomNumberGenerator, side: i32, room: Rect) -> (r: (i32, i32))
    requires
        0 <= side <= 3,
        room.wf(),
        clear_of_limits(room),
    ensures
        side == 0 ==> room.x1 - 3 <= r.0 < room.x2 + 3 && r.1 == room.y1 - 1,
        side == 1 ==> r.0 == room.x1 - 1 && room.y1 - 3 <= r.1 < room.y2 + 3,
        side == 2 ==> room.x1 - 3 <= r.0 < room.x1 + 3 && r.1 == room.y2 + 1,
        side == 3 ==> r.0 == room.x2 + 1 && room.y1 - 3 <= r.1 < room.y1 + 3,
{
    if side == 0 {
        (draw_range(rng, room.x1 - 3, room.x2 + 3), room.y1 - 1)
    } else if side == 1 {
        (room.x1 - 1, draw_range(rng, room.y1 - 3, room.y2 + 3))
    } else if side == 2 {
        (draw_range(rng, room.x1 - 3, room.x1 + 3), room.y2 + 1)
    } else {
        (room.x2 + 1, draw_range(rng, room.y1 - 3, room.y1 + 3))
    }
}

/// Why a generation run stopped without a layout.
#[derive(Clone, Copy, Debug, PartialEq, Eq, Structural)]
pub enum MapError {
    /// A room that was to be carved reaches outside the grid.
    OutOfGrid,
    /// More rooms were placed than were asked for.
    TooManyRooms,
}

/// Smallest side of a room.
pub const MIN_SIZE: i32 = 6;

/// Bound (exclusive) on the side of a room.
pub const MAX_SIZE: i32 = 10;

/// `r` is the number of rows for `room_count` rooms: the integer square root,
/// and zero when no rooms are asked for.
pub open spec fn is_row_count(room_count: int, r: int) -> bool {
    if room_count <= 0 {
        r == 0
    } else {
        0 <= r && r * r <= room_count < (r + 1) * (r + 1)
    }
}

/// Both sides of the room lie in `[MIN_SIZE, MAX_SIZE)`.
pub open spec fn room_size_ok(room: Rect) -> bool {
    &&& MIN_SIZE <= room.x2 - room.x1 < MAX_SIZE
    &&& MIN_SIZE <= room.y2 - room.y1 < MAX_SIZE
}

/// Room `j` overlaps none of the rooms placed before it.
pub open spec fn clear_of_earlier(rooms: Seq<Rect>, j: int) -> bool {
    forall|i: int| 0 <= i < j ==> !(#[trigger] rooms[i]).overlaps(rooms[j])
}

/// Every cell of the grid is a wall.
pub open spec fn all_walls(map: Seq<TileType>) -> bool {
    map.len() == MAP_SIZE && forall|i: int| 0 <= i < MAP_SIZE ==> #[trigger] map[i] == TileType::Wall
}

/// Each room fits the grid and has sides in `[MIN_SIZE, MAX_SIZE)`.
pub open spec fn rooms_placed(rooms: Seq<Rect>) -> bool {
    forall|k: int| 0 <= k < rooms.len() ==> room_fits(#[trigger] rooms[k]) && room_size_ok(rooms[k])
}

/// The first room sits at the fixed anchor: top edge at 5, left edge at
/// `10 - width / 2`.
pub open spec fn first_room_anchored(rooms: Seq<Rect>) -> bool {
    rooms.len() > 0 ==> rooms[0].y1 == 5 && rooms[0].x1 == 10 - (rooms[0].x2 - rooms[0].x1) / 2
}

/// The rectangle with origin `(x, y)`, `w` wide and `h` high.
pub open spec fn rect_at(x: i32, y: i32, w: i32, h: i32) -> Rect {
    Rect { x1: x, y1: y, x2: (x + w) as i32, y2: (y + h) as i32 }
}

/// The room that opens a row, placed one tile below the position `(x, y)`.
pub open spec fn row_opening(x: i32, y: i32, w: i32, h: i32) -> Rect {
    rect_at(x, (y + 1) as i32, w, h)
}

/// Some room of `rooms` overlaps `candidate`.
pub open spec fn overlaps_placed(rooms: Seq<Rect>, candidate: Rect) -> bool {
    exists|k: int| 0 <= k < rooms.len() && candidate.overlaps(#[trigger] rooms[k])
}

/// The number of rows for `room_count` rooms: the integer square root, zero
/// when `room_count <= 0`. It is at most 46340, the square root of `i32::MAX`.
fn row_count(room_count: i32) -> (r: i32)
    ensures
        is_row_count(room_count as int, r as int),
        0 <= r <= 46340,
{
    if room_count <= 0 {
        return 0;
    }
    let n: i64 = room_count as i64;
    let mut r: i64 = 0;
    let mut next_square: i64 = 1;
    while next_square <= n
        invariant
            0 < n <= i32::MAX,
            0 <= r <= 46340,
            r * r <= n,
            next_square == (r + 1) * (r + 1),
        decreases n - r,
    {
        proof {
            let s = r + 1;
            assert(s <= 46340) by (nonlinear_arith)
                requires
                    s * s <= n,
                    n <= i32::MAX,
                    0 <= s,
            ;
            assert(s <= s * s) by (nonlinear_arith)
                requires
                    1 <= s,
            ;
            assert((s + 1) * (s + 1) == s * s + 2 * s + 1) by (nonlinear_arith);
        }
        r = r + 1;
        next_square = next_square + 2 * r + 1;
    }
    r as i32
}

/// Whether the floor region of `room` lies inside the grid.
fn fits_in_grid(room: &Rect) -> (r: bool)
    ensures
        r == room_fits(*room),
{
    room.x1 < room.x2 && room.y1 < room.y2 && -1 <= room.x1 && room.x2 < MAP_WIDTH && -1 <= room.y1
        && room.y2 < MAP_HEIGHT
}

/// Whether `candidate` overlaps any room of `rooms`.
fn overlaps_any(candidate: &Rect, rooms: &Vec<Rect>) -> (r: bool)
    ensures
        r == exists|k: int| 0 <= k < rooms@.len() && candidate.overlaps(#[trigger] rooms@[k]),
{
    let mut found = false;
    let mut k: usize = 0;
    while k < rooms.len()
        invariant
            k <= rooms@.len(),
            found == exists|m: int| 0 <= m < k && candidate.overlaps(#[trigger] rooms@[m]),
        decreases rooms@.len() - k,
    {
        if candidate.intersect(&rooms[k]) {
            found = true;
        }
        k = k + 1;
    }
    found
}

/// Cell `i` is on the L-shaped corridor between the centres of `from` and `to`:
/// along the row of `from` then down the column of `to` when
/// `horizontal_first`, else down the column of `from` then along the row of `to`.
pub open spec fn on_corridor(from: Rect, to: Rect, horizontal_first: bool, i: int) -> bool {
    if horizontal_first {
        on_horizontal(from.center_x(), to.center_x(), from.center_y(), i) || on_vertical(
            from.center_y(),
            to.center_y(),
            to.center_x(),
            i,
        )
    } else {
        on_vertical(from.center_y(), to.center_y(), from.center_x(), i) || on_horizontal(
            from.center_x(),
            to.center_x(),
            to.center_y(),
            i,
        )
    }
}

/// The centre of a room that fits the grid is a cell of the grid.
proof fn lemma_center_in_grid(room: Rect)
    requires
        room_fits(room),
    ensures
        in_grid(room.center_x(), room.center_y()),
{
}

/// Carves the L-shaped corridor between the centres of `from` and `to`.
fn join_rooms(map: &mut [TileType], from: &Rect, to: &Rect, horizontal_first: bool)
    requires
        old(map)@.len() == MAP_SIZE,
        room_fits(*from),
        room_fits(*to),
    ensures
        carved_exactly(old(map)@, final(map)@, |i: int| on_corridor(*from, *to, horizontal_first, i)),
{
    proof {
        lemma_center_in_grid(*from);
        lemma_center_in_grid(*to);
    }
    let (from_x, from_y) = from.center();
    let (to_x, to_y) = to.center();
    if horizontal_first {
        apply_horizontal_tunnel(map, from_x, to_x, from_y);
        apply_vertical_tunnel(map, from_y, to_y, to_x);
    } else {
        apply_vertical_tunnel(map, from_y, to_y, from_x);
        apply_horizontal_tunnel(map, from_x, to_x, to_y);
    }
}

/// The rectangle stays within twenty tiles of the grid.
spec fn near_grid(room: Rect) -> bool {
    room.wf() && -20 <= room.x1 && room.x2 <= 100 && -20 <= room.y1 && room.y2 <= 100
}

/// The cell on the vertical corridor that joins row opening `k` to the one
/// before it: from the centre row of the earlier to the centre row of the
/// later, down the later one's centre column.
pub open spec fn on_row_link(rooms: Seq<Rect>, starts: Seq<int>, k: int, i: int) -> bool {
    on_vertical(rooms[starts[k - 1]].center_y(), rooms[starts[k]].center_y(), rooms[starts[k]].center_x(), i)
}

/// Cell `i` is carved by the layout: it lies in a room, on the L-shaped
/// corridor (of order `orders[j]`) that joins room `j` to room `j - 1` for a
/// room that does not open a row, or on the vertical corridor that joins a row
/// opening to the previous one.
pub open spec fn on_layout(rooms: Seq<Rect>, starts: Seq<int>, orders: Seq<bool>, i: int) -> bool {
    ||| exists|k: int| 0 <= k < rooms.len() && #[trigger] in_room(rooms[k], i)
    ||| exists|j: int|
        1 <= j < rooms.len() && !starts.contains(j) && #[trigger] on_corridor(rooms[j - 1], rooms[j], orders[j], i)
    ||| exists|k: int| 1 <= k < starts.len() && #[trigger] on_row_link(rooms, starts, k, i)
}

/// The rooms at the indices `starts` open the rows, in order, the first at
/// index 0. Every other room overlaps no room placed before it.
pub open spec fn in_rows(rooms: Seq<Rect>, starts: Seq<int>) -> bool {
    &&& forall|k: int| 0 <= k < starts.len() ==> 0 <= #[trigger] starts[k] < rooms.len()
    &&& starts.len() > 0 ==> starts[0] == 0
    &&& forall|j: int| 0 <= j < rooms.len() && !starts.contains(j) ==> #[trigger] clear_of_earlier(rooms, j) && 1 <= j
}

/// A cell of `map` is floor exactly when the layout carves it.
pub open spec fn floors_exactly(rooms: Seq<Rect>, starts: Seq<int>, orders: Seq<bool>, map: Seq<TileType>) -> bool {
    &&& map.len() == MAP_SIZE
    &&& forall|i: int| 0 <= i < MAP_SIZE ==> (#[trigger] map[i] == TileType::Floor <==> on_layout(rooms, starts, orders, i))
}

/// The rooms are laid out in rows opened at `starts`, joined by corridors of
/// the orders `orders`, and nothing else of `map` is floor.
pub open spec fn row_layout(rooms: Seq<Rect>, map: Seq<TileType>, starts: Seq<int>, orders: Seq<bool>) -> bool {
    &&& orders.len() == rooms.len()
    &&& in_rows(rooms, starts)
    &&& floors_exactly(rooms, starts, orders, map)
}

/// The rooms are laid out in exactly `rows` rows, as `row_layout` describes.
pub open spec fn laid_out_in_rows(rooms: Seq<Rect>, map: Seq<TileType>, rows: int) -> bool {
    exists|starts: Seq<int>, orders: Seq<bool>| starts.len() == rows && #[trigger] row_layout(rooms, map, starts, orders)
}

/// What a finished clustered-rooms layout for `room_count` satisfies.
pub open spec fn clustered_layout(room_count: int, rooms: Seq<Rect>, map: Seq<TileType>) -> bool {
    &&& map.len() == MAP_SIZE
    &&& rooms_placed(rooms)
    &&& first_room_anchored(rooms)
    &&& rooms.len() <= if room_count > 0 {
        room_count
    } else {
        0
    }
    &&& forall|rows: int|
        #[trigger] is_row_count(room_count, rows) ==> {
            &&& rows <= rooms.len() <= rows * (rows + 1)
            &&& laid_out_in_rows(rooms, map, rows)
        }
    &&& room_count <= 0 ==> all_walls(map)
}

/// Appending a room keeps the earlier rooms clear of the ones before them.
proof fn lemma_push_keeps_clear(rooms: Seq<Rect>, room: Rect, j: int)
    requires
        0 <= j < rooms.len(),
        clear_of_earlier(rooms, j),
    ensures
        clear_of_earlier(rooms.push(room), j),
{
    assert forall|i: int| 0 <= i < j implies !(#[trigger] rooms.push(room)[i]).overlaps(rooms.push(room)[j]) by {
        assert(rooms.push(room)[i] == rooms[i]);
    }
}

/// What appending a row opening does to the carved cells.
proof fn lemma_layout_push_row(rooms: Seq<Rect>, starts: Seq<int>, orders: Seq<bool>, room: Rect, i: int)
    requires
        in_rows(rooms, starts),
        orders.len() == rooms.len(),
    ensures
        on_layout(rooms.push(room), starts.push(rooms.len() as int), orders.push(false), i) <==> (on_layout(
            rooms,
            starts,
            orders,
            i,
        ) || in_room(room, i) || (starts.len() > 0 && on_vertical(
            rooms[starts[starts.len() - 1]].center_y(),
            room.center_y(),
            room.center_x(),
            i,
        ))),
{
    let n = rooms.len() as int;
    let all = rooms.push(room);
    let st = starts.push(n);
    let ord = orders.push(false);
    assert(st[starts.len() as int] == n);
    assert(all[n] == room);
    if on_layout(all, st, ord, i) {
        if exists|k: int| 0 <= k < all.len() && #[trigger] in_room(all[k], i) {
            let k = choose|k: int| 0 <= k < all.len() && #[trigger] in_room(all[k], i);
            if k < n {
                assert(all[k] == rooms[k]);
                assert(in_room(rooms[k], i));
            }
        } else if exists|j: int|
            1 <= j < all.len() && !st.contains(j) && #[trigger] on_corridor(all[j - 1], all[j], ord[j], i) {
            let j = choose|j: int|
                1 <= j < all.len() && !st.contains(j) && #[trigger] on_corridor(all[j - 1], all[j], ord[j], i);
            assert(st.contains(n));
            assert(j < n);
            if starts.contains(j) {
                let idx = choose|idx: int| 0 <= idx < starts.len() && starts[idx] == j;
                assert(st[idx] == j);
            }
            assert(all[j - 1] == rooms[j - 1] && all[j] == rooms[j] && ord[j] == orders[j]);
            assert(on_corridor(rooms[j - 1], rooms[j], orders[j], i));
        } else {
            let k = choose|k: int| 1 <= k < st.len() && #[trigger] on_row_link(all, st, k, i);
            assert(st[k - 1] == starts[k - 1]);
            assert(all[st[k - 1]] == rooms[starts[k - 1]]);
            if k < starts.len() {
                assert(st[k] == starts[k]);
                assert(all[st[k]] == rooms[starts[k]]);
                assert(on_row_link(rooms, starts, k, i));
            }
        }
    }
    if on_layout(rooms, starts, orders, i) {
        if exists|k: int| 0 <= k < rooms.len() && #[trigger] in_room(rooms[k], i) {
            let k = choose|k: int| 0 <= k < rooms.len() && #[trigger] in_room(rooms[k], i);
            assert(all[k] == rooms[k]);
            assert(in_room(all[k], i));
        } else if exists|j: int|
            1 <= j < rooms.len() && !starts.contains(j) && #[trigger] on_corridor(rooms[j - 1], rooms[j], orders[j], i) {
            let j = choose|j: int|
                1 <= j < rooms.len() && !starts.contains(j) && #[trigger] on_corridor(rooms[j - 1], rooms[j], orders[j], i);
            if st.contains(j) {
                let idx = choose|idx: int| 0 <= idx < st.len() && st[idx] == j;
                if idx < starts.len() {
                    assert(starts[idx] == j);
                }
            }
            assert(all[j - 1] == rooms[j - 1] && all[j] == rooms[j] && ord[j] == orders[j]);
            assert(on_corridor(all[j - 1], all[j], ord[j], i));
        } else {
            let k = choose|k: int| 1 <= k < starts.len() && #[trigger] on_row_link(rooms, starts, k, i);
            assert(st[k - 1] == starts[k - 1] && st[k] == starts[k]);
            assert(all[st[k - 1]] == rooms[starts[k - 1]] && all[st[k]] == rooms[starts[k]]);
            assert(on_row_link(all, st, k, i));
        }
    }
    if in_room(room, i) {
        assert(in_room(all[n], i));
    }
    if starts.len() > 0 && on_vertical(rooms[starts[starts.len() - 1]].center_y(), room.center_y(), room.center_x(), i) {
        let k = starts.len() as int;
        assert(st[k - 1] == starts[k - 1]);
        assert(all[st[k - 1]] == rooms[starts[k - 1]]);
        assert(on_row_link(all, st, k, i));
    }
}

/// What appending a room that continues a row does to the carved cells.
proof fn lemma_layout_push_column(
    rooms: Seq<Rect>,
    starts: Seq<int>,
    orders: Seq<bool>,
    room: Rect,
    horizontal_first: bool,
    i: int,
)
    requires
        in_rows(rooms, starts),
        orders.len() == rooms.len(),
        rooms.len() > 0,
    ensures
        on_layout(rooms.push(room), starts, orders.push(horizontal_first), i) <==> (on_layout(
            rooms,
            starts,
            orders,
            i,
        ) || in_room(room, i) || on_corridor(rooms[rooms.len() - 1], room, horizontal_first, i)),
{
    let n = rooms.len() as int;
    let all = rooms.push(room);
    let ord = orders.push(horizontal_first);
    assert(all[n] == room && ord[n] == horizontal_first && all[n - 1] == rooms[n - 1]);
    if starts.contains(n) {
        let idx = choose|idx: int| 0 <= idx < starts.len() && starts[idx] == n;
    }
    if on_layout(all, starts, ord, i) {
        if exists|k: int| 0 <= k < all.len() && #[trigger] in_room(all[k], i) {
            let k = choose|k: int| 0 <= k < all.len() && #[trigger] in_room(all[k], i);
            if k < n {
                assert(all[k] == rooms[k]);
                assert(in_room(rooms[k], i));
            }
        } else if exists|j: int|
            1 <= j < all.len() && !starts.contains(j) && #[trigger] on_corridor(all[j - 1], all[j], ord[j], i) {
            let j = choose|j: int|
                1 <= j < all.len() && !starts.contains(j) && #[trigger] on_corridor(all[j - 1], all[j], ord[j], i);
            if j < n {
                assert(all[j - 1] == rooms[j - 1] && all[j] == rooms[j] && ord[j] == orders[j]);
                assert(on_corridor(rooms[j - 1], rooms[j], orders[j], i));
            }
        } else {
            let k = choose|k: int| 1 <= k < starts.len() && #[trigger] on_row_link(all, starts, k, i);
            assert(all[starts[k - 1]] == rooms[starts[k - 1]] && all[starts[k]] == rooms[starts[k]]);
            assert(on_row_link(rooms, starts, k, i));
        }
    }
    if on_layout(rooms, starts, orders, i) {
        if exists|k: int| 0 <= k < rooms.len() && #[trigger] in_room(rooms[k], i) {
            let k = choose|k: int| 0 <= k < rooms.len() && #[trigger] in_room(rooms[k], i);
            assert(all[k] == rooms[k]);
            assert(in_room(all[k], i));
        } else if exists|j: int|
            1 <= j < rooms.len() && !starts.contains(j) && #[trigger] on_corridor(rooms[j - 1], rooms[j], orders[j], i) {
            let j = choose|j: int|
                1 <= j < rooms.len() && !starts.contains(j) && #[trigger] on_corridor(rooms[j - 1], rooms[j], orders[j], i);
            assert(all[j - 1] == rooms[j - 1] && all[j] == rooms[j] && ord[j] == orders[j]);
            assert(on_corridor(all[j - 1], all[j], ord[j], i));
        } else {
            let k = choose|k: int| 1 <= k < starts.len() && #[trigger] on_row_link(rooms, starts, k, i);
            assert(all[starts[k - 1]] == rooms[starts[k - 1]] && all[starts[k]] == rooms[starts[k]]);
            assert(on_row_link(all, starts, k, i));
        }
    }
    if in_room(room, i) {
        assert(in_room(all[n], i));
    }
    if on_corridor(rooms[n - 1], room, horizontal_first, i) {
        assert(on_corridor(all[n - 1], all[n], ord[n], i));
    }
}

/// Appending a row opening keeps the row structure.
proof fn lemma_rows_push_row(rooms: Seq<Rect>, starts: Seq<int>, room: Rect)
    requires
        in_rows(rooms, starts),
        starts.len() == 0 ==> rooms.len() == 0,
    ensures
        in_rows(rooms.push(room), starts.push(rooms.len() as int)),
{
    let all = rooms.push(room);
    let n = rooms.len() as int;
    let st = starts.push(n);
    assert(st[starts.len() as int] == n);
    assert forall|j: int| 0 <= j < all.len() && !st.contains(j) implies #[trigger] clear_of_earlier(all, j) && 1 <= j by {
        if starts.contains(j) {
            let idx = choose|idx: int| 0 <= idx < starts.len() && starts[idx] == j;
            assert(st[idx] == j);
        }
        if j < n {
            assert(clear_of_earlier(rooms, j));
            lemma_push_keeps_clear(rooms, room, j);
        }
    }
    assert forall|k: int| 0 <= k < st.len() implies 0 <= #[trigger] st[k] < all.len() by {
        if k < starts.len() {
            assert(st[k] == starts[k]);
        }
    }
    if starts.len() > 0 {
        assert(st[0] == starts[0]);
    }
}

/// Appending a room that overlaps no earlier room keeps the row structure.
proof fn lemma_rows_push_column(rooms: Seq<Rect>, starts: Seq<int>, room: Rect)
    requires
        in_rows(rooms, starts),
        rooms.len() > 0,
        !overlaps_placed(rooms, room),
    ensures
        in_rows(rooms.push(room), starts),
{
    let all = rooms.push(room);
    let n = rooms.len() as int;
    assert forall|j: int| 0 <= j < all.len() && !starts.contains(j) implies #[trigger] clear_of_earlier(all, j) && 1 <= j by {
        if j < n {
            assert(clear_of_earlier(rooms, j));
            lemma_push_keeps_clear(rooms, room, j);
        } else {
            assert forall|i: int| 0 <= i < j implies !(#[trigger] all[i]).overlaps(all[j]) by {
                assert(all[i] == rooms[i]);
                assert(!room.overlaps(rooms[i]));
            }
        }
    }
}

/// Opens a new row with the room `w` by `h` whose origin is one tile below the
/// position `(x, y)` found beside the previous row's opening `base`. If that
/// room fits the grid, the vertical corridor from `base`'s centre row to the
/// room's centre row, down the room's centre column, is carved, then the room;
/// the room is appended and returned. Otherwise nothing changes and the run
/// stops with `OutOfGrid`.
pub fn open_row(
    rooms: &mut Vec<Rect>,
    map: &mut Vec<TileType>,
    base: Rect,
    x: i32,
    y: i32,
    w: i32,
    h: i32,
) -> (r: Result<Rect, MapError>)
    requires
        old(map)@.len() == MAP_SIZE,
        room_fits(base),
        w > 0,
        h > 0,
        x + w <= i32::MAX,
        y + 1 + h <= i32::MAX,
    ensures
        room_fits(row_opening(x, y, w, h)) ==> {
            &&& r == Ok::<Rect, MapError>(row_opening(x, y, w, h))
            &&& final(rooms)@ == old(rooms)@.push(row_opening(x, y, w, h))
            &&& carved_exactly(
                old(map)@,
                final(map)@,
                |i: int|
                    on_vertical(
                        base.center_y(),
                        row_opening(x, y, w, h).center_y(),
                        row_opening(x, y, w, h).center_x(),
                        i,
                    ) || in_room(row_opening(x, y, w, h), i),
            )
        },
        !room_fits(row_opening(x, y, w, h)) ==> {
            &&& r == Err::<Rect, MapError>(MapError::OutOfGrid)
            &&& final(rooms)@ == old(rooms)@
            &&& final(map)@ == old(map)@
        },
{
    let room = Rect::new(x, y + 1, w, h);
    if !fits_in_grid(&room) {
        return Err(MapError::OutOfGrid);
    }
    proof {
        lemma_center_in_grid(base);
        lemma_center_in_grid(room);
    }
    let ghost before = map@;
    apply_vertical_tunnel(map.as_mut_slice(), base.center().1, room.center().1, room.center().0);
    let ghost middle = map@;
    apply_room_to_map(&room, map.as_mut_slice());
    proof {
        assert forall|i: int| 0 <= i < map@.len() implies #[trigger] map@[i] == if on_vertical(
            base.center_y(),
            room.center_y(),
            room.center_x(),
            i,
        ) || in_room(room, i) {
            TileType::Floor
        } else {
            before[i]
        } by {
            assert(middle[i] == if on_vertical(base.center_y(), room.center_y(), room.center_x(), i) {
                TileType::Floor
            } else {
                before[i]
            });
        }
    }
    rooms.push(room);
    Ok(room)
}

/// Tries the room `w` by `h` at `(x, y)` to continue the current row. If it
/// overlaps a room already placed it is dropped and nothing changes. Otherwise,
/// if it fits the grid, it is carved, joined to the last placed room by the
/// L-shaped corridor of the given order, and appended; if it does not fit, the
/// run stops with `OutOfGrid`. Unless the run stops, the candidate is returned,
/// kept or not: the next attempt is placed beside it.
pub fn try_column_room(
    rooms: &mut Vec<Rect>,
    map: &mut Vec<TileType>,
    x: i32,
    y: i32,
    w: i32,
    h: i32,
    horizontal_first: bool,
) -> (r: Result<Rect, MapError>)
    requires
        old(map)@.len() == MAP_SIZE,
        old(rooms)@.len() > 0,
        room_fits(old(rooms)@[old(rooms)@.len() - 1]),
        w > 0,
        h > 0,
        x + w <= i32::MAX,
        y + h <= i32::MAX,
    ensures
        overlaps_placed(old(rooms)@, rect_at(x, y, w, h)) ==> {
            &&& r == Ok::<Rect, MapError>(rect_at(x, y, w, h))
            &&& final(rooms)@ == old(rooms)@
            &&& final(map)@ == old(map)@
        },
        !overlaps_placed(old(rooms)@, rect_at(x, y, w, h)) && room_fits(rect_at(x, y, w, h)) ==> {
            &&& r == Ok::<Rect, MapError>(rect_at(x, y, w, h))
            &&& final(rooms)@ == old(rooms)@.push(rect_at(x, y, w, h))
            &&& carved_exactly(
                old(map)@,
                final(map)@,
                |i: int|
                    in_room(rect_at(x, y, w, h), i) || on_corridor(
                        old(rooms)@[old(rooms)@.len() - 1],
                        rect_at(x, y, w, h),
                        horizontal_first,
                        i,
                    ),
            )
        },
        !overlaps_placed(old(rooms)@, rect_at(x, y, w, h)) && !room_fits(rect_at(x, y, w, h)) ==> {
            &&& r == Err::<Rect, MapError>(MapError::OutOfGrid)
            &&& final(rooms)@ == old(rooms)@
            &&& final(map)@ == old(map)@
        },
{
    let room = Rect::new(x, y, w, h);
    if overlaps_any(&room, rooms) {
        return Ok(room);
    }
    if !fits_in_grid(&room) {
        return Err(MapError::OutOfGrid);
    }
    let ghost before = map@;
    apply_room_to_map(&room, map.as_mut_slice());
    let ghost middle = map@;
    let prev = rooms[rooms.len() - 1];
    join_rooms(map.as_mut_slice(), &prev, &room, horizontal_first);
    proof {
        assert forall|i: int| 0 <= i < map@.len() implies #[trigger] map@[i] == if in_room(room, i)
            || on_corridor(prev, room, horizontal_first, i) {
            TileType::Floor
        } else {
            before[i]
        } by {
            assert(middle[i] == if in_room(room, i) {
                TileType::Floor
            } else {
                before[i]
            });
        }
    }
    rooms.push(room);
    Ok(room)
}

/// Ends a run: the layout is returned unless more rooms were placed than
/// `room_count` asks for (a negative `room_count` sets no bound), in which
/// case the run fails with `TooManyRooms`.
pub fn finish_layout(rooms: Vec<Rect>, map: Vec<TileType>, room_count: i32) -> (r: Result<
    (Vec<Rect>, Vec<TileType>),
    MapError,
>)
    ensures
        room_count < 0 || rooms@.len() <= room_count ==> (r matches Ok((rs, m)) && rs@ == rooms@ && m@
            == map@),
        !(room_count < 0 || rooms@.len() <= room_count) ==> r matches Err(MapError::TooManyRooms),
{
    if room_count < 0 || rooms.len() <= room_count as usize {
        Ok((rooms, map))
    } else {
        Err(MapError::TooManyRooms)
    }
}

/// Generates a clustered-rooms layout, drawing from a fresh random source.
/// `_dir` is accepted for compatibility and not used.
pub fn new_map_clustered_rooms(_dir: i32, room_count: i32) -> (r: Result<
    (Vec<Rect>, Vec<TileType>),
    MapError,
>)
    ensures
        room_count <= 0 ==> r is Ok,
        room_count == 1 ==> r matches Err(MapError::TooManyRooms),
        2 <= room_count <= 3 ==> (r matches Ok((rooms, _)) && rooms@.len() == 2),
        6 <= room_count <= 8 ==> r is Ok,
        r matches Ok((rooms, map)) ==> clustered_layout(room_count as int, rooms@, map@),
{
    let mut rng = fresh_rng();
    new_map_clustered_rooms_with(&mut rng, room_count)
}

/// Generates a clustered-rooms layout drawing from `rng`. There are as many
/// rows as the integer square root of `room_count`. Each row is opened by a
/// room below the previous row's opening (`open_row`), then makes as many
/// attempts to continue to the right (`try_column_room`), each placed beside
/// the previous attempt; the run ends with `finish_layout`.
pub fn new_map_clustered_rooms_with(rng: &mut RandomNumberGenerator, room_count: i32) -> (r: Result<
    (Vec<Rect>, Vec<TileType>),
    MapError,
>)
    ensures
        room_count <= 0 ==> r is Ok,
        room_count == 1 ==> r matches Err(MapError::TooManyRooms),
        2 <= room_count <= 3 ==> (r matches Ok((rooms, _)) && rooms@.len() == 2),
        6 <= room_count <= 8 ==> r is Ok,
        r matches Ok((rooms, map)) ==> clustered_layout(room_count as int, rooms@, map@),
{
    let mut map = filled_map(TileType::Wall);
    let mut rooms: Vec<Rect> = Vec::new();
    let rows = row_count(room_count);
    proof {
        if 1 <= room_count <= 8 {
            assert(1 <= rows <= 2) by (nonlinear_arith)
                requires
                    0 <= rows,
                    rows * rows <= room_count,
                    room_count < (rows + 1) * (rows + 1),
                    1 <= room_count <= 8,
            ;
            if rows == 1 {
                assert((rows + 1) * (rows + 1) == 4) by (nonlinear_arith)
                    requires
                        rows == 1,
                ;
            } else {
                assert(rows * rows == 4) by (nonlinear_arith)
                    requires
                        rows == 2,
                ;
            }
        }
    }
    let mut base_room = Rect { x1: 0, x2: 1, y1: 0, y2: 1 };
    let ghost mut starts: Seq<int> = Seq::empty();
    let ghost mut orders: Seq<bool> = Seq::empty();
    let mut row: i32 = 0;
    while row < rows
        invariant
            is_row_count(room_count as int, rows as int),
            0 <= row <= rows <= 46340,
            map@.len() == MAP_SIZE,
            rooms_placed(rooms@),
            first_room_anchored(rooms@),
            row <= rooms@.len() <= row * (rows + 1),
            row == 0 <==> rooms@.len() == 0,
            row > 0 ==> base_room == rooms@[starts[row - 1]],
            rows == 0 ==> all_walls(map@),
            starts.len() == row,
            row_layout(rooms@, map@, starts, orders),
            1 <= room_count <= 3 ==> rows == 1,
            4 <= room_count <= 8 ==> rows == 2,
            rows == 1 && row == 1 ==> rooms@.len() == 2,
        decreases rows - row,
    {
        let w = draw_range(rng, MIN_SIZE, MAX_SIZE);
        let h = draw_range(rng, MIN_SIZE, MAX_SIZE);
        let ghost old_rooms = rooms@;
        let ghost before = map@;
        if rooms.len() == 0 {
            base_room = Rect::new(10 - w / 2, 5, w, h);
            rooms.push(base_room);
            apply_room_to_map(&base_room, map.as_mut_slice());
        } else {
            let (x, y) = side_switcher(rng, 2, base_room);
            match open_row(&mut rooms, &mut map, base_room, x, y, w, h) {
                Ok(room) => {
                    base_room = room;
                },
                Err(e) => {
                    return Err(e);
                },
            }
        }
        proof {
            assert(rooms@ == old_rooms.push(base_room));
            lemma_rows_push_row(old_rooms, starts, base_room);
            assert forall|i: int| 0 <= i < MAP_SIZE implies (#[trigger] map@[i] == TileType::Floor
                <==> on_layout(rooms@, starts.push(old_rooms.len() as int), orders.push(false), i)) by {
                lemma_layout_push_row(old_rooms, starts, orders, base_room, i);
            }
            assert forall|k: int| 0 <= k < rooms@.len() implies room_fits(#[trigger] rooms@[k])
                && room_size_ok(rooms@[k]) by {
                if k < old_rooms.len() {
                    assert(rooms@[k] == old_rooms[k]);
                }
            }
            starts = starts.push(old_rooms.len() as int);
            orders = orders.push(false);
            assert(starts[row as int] == old_rooms.len());
        }
        let mut border_room = base_room;
        let mut col: i32 = 0;
        while col < rows
            invariant
                is_row_count(room_count as int, rows as int),
                0 <= row < rows <= 46340,
                0 <= col <= rows,
                map@.len() == MAP_SIZE,
                rooms_placed(rooms@),
                first_room_anchored(rooms@),
                row + 1 <= rooms@.len() <= row * (rows + 1) + 1 + col,
                room_fits(base_room),
                base_room == rooms@[starts[row as int]],
                near_grid(border_room),
                starts.len() == row + 1,
                row_layout(rooms@, map@, starts, orders),
                1 <= room_count <= 3 ==> rows == 1,
                4 <= room_count <= 8 ==> rows == 2,
                rows == 1 ==> rooms@.len() == 1 + col && rooms@[0] == base_room && (col == 0
                    ==> border_room == base_room),
                rows == 2 ==> -1 <= border_room.x1 && border_room.x2 <= 19 + 10 * col && 5 - 3 * col
                    <= border_room.y1 <= 17 + 3 * col,
            decreases rows - col,
        {
            let (x, y) = side_switcher(rng, 3, border_room);
            let w = draw_range(rng, MIN_SIZE, MAX_SIZE);
            let h = draw_range(rng, MIN_SIZE, MAX_SIZE);
            let horizontal_first = draw_range(rng, 0, 2) == 1;
            let ghost old_rooms = rooms@;
            let ghost before = map@;
            let candidate = match try_column_room(&mut rooms, &mut map, x, y, w, h, horizontal_first) {
                Ok(c) => c,
                Err(e) => {
                    return Err(e);
                },
            };
            proof {
                if rooms@.len() > old_rooms.len() {
                    lemma_rows_push_column(old_rooms, starts, candidate);
                    assert forall|i: int| 0 <= i < MAP_SIZE implies (#[trigger] map@[i] == TileType::Floor
                        <==> on_layout(rooms@, starts, orders.push(horizontal_first), i)) by {
                        lemma_layout_push_column(old_rooms, starts, orders, candidate, horizontal_first, i);
                    }
                    assert forall|k: int| 0 <= k < rooms@.len() implies room_fits(#[trigger] rooms@[k])
                        && room_size_ok(rooms@[k]) by {
                        if k < old_rooms.len() {
                            assert(rooms@[k] == old_rooms[k]);
                        }
                    }
                    assert(rooms@[starts[row as int]] == old_rooms[starts[row as int]]);
                    assert(rooms@[0] == old_rooms[0]);
                    orders = orders.push(horizontal_first);
                } else {
                    let k = choose|k: int| 0 <= k < rooms@.len() && candidate.overlaps(#[trigger] rooms@[k]);
                    assert(room_fits(rooms@[k]));
                }
            }
            border_room = candidate;
            col = col + 1;
        }
        proof {
            assert((row + 1) * (rows + 1) == row * (rows + 1) + rows + 1) by (nonlinear_arith);
        }
        row = row + 1;
    }
    proof {
        if rows == 2 {
            assert(rows * (rows + 1) == 6) by (nonlinear_arith)
                requires
                    rows == 2,
            ;
        }
        assert(starts.len() == rows && row_layout(rooms@, map@, starts, orders));
        assert(laid_out_in_rows(rooms@, map@, rows as int));
        assert forall|rs: int| #[trigger] is_row_count(room_count as int, rs) implies rs == rows by {
            lemma_row_count_unique(room_count as int, rs, rows as int);
        }
    }
    finish_layout(rooms, map, room_count)
}

/// `max_rooms` rooms with sides in `[MIN_SIZE, MAX_SIZE)`, each placed at
/// random with its origin in `[0, width - MAX_SIZE - 1)` by
/// `[0, height - MAX_SIZE - 1)`, overlaps allowed.
pub fn generator_rooms_vector(rng: &mut RandomNumberGenerator, max_rooms: u32, width: i32, height: i32) -> (r: Vec<Rect>)
    requires
        width > MAX_SIZE + 1,
        height > MAX_SIZE + 1,
    ensures
        r@.len() == max_rooms,
        forall|k: int|
            0 <= k < r@.len() ==> room_size_ok(#[trigger] r@[k]) && 0 <= r@[k].x1 < width - MAX_SIZE - 1
                && 0 <= r@[k].y1 < height - MAX_SIZE - 1,
{
    let mut rect_list: Vec<Rect> = Vec::new();
    let mut n: u32 = 0;
    while n < max_rooms
        invariant
            n <= max_rooms,
            rect_list@.len() == n,
            width > MAX_SIZE + 1,
            height > MAX_SIZE + 1,
            forall|k: int|
                0 <= k < rect_list@.len() ==> room_size_ok(#[trigger] rect_list@[k]) && 0 <= rect_list@[k].x1
                    < width - MAX_SIZE - 1 && 0 <= rect_list@[k].y1 < height - MAX_SIZE - 1,
        decreases max_rooms - n,
    {
        let w = draw_range(rng, MIN_SIZE, MAX_SIZE);
        let h = draw_range(rng, MIN_SIZE, MAX_SIZE);
        let x = draw_range(rng, 0, width - MAX_SIZE - 1);
        let y = draw_range(rng, 0, height - MAX_SIZE - 1);
        rect_list.push(Rect::new(x, y, w, h));
        n = n + 1;
    }
    rect_list
}

/// The row count of a room count is unique.
proof fn lemma_row_count_unique(n: int, a: int, b: int)
    requires
        is_row_count(n, a),
        is_row_count(n, b),
    ensures
        a == b,
{
    if n > 0 && a != b {
        if a < b {
            assert((a + 1) * (a + 1) <= b * b) by (nonlinear_arith)
                requires
                    0 <= a < b,
            ;
        } else {
            assert((b + 1) * (b + 1) <= a * a) by (nonlinear_arith)
                requires
                    0 <= b < a,
            ;
        }
    }
}

} // verus!
