use rltk::RandomNumberGenerator;
use town_generator::{
    new_map_clustered_rooms, new_map_clustered_rooms_with, side_switcher, xy_idx, MapError, Rect,
    TileType,
};

fn integer_sqrt(n: i32) -> i32 {
    let mut r = 0;
    while (r + 1) * (r + 1) <= n {
        r += 1;
    }
    r
}

fn interior_is_floor(room: &Rect, map: &[TileType]) -> bool {
    (room.y1 + 1..=room.y2)
        .all(|y| (room.x1 + 1..=room.x2).all(|x| map[xy_idx(x, y)] == TileType::Floor))
}

#[test]
fn zero_rooms_gives_empty_list_and_all_walls() {
    let (rooms, map) = new_map_clustered_rooms(0, 0).unwrap();
    assert!(rooms.is_empty());
    assert_eq!(map.len(), 4000);
    assert!(map.iter().all(|t| *t == TileType::Wall));
}

#[test]
fn negative_room_count_gives_empty_layout() {
    let mut rng = RandomNumberGenerator::seeded(1);
    let (rooms, map) = new_map_clustered_rooms_with(&mut rng, -5).unwrap();
    assert!(rooms.is_empty());
    assert!(map.iter().all(|t| *t == TileType::Wall));
}

#[test]
fn one_room_asked_for_is_too_many() {
    for seed in 0..20u64 {
        let mut rng = RandomNumberGenerator::seeded(seed);
        assert_eq!(new_map_clustered_rooms_with(&mut rng, 1), Err(MapError::TooManyRooms));
    }
}

#[test]
fn one_row_gives_two_rooms() {
    for seed in 0..20u64 {
        for count in 2..=3 {
            let mut rng = RandomNumberGenerator::seeded(seed);
            let (rooms, map) = new_map_clustered_rooms_with(&mut rng, count).unwrap();
            assert_eq!(rooms.len(), 2);
            assert_eq!(rooms[0].y1, 5);
            assert!(!rooms[0].intersect(&rooms[1]));
            assert_eq!(rooms[1].x1, rooms[0].x2 + 1);
            assert!(rooms.iter().all(|r| interior_is_floor(r, &map)));
        }
    }
}

#[test]
fn room_count_bounds_the_rooms() {
    for seed in 0..40u64 {
        for count in 0..30 {
            let mut rng = RandomNumberGenerator::seeded(seed);
            if let Ok((rooms, map)) = new_map_clustered_rooms_with(&mut rng, count) {
                let rows = integer_sqrt(count) as usize;
                assert!(rooms.len() <= count as usize);
                assert!(rooms.len() <= rows * (rows + 1));
                assert_eq!(rooms.len() >= 1, rows >= 1);
                assert_eq!(map.len(), 4000);
            }
        }
    }
}

#[test]
fn layouts_keep_their_invariants() {
    let mut successes = 0;
    for seed in 0..200u64 {
        let mut rng = RandomNumberGenerator::seeded(seed);
        let count = 20;
        if let Ok((rooms, map)) = new_map_clustered_rooms_with(&mut rng, count) {
            successes += 1;
            let first = rooms[0];
            assert_eq!(first.y1, 5);
            assert_eq!(first.x1, 10 - (first.x2 - first.x1) / 2);
            for room in rooms.iter() {
                let w = room.x2 - room.x1;
                let h = room.y2 - room.y1;
                assert!((6..10).contains(&w) && (6..10).contains(&h));
                assert!(room.x1 >= -1 && room.x2 < 80 && room.y1 >= -1 && room.y2 < 50);
                assert!(interior_is_floor(room, &map));
            }
            // Only the rooms that open a row are placed without the overlap test.
            let overlapping = (1..rooms.len())
                .filter(|&j| (0..j).any(|i| rooms[i].intersect(&rooms[j])))
                .count();
            assert!(overlapping < integer_sqrt(count) as usize);
        }
    }
    assert!(successes > 0);
}

#[test]
fn below_and_right_placement_ranges() {
    let room = Rect::new(10, 5, 6, 6);
    let mut rng = RandomNumberGenerator::seeded(3);
    let mut below_xs = std::collections::HashSet::new();
    let mut right_ys = std::collections::HashSet::new();
    for _ in 0..500 {
        let (x, y) = side_switcher(&mut rng, 2, room);
        assert!((7..13).contains(&x));
        assert_eq!(y, 12);
        below_xs.insert(x);
        let (x, y) = side_switcher(&mut rng, 3, room);
        assert_eq!(x, 17);
        assert!((2..8).contains(&y));
        right_ys.insert(y);
    }
    assert_eq!(below_xs.len(), 6);
    assert_eq!(right_ys.len(), 6);
}

#[test]
fn up_and_left_placement_ranges() {
    let room = Rect::new(10, 5, 6, 6);
    let mut rng = RandomNumberGenerator::seeded(4);
    for _ in 0..500 {
        let (x, y) = side_switcher(&mut rng, 0, room);
        assert!((7..19).contains(&x));
        assert_eq!(y, 4);
        let (x, y) = side_switcher(&mut rng, 1, room);
        assert_eq!(x, 9);
        assert!((2..14).contains(&y));
    }
}

fn walls() -> Vec<TileType> {
    vec![TileType::Wall; 4000]
}

#[test]
fn six_to_eight_rooms_never_fail() {
    for seed in 0..200u64 {
        for count in 6..=8 {
            let mut rng = RandomNumberGenerator::seeded(seed);
            let (rooms, _) = new_map_clustered_rooms_with(&mut rng, count).unwrap();
            assert!(rooms.len() >= 2 && rooms.len() <= 6);
        }
    }
}

#[test]
fn open_row_carves_corridor_and_room() {
    let base = Rect::new(6, 5, 8, 6);
    let mut rooms = vec![base];
    let mut map = walls();
    town_generator::apply_room_to_map(&base, &mut map);
    let before = map.clone();
    let room = town_generator::open_row(&mut rooms, &mut map, base, 7, 11, 6, 7).unwrap();
    assert_eq!(room, Rect::new(7, 12, 6, 7));
    assert_eq!(rooms, vec![base, room]);
    // Corridor down column 10 from row 8 to row 15, then the room 8..=13 by 13..=19.
    for idx in 0..4000usize {
        let (x, y) = town_generator::idx_to_xy(idx);
        let corridor = x == 10 && (8..=15).contains(&y);
        let inside = (8..=13).contains(&x) && (13..=19).contains(&y);
        let expected = if corridor || inside { TileType::Floor } else { before[idx] };
        assert_eq!(map[idx], expected, "cell {:?}", (x, y));
    }
}

#[test]
fn open_row_outside_grid_changes_nothing() {
    let base = Rect::new(6, 35, 8, 6);
    let mut rooms = vec![base];
    let mut map = walls();
    let r = town_generator::open_row(&mut rooms, &mut map, base, 7, 41, 6, 9);
    assert_eq!(r, Err(MapError::OutOfGrid));
    assert_eq!(rooms, vec![base]);
    assert_eq!(map, walls());
}

#[test]
fn column_room_overlapping_is_dropped() {
    let base = Rect::new(6, 5, 8, 6);
    let mut rooms = vec![base];
    let mut map = walls();
    let r = town_generator::try_column_room(&mut rooms, &mut map, 14, 3, 6, 6, true);
    assert_eq!(r, Ok(Rect::new(14, 3, 6, 6)));
    assert_eq!(rooms, vec![base]);
    assert_eq!(map, walls());
}

#[test]
fn column_room_kept_and_joined() {
    let base = Rect::new(6, 5, 8, 6);
    let mut rooms = vec![base];
    let mut map = walls();
    let r = town_generator::try_column_room(&mut rooms, &mut map, 15, 7, 6, 6, true);
    let room = Rect::new(15, 7, 6, 6);
    assert_eq!(r, Ok(room));
    assert_eq!(rooms, vec![base, room]);
    // Centres (10, 8) and (18, 10): along row 8 to x 18, then down column 18.
    for idx in 0..4000usize {
        let (x, y) = town_generator::idx_to_xy(idx);
        let inside = (16..=21).contains(&x) && (8..=13).contains(&y);
        let corridor = (y == 8 && (10..=18).contains(&x)) || (x == 18 && (8..=10).contains(&y));
        let expected = if inside || corridor { TileType::Floor } else { TileType::Wall };
        assert_eq!(map[idx], expected, "cell {:?}", (x, y));
    }
}

#[test]
fn column_room_vertical_first() {
    let base = Rect::new(6, 5, 8, 6);
    let mut rooms = vec![base];
    let mut map = walls();
    town_generator::try_column_room(&mut rooms, &mut map, 15, 7, 6, 6, false).unwrap();
    // Down column 10 from row 8 to row 10, then along row 10 to x 18.
    assert_eq!(map[xy_idx(10, 10)], TileType::Floor);
    assert_eq!(map[xy_idx(14, 10)], TileType::Floor);
    assert_eq!(map[xy_idx(14, 8)], TileType::Wall);
}

#[test]
fn column_room_outside_grid_stops_the_run() {
    let base = Rect::new(66, 5, 8, 6);
    let mut rooms = vec![base];
    let mut map = walls();
    let r = town_generator::try_column_room(&mut rooms, &mut map, 75, 7, 6, 6, true);
    assert_eq!(r, Err(MapError::OutOfGrid));
    assert_eq!(rooms, vec![base]);
    assert_eq!(map, walls());
}

#[test]
fn finish_layout_bounds_room_count() {
    let rooms = vec![Rect::new(0, 0, 6, 6), Rect::new(10, 0, 6, 6)];
    assert_eq!(
        town_generator::finish_layout(rooms.clone(), walls(), 1),
        Err(MapError::TooManyRooms)
    );
    assert_eq!(
        town_generator::finish_layout(rooms.clone(), walls(), 2),
        Ok((rooms.clone(), walls()))
    );
    assert_eq!(
        town_generator::finish_layout(rooms.clone(), walls(), -1),
        Ok((rooms, walls()))
    );
}

#[test]
fn scattered_rooms_stay_in_their_ranges() {
    let mut rng = RandomNumberGenerator::seeded(9);
    let rooms = town_generator::generator_rooms_vector(&mut rng, 300, 80, 50);
    assert_eq!(rooms.len(), 300);
    for r in rooms.iter() {
        assert!((0..69).contains(&r.x1) && (0..39).contains(&r.y1));
        assert!((6..10).contains(&(r.x2 - r.x1)) && (6..10).contains(&(r.y2 - r.y1)));
    }
    assert!(rooms.iter().any(|r| r.x1 > 30));
    assert!(town_generator::generator_rooms_vector(&mut rng, 0, 80, 50).is_empty());
}
