//! Procedural dungeon layout: rectangles, a fixed-size tile grid, corridor
//! carving and a clustered-rooms generator.

pub mod generator;
pub mod map;
pub mod random;
pub mod rect;

pub use generator::{
    finish_layout, generator_rooms_vector, new_map_clustered_rooms, new_map_clustered_rooms_with, open_row, side_switcher,
    try_column_room, MapError, MAX_SIZE,
    MIN_SIZE,
};
pub use map::{
    apply_horizontal_tunnel, apply_room_to_map, apply_vertical_tunnel, idx_to_xy, new_map_from_rolls,
    new_map_test,
    xy_idx, TileType, MAP_HEIGHT, MAP_SIZE, MAP_WIDTH,
};
pub use rect::Rect;
