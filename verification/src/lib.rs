//! Procedural level generation for a grid-based dungeon crawler: the tile
//! grid, the carving toolkit and the family of map builders, each with a
//! machine-checked contract.

pub mod dice;
pub mod map;
pub mod map_builders;
pub mod pathing;
pub mod rect;

pub use dice::Dice;
pub use map::{TileMap, TileMapView, Position, TileType, MAP_COUNT, MAP_HEIGHT, MAP_WIDTH};
pub use map_builders::{random_builder, AnyBuilder, MapBuilder};
pub use rect::Rect;
