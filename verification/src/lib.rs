//! Spatial simulation layer for a tile-based tactical area: a bounded
//! A* pathfinder over an integer grid, a spatial index that keeps entity,
//! prop, surface, trigger and transition grids consistent under movement,
//! a fog-of-war visibility accumulator, and post-combat de-stacking of
//! party members.

pub mod ability_state;
pub mod ai;
pub mod area_feedback_text;
pub mod area_state;
pub mod campaign;
pub mod cell_sets;
pub mod config;
pub mod entity_state;
pub mod main_menu;
pub mod path_finder;
pub mod prop_state;
pub mod quest_state;
pub mod resource;
pub mod text_area;
pub mod timer_image;
pub mod util;

pub use util::ExtInt;
pub use util::Point;
pub use util::Size;
