pub mod grid;
pub mod layout;
pub mod random;
pub mod report;
pub mod world;

pub use grid::{shade, tile_color, Tile};
pub use report::log_error;
pub use world::{
    sole_active_species, Config, Fate, InitError, World, WorldView, CHANCE_SCALE,
    PLACEMENT_SAMPLES, PULSE_SAMPLES,
};
