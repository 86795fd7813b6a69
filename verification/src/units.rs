pub mod loader;
pub mod mounts;
pub mod oneshot;
pub mod seed;
pub mod services;

pub use loader::{baked_units, default_levels};
