pub mod logger;
pub mod tap;
pub mod timing;

pub use logger::{Colors, InitializationLogger};
