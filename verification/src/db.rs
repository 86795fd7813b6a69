pub mod catalogue;
pub mod database;
pub mod level;
pub mod unit;

pub use database::Database;
pub use level::Level;
pub use unit::DbUnit;
