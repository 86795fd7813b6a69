pub mod service;
pub mod blame;
pub mod teardown;
