pub mod cli;
pub mod control;
pub mod counting;
pub mod db;
pub mod diagnostics;
pub mod error;
pub mod event;
pub mod loader;
pub mod names;
pub mod sort;
pub mod supervisor;
pub mod text;
pub mod unit;
pub mod units;
