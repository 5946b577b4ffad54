pub mod types;
pub mod planner;
pub mod manifest;
pub mod progress;
pub mod backends;
pub mod listing;
