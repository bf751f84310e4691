pub mod agents;
pub mod calendar;
pub mod dates;
pub mod engine;
pub mod events;
pub mod sorting;
pub mod storage;
pub mod suggestions;
pub mod text;
pub mod tui;
