//! Placeholder tracking, card placement and stream control for a card-game
//! video streaming service.
pub mod geometry;
pub mod ordering;
pub mod text;
pub mod vid;
pub mod scan;
pub mod registry;
pub mod stream;
pub mod preprocess;
