//! What a training or prediction job decides before, between and after the work it hands out.
pub mod array;
pub mod blocking;
pub mod workers;
pub mod score;
pub mod setup;
pub mod params;
pub mod train;
pub mod message;
pub mod model_io;
pub mod predict;
pub mod predict_text;
