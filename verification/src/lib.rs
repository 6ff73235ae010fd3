//! Input preparation and image splicing for embedding models.

pub mod error;
pub mod input_laws;
pub mod laws;
pub mod model;
pub mod positions;
pub mod preparation;
pub mod processor;
pub mod prompt;
pub mod resize;
pub mod sequence;
pub mod shape;
pub mod single;
pub mod splice;
pub mod splice_laws;
pub mod tensor;
pub mod vision_meta;
