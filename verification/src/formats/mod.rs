//! Model files: GGUF and safetensors headers become a format-agnostic model
//! description.

pub mod blocks;
pub mod data;
pub mod desc;
pub mod error;
pub mod fixture_files;
pub mod fixture_laws;
pub mod fixtures;
pub mod gguf;
pub mod image;
pub mod json;
pub mod limits;
pub mod kinds;
pub mod load;
pub mod mlx;
pub mod half;
pub mod name_laws;
pub mod names;
pub mod quant;
pub mod read;
pub mod roundtrip;
pub mod roundtrip_q4k;
pub mod safetensors;
pub mod safetensors_laws;
pub mod shards;
