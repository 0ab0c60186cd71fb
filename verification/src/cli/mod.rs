//! What the program prints and decides around a model: its description, profiles,
//! comparisons, and when to stop.

pub mod bench;
pub mod decisions;
pub mod inspect;
pub mod num;
pub mod profile;
pub mod run;
