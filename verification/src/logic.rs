//! The logic engine: three-state bit values, Gray-code arithmetic, truth
//! tables and Karnaugh maps.

pub mod error;
pub mod gray;
pub mod kmap;
pub mod text;
pub mod truth_table;
pub mod variable;
