// Fixed-capacity collections, byte and number algorithms, text buffers, and
// the integer decisions of a 2D rigid-body simulation (random draws, which
// body pairs to test, which bodies to drop), each with its contract.

pub mod algo;
pub mod binary_heap;
pub mod color;
pub mod fixed_vec;
pub mod helpers;
pub mod io;
pub mod math;
pub mod probe_map;
pub mod sim;
pub mod slot_map;
pub mod slot_vec;
pub mod text;
