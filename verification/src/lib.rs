pub mod column;
pub mod hash_map;
pub mod io;
pub mod iter;
pub mod rand;
pub mod sort;
pub mod utils;
