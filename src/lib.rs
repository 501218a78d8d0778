pub mod file_map;
pub mod resolution;
pub mod errors;
pub mod closure;
