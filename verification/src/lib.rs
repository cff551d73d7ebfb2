pub mod encrytion;
pub mod endian;
pub mod models;
pub mod utils;
