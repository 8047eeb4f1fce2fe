pub mod equations;
pub mod text;
pub mod utils;
