pub mod bodmas;
pub mod linear_eq;
pub mod pemdas;
