pub mod element_seperator;
pub mod transform_equation;
