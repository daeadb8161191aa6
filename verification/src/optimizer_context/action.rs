pub mod constant;
pub mod variable;
