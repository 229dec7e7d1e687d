pub mod asg;
pub mod kenken;
pub mod parse;
pub mod solve;
pub mod validate;
