//! What the parser makes of any text: the parts that [`super::mistakes`] allows.
pub mod expressions;
pub mod nesting;
pub mod statements;
mod steps;
