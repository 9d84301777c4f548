pub mod rover;
pub mod text;
