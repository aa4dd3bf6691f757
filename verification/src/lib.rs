pub mod solutions;
pub mod text;
