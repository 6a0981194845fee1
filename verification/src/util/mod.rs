pub mod strings;
pub mod text;
pub mod keyed;
