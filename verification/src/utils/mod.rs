pub mod color;
pub mod io;
pub mod order;
pub mod text;
