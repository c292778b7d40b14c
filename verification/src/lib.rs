pub mod input;
pub mod parser;
pub mod runnable;
pub mod structures;
pub mod tokenizer;
pub mod utils;
