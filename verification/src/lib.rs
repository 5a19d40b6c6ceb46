pub mod analyzer;
pub mod error;
pub mod greek_lower_caser;
pub mod pattern;
pub mod search_engine;
pub mod song;
pub mod text;
pub mod tokenizer;
pub mod unicode;
pub mod utils;
