//! A Japanese input-method conversion engine: romaji to kana composition,
//! dictionary lookups, candidate ranking and the settings model.

pub mod text;
pub mod romaji;
pub mod sort;
pub mod csv;
pub mod candidate;
pub mod wordmap;
pub mod user_dictionary;
pub mod learning;
pub mod typo;
pub mod dictionary;
pub mod dynamic;
pub mod config;
pub mod engine;
pub mod converter;
pub mod settings;
pub mod window;
pub mod server;
pub mod user_entries;
pub mod indicator;
