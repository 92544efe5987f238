pub mod tile;
pub mod board;
pub mod word;
pub mod dictionary;
pub mod search;
pub mod rank;
pub mod recognize;
