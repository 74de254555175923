//! Block-level and trade-level measurements of Hyperliquid.
pub mod accounts;
pub mod blocks;
pub mod board;
pub mod classes;
pub mod classifier;
pub mod clock;
pub mod double;
pub mod feeds;
pub mod groups;
pub mod json;
pub mod kmeans;
pub mod order;
pub mod poll;
pub mod regulator;
pub mod rolling;
pub mod stream;
pub mod text;
pub mod validators;
pub mod wire;
