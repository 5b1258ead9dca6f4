pub mod text;
pub mod lines;
pub mod record;
pub mod answers;
pub mod config;
pub mod stats;
