pub mod config;
pub mod value;
pub mod poll;
pub mod output;
