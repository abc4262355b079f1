pub mod builder;
pub mod cache;
pub mod cli;
pub mod config;
pub mod dns;
pub mod error;
pub mod hack;
pub mod input;
pub mod output;
pub mod report;
pub mod resolve;
pub mod text;
pub mod tld;
pub mod update;
