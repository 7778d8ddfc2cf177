pub mod text;
pub mod models;
pub mod translator;
pub mod prompts;
pub mod locale;
pub mod config;
pub mod gzip;
pub mod cli;
pub mod properties;
pub mod laws;
