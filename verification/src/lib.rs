pub mod config;
pub mod scanner;
pub mod chunked;
pub mod totals;
pub mod walk;
pub mod paths;
pub mod report;
