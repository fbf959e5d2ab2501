pub mod address;
pub mod config;
pub mod crawl;
pub mod dns;
pub mod laws;
pub mod network;
pub mod peer;
pub mod peers;
pub mod probe;
pub mod recheck;
pub mod records;
pub mod rows;
