pub mod bans;
pub mod ipconverter;
pub mod ip2location;
pub mod sorting;
pub mod stats;
