//! A quote service core: an expiring, bounded quote cache, the coordinators
//! that serve quotes from it or fetch them, and the request helpers around
//! them.

pub mod cache;
pub mod client;
pub mod flight;
pub mod quote;
pub mod utils;
