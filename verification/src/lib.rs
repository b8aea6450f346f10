//! Decision logic of two small network services: an HTTP load balancer that
//! places clients on a consistent-hashing ring, and a checker that reports on
//! the mail records (MX, SPF, DMARC) of a list of domains.
//!
//! Sockets, clocks and DNS queries live in the program around the library,
//! which hands results in and carries decisions out. Calls into outside crates
//! that only compute are made here, each behind a function whose contract is
//! taken on trust; everything else is proved.
pub mod text;
pub mod hashing;
pub mod ring;
pub mod headers;
pub mod forwarding;
pub mod server;
pub mod balancer;
pub mod stability;
pub mod domain;
pub mod report;
