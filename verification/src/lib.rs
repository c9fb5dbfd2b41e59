//! A gateway that paces outbound traffic per domain family.

pub mod classify;
pub mod command;
pub mod config;
pub mod decimal;
pub mod dial;
pub mod dns_cache;
pub mod gateway;
pub mod limiter;
pub mod names;
pub mod recovery;
pub mod route;
pub mod session;
pub mod sniff;
pub mod tcp;
pub mod text;
pub mod udp;
