//! Verified core of the mining-pool HTTP API: coinbase inspection for the
//! network page, admin session cookies, status decisions and small parsers.

pub mod admin;
pub mod blocks;
pub mod codec;
pub mod diagnostics;
pub mod handlers;
pub mod lwd_tip;
pub mod network;
pub mod sorting;
pub mod strmap;
pub mod sysinfo;
pub mod text;
