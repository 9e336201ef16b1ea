//! Verified core of a Cloudflare IP tester and speed-test tool: reading IP
//! lists (addresses and CIDR blocks, in text), expanding CIDR blocks,
//! keeping addresses sorted and unique, reading the speed test's
//! command-line settings, and the decisions of a timed download.
use vstd::prelude::*;

pub mod text;
pub mod number;
pub mod ip;
pub mod cidr;
pub mod sorted;
pub mod ipset;
pub mod ip_list;
pub mod cli;
pub mod measure;
