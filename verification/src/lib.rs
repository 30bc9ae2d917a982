//! GugolPi: verified core of a CPU benchmark with mathematical verification of its results.

pub mod benchmark;
pub mod bignum;
pub mod cli;
pub mod config;
pub mod error;
pub mod gui;
pub mod hash;
pub mod pi;
pub mod positional;
pub mod radical;
pub mod report;
pub mod result;
pub mod score;
pub mod suite;
pub mod sysinfo;
pub mod text;
pub mod timeutil;
pub mod zeta;
