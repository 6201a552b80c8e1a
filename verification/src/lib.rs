pub mod blueprint;
pub mod config;
pub mod error;
pub mod generator;
pub mod ink;
pub mod microcode;
pub mod scan;
