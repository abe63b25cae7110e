//! Compresses a list of CIDR prefixes into an ordered list of signed
//! prefix rules.
//!
//! Prefixes are collected in a path-compressed binary radix set
//! ([`radixset::RadixSet`]); [`radixset::def::Definition`] renders the
//! set as a short list of overriding rules, as a full partition of the
//! address space, or as the aggregated list of covered prefixes.
//!
//! - [`bitstrings`]: bit strings and the operations on them;
//! - [`address`], [`cidr`]: IP addresses and CIDR prefixes as bit
//!   strings, with their text forms;
//! - [`radixset`]: the set, its mathematical model
//!   ([`radixset::tree`]), the renderings ([`radixset::def`]), what
//!   they are ([`radixset::rules`]) and what holds of them
//!   ([`radixset::laws`], [`radixset::minimal`]);
//! - [`config`], [`driver`], [`write_lines`]: from a command line and
//!   input lines to output lines.
pub mod address;
pub mod bitstrings;
pub mod cidr;
pub mod config;
pub mod driver;
pub mod radixset;
pub mod text;
pub mod write_lines;
