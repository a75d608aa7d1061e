//! Sampling profiler for PHP 8.
//!
//! A target is attached to from the bytes of its binary and a few reads of its
//! memory ([`target`]); its call stack is walked frame by frame ([`zend`]); and
//! the samples go into a sink ([`output`]) or a live display ([`tui`]).
//!
//! The library reads nothing itself. What it needs of another process it asks
//! for, and it is run again with the replies ([`remote`], [`replies`]).

pub mod arch;
pub mod cli;
pub mod clock;
pub mod discover;
pub mod elf;
pub mod intern;
pub mod laws;
pub mod offsets;
pub mod output;
pub mod pprof;
pub mod proc;
pub mod prologue;
pub mod pyroscope;
pub mod remote;
pub mod replies;
pub mod sampler;
pub mod symbols;
pub mod target;
pub mod text;
pub mod tls;
pub mod tui;
pub mod wire;
pub mod zend;
