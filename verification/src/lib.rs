use vstd::prelude::*;

pub mod blocks;
pub mod blocks_once;
pub mod boxes;
pub mod buffer;
pub mod bwos;
pub mod chase_lev;
pub mod deque;
pub mod distributed;
pub mod distribution;
pub mod exact_once;
pub mod hypercube;
pub mod idempotent;
pub mod index;
pub mod inline;
pub mod jiffy;
pub mod jiffy_fifo;
pub mod linked;
pub mod multiplicity;
pub mod persistent;
pub mod priority;
pub mod race;
pub mod scheduler;
pub mod scheduling;
pub mod steal;
pub mod windows;

pub use crate::steal::Steal;
pub use crate::deque::{Stealer, Worker};
