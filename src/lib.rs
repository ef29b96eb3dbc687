//! Conflict-free replicated data types and the logical clocks they rest on.
//!
//! Logical time: `vtime` (vector clocks and dots), `dotted_version`, `mtime` and `hlc`.
//! State-based types: `gcounter`, `pncounter`, `bcounter`, `lww_register`, and the
//! observed-remove family built on `kernel`: `or_set`, `mv_register` and `or_map`.
//! Operation-based framing: `event` and `commutative`. The lattice laws are in `laws`.

pub mod vtime;
pub mod hlc;
pub mod dotted_version;
pub mod mtime;
pub mod convergent;
pub mod gcounter;
pub mod pncounter;
pub mod transfers;
pub mod bcounter;
pub mod lww_register;
pub mod dots;
pub mod keydots;
pub mod kernel;
pub mod or_set;
pub mod mv_register;
pub mod or_map;
pub mod event;
pub mod commutative;
pub mod laws;
