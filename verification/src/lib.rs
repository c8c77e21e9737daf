//! Turing machines with pseudo-random transition tables, run on toroidal
//! tapes of one, two or three dimensions.

pub mod random;
pub mod rulesets;
pub mod text;
pub mod tm;
pub mod turing_machine_memory;
