//! A lock-free, updatable reference cell.
//!
//! The library holds the parts of the cell that can be stated and proved:
//! the writers' retry protocol as a state machine (`protocol`), the
//! generational model of the cell's slot (`slot`), one writer's update
//! against that model among any other writers (`interleave`), and the entry
//! into the reclamation epoch (`epoch`).
pub mod epoch;
pub mod interleave;
pub mod protocol;
pub mod slot;
