//! A sequential command interpreter over a table of named registers.
//!
//! A register resolves to a chain of value nodes, and printing a register
//! sums its chain. Registers may share nodes: linking one register to another
//! makes later changes of the second visible through the first.

pub mod dispatch;
pub mod registers;
pub mod run_laws;
pub mod text;
pub mod totals;
pub mod value;
pub mod value_rc;

pub use dispatch::{handle_commands, try_handle_commands, Command};
pub use value_rc::Fault;
