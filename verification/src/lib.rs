//! Verified building blocks for a set of operating-system exercises: a
//! simulated RISC-V SV39 three-level page table, plus the pure logic used by
//! the threaded and asynchronous exercises (sorting of results, message
//! construction, pipe output handling and future state machines).

pub mod page_table;
pub mod page_table_laws;
pub mod sorting;
pub mod messages;
pub mod pipes;
pub mod futures;
pub mod tasks;
