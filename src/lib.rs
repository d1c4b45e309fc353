//! Core of a small single-CPU kernel: three-level page tables over a modelled
//! physical memory, address spaces built from mapped areas, a stride scheduler,
//! the task table with parent/child accounting, and the process syscalls.

pub mod config;
pub mod frame;
pub mod page_table;
pub mod user_access;
pub mod memory_set;
pub mod fork_space;
pub mod task;
pub mod scheduler;
pub mod syscall;

