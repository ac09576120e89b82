//! The kernel core: interrupt levels, threads, dispatcher objects, scheduling,
//! deferred and asynchronous calls, descriptor tables, traps and the debugger
//! wire protocol.
pub mod apc;
pub mod bugcheck;
pub mod clocks;
pub mod contention;
pub mod debug;
pub mod dispatcher;
pub mod dpc;
pub mod exception;
pub mod fault;
pub mod gdt;
pub mod idt;
pub mod irql;
pub mod kdcom;
pub mod laws;
pub mod pcr;
pub mod ready;
pub mod scheduler;
pub mod selectors;
pub mod signal;
pub mod smp;
pub mod spinlock;
pub mod syscall;
pub mod thread;
pub mod traps;
pub mod usermode;
pub mod waits;
