//! An NT-architecture kernel core as a verified library.
//!
//! Every module states what its routines compute over mathematical models
//! (sequences of bytes, maps of pages, queues of threads) and proves it. The
//! hardware edge (CR3, CR8, MSRs, port I/O, context switches) is left to the
//! caller: where a routine decides something the processor must do, it returns
//! that decision as a value.
pub mod bytes;
pub mod fields;
pub mod ke;
pub mod kernel32;
pub mod ldr;
pub mod mm;
pub mod ob;
pub mod ps;
pub mod rtl;
pub mod syscalls;
