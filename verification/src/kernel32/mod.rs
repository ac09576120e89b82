//! The console API that programs import from `kernel32`.
//!
//! Each routine is given what its caller's pointers lead to: a string comes as the
//! memory from its first character on, a null pointer as nothing, and what goes
//! into a caller's buffer is handed back. Requests to the kernel are made by the
//! caller, between the two halves of a routine, with the numbers of
//! [`crate::syscalls`].
#[allow(non_snake_case)]
pub mod compare;
#[allow(non_snake_case)]
pub mod console;
#[allow(non_snake_case)]
pub mod env;
#[allow(non_snake_case)]
pub mod fixed;
#[allow(non_snake_case)]
pub mod heap;
#[allow(non_snake_case)]
pub mod messages;
#[allow(non_snake_case)]
pub mod process;
#[allow(non_snake_case)]
pub mod resources;
#[allow(non_snake_case)]
pub mod strings;
#[allow(non_snake_case)]
pub mod system;
