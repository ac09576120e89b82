//! The image loader.
//!
//! [`pe`] maps, relocates and binds PE32+ images, [`blocks`] lays out the
//! process control blocks, [`mui`] reads string and message resources,
//! [`ntdll`] builds the system-call stubs, [`loaded`] keeps the loaded support
//! modules and [`exports`] names the routines drivers bind to. What
//! moving an image does to it as a whole stands in [`relocation`].
pub mod bind;
pub mod blocks;
pub mod driver;
pub mod exports;
pub mod load;
pub mod loaded;
pub mod mui;
pub mod ntdll;
pub mod pe;
pub mod process;
pub mod relocation;
pub mod shim;
