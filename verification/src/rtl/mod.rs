//! Run-time library: status codes, counted strings, intrusive lists, bitmaps.
pub mod bitmap;
pub mod list;
pub mod status;
pub mod string;

pub use status::NtStatus;
