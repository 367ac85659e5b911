//! Line-terminator scanning over byte buffers.
//!
//! A buffer is walked once, left to right, and the position of every carriage
//! return and every line feed is recorded as a 32-bit offset. The two bytes are
//! treated independently: a `"\r\n"` pair yields two adjacent offsets.
//!
//! - [`model`] says which positions a scan has to find, and proves what holds
//!   of them.
//! - [`stream`] holds the result of a scan, [`IntegerStream`].
//! - [`scan`] is the scan itself: [`split_lines`], and [`try_split_lines`] for
//!   buffers of unknown length.

pub mod model;
pub mod scan;
pub mod stream;

pub use scan::{check_buffer_len, split_lines, try_split_lines, ScanError, MAX_BUFFER_LEN};
pub use stream::IntegerStream;
