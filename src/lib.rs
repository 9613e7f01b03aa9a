//! A storage node for a content-addressed blob store: volume placement,
//! file references, size accounting and the operation journal.

pub mod text;
pub mod codec;
pub mod error;
pub mod wrr;
pub mod next_file;
pub mod binlog;
pub mod storage;
pub mod round;
