pub mod chars;
pub mod codec;
pub mod clock;
pub mod entry;
pub mod extract;
pub mod fmt;
pub mod parse;
pub mod query;
pub mod storage;
pub mod time;

pub use entry::Entry;
pub use time::UtcTime;
