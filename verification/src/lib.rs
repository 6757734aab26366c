//! A pull-based query executor over a block disk.

pub mod bytes;
pub mod data;
pub mod row;
pub mod block;
pub mod text;
pub mod disk;
pub mod disklaws;
pub mod key;
pub mod numberlaws;
pub mod query;
pub mod catalog;
pub mod facts;
pub mod executor;
pub mod format;
pub mod formatlaws;
pub mod querylaws;
pub mod rowlaws;
pub mod session;
pub mod valuelaws;
