use vstd::prelude::*;

pub mod addr_parser;
pub mod command;
pub mod error;
pub mod index;
pub mod kv;
pub mod reader;
pub mod server;
pub mod writer;

pub use command::{Command, CommandPos};
pub use error::MyError;
pub use kv::{get_log_file, KvStore, LogRecord};
pub use reader::ReaderWithPos;
pub use writer::WriterWithPos;

verus! {

} // verus!
