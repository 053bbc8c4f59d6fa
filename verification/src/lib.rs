//! Recovery of the cross-reference table of a PDF document.
//!
//! A PDF file is read from its end: the last `%%EOF` marker is looked for
//! within a bounded number of lines, the line before it gives the byte offset
//! of the cross-reference table, and the table at that offset is decoded into
//! its records. Everything works on an in-memory [`ByteStream`], a finite
//! byte sequence with a cursor.

pub mod bytes;
pub mod document;
pub mod error;
pub mod parser;
pub mod stream;
pub mod utils;

pub use error::XrefError;
pub use parser::{
    check_eof_with_limit, parse_xref_table, parse_xref_table_pos, read_xref_table, ObjType,
    XrefRecord, EOF_SCAN_LIMIT,
};
pub use stream::ByteStream;
pub use utils::{read_previous_line, scan_previous_line};
