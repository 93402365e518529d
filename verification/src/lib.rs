//! Dynamic CSV container library.
//!
//! Parses delimited text into a mutable in-memory table, lets callers
//! change cells, rows and columns under optional per-column value rules
//! ("limiters"), and serializes the table back to text.

pub mod chars;
pub mod column;
pub mod digits;
pub mod error;
pub mod laws;
pub mod meta;
pub mod parser;
pub mod reader;
pub mod row;
pub mod utils;
pub mod vcont;
pub mod value;
pub mod virtual_array;
pub mod virtual_data;

pub use column::Column;
pub use error::{DcsvError, DcsvResult, IoErrorWithMeta};
pub use parser::Parser;
pub use reader::{Reader, ReaderOption};
pub use row::Row;
pub use value::{Value, ValueLimiter, ValueType, LIMITER_ATTRIBUTE_LEN};
pub use vcont::{CellAlignType, VCont};
pub use virtual_array::VirtualArray;
pub use virtual_data::{ReadOnlyData, ReadOnlyDataRef, VirtualData};

use vstd::prelude::*;

verus! {

/// The header line of the schema interchange format.
pub const SCHEMA_HEADER: &'static str = "column,type,default,variant,pattern";

} // verus!
