//! Streaming parser for FASTA-formatted sequence data.

pub mod defline;
pub mod entries;
pub mod error;
pub mod reader;
pub mod record;
pub mod text;

pub use defline::get_id_from_defline;
pub use error::FastaError;
pub use reader::{lines_of, read_lines, read_str, Reader};
pub use record::Record;
