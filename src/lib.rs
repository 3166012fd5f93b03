//! A log-structured key-value storage engine.
//!
//! Records are appended to numbered segment files; an in-memory index maps
//! every live key to the location of its latest `SetValue` record; compaction
//! rewrites the live records into a fresh segment. The engine makes every
//! decision and keeps the bookkeeping; the file I/O is left to the caller,
//! which appends, reads and deletes exactly what the engine asks for.
pub mod engine;
pub mod error;
pub mod index;
pub mod model;
pub mod naive;
pub mod position;
pub mod record;
pub mod segment;

pub use engine::{read_value, CompactionPlan, KVStore, Recovery, COMPACTION_THRESHOLD};
pub use error::KVStoreError;
pub use position::{BufferReaderWithPosition, BufferWriterWithPosition, BuffferWriterWithPosition};
pub use record::{decode_command, Command, CommandMedaData, CommandMetaData};
pub use segment::{segment_number_of, sort_file_by_number};
