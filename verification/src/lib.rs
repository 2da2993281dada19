pub mod buffer;
pub mod cache;
pub mod config;
pub mod encode;
pub mod splitter;
pub mod textfmt;
pub mod writes;

pub use buffer::{CsvBuffer, CsvBuffers, IouWrite, VectoredWrite};
pub use cache::{BufferCache, FileWrapper, SplitFileWrapper};
pub use config::{CompressionType, Config, TypeExtension};
pub use splitter::Splitter;
pub use writes::IouWrites;
