pub mod aligned_buffer;
pub mod coding;
pub mod file_reader_writer;
pub mod hash;
pub mod status;
