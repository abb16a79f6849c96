pub mod log_format;
pub mod log_reader;
pub mod log_writer;
pub mod round_trip;
