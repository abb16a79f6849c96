pub mod locked_file;
