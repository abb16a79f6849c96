use cibo::db::log_writer::Writer;
use cibo::env::mem::MemWritableFile;
use cibo::env::EnvOptions;
use cibo::util::file_reader_writer::WritableFileWriter;
use cibo::util::hash::crc32;

#[test]
fn it_works() {
    assert_eq!(2 + 2, 4);
}

#[test]
fn crc32_check_value() {
    assert_eq!(crc32(0, b"123456789"), 0xCBF4_3926);
    assert_eq!(crc32(0, b""), 0);
    assert_eq!(crc32(crc32(0, b"1234"), b"56789"), 0xCBF4_3926);
}

#[test]
fn writer_emits_one_full_frame() {
    let fd = MemWritableFile::buffered("log".to_string());
    let op: EnvOptions = EnvOptions::default();
    let writer = WritableFileWriter::new(fd, op);
    let mut wal = Writer::new(writer, 0, false, true);
    assert!(wal.add_record(vec![1, 2, 3]).is_ok());
    let data = wal.file_writer().writable_file().data();
    assert_eq!(data.len(), 10);
    assert_eq!(&data[4..], &[3, 0, 1, 1, 2, 3]);
    let crc = crc32(0, &[1, 1, 2, 3]);
    assert_eq!(&data[..4], &crc.to_le_bytes());
}
