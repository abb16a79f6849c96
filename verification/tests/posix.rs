use cibo::env::io_posix::after_open;
use cibo::env::io_posix::after_read;
use cibo::env::io_posix::get_logical_buffer_size;
use cibo::env::io_posix::io_status;
use cibo::env::io_posix::is_sector_aligned;
use cibo::env::io_posix::wants_direct_reads;
use cibo::env::io_posix::Attempt;
use cibo::env::io_posix::PositionedWrite;
use cibo::env::io_posix::PosixWritableFile;
use cibo::env::EnvOptions;
use cibo::env::K_DEFAULT_PAGE_SIZE;
use cibo::util::status::Code;

#[test]
fn sectors() {
    assert_eq!(get_logical_buffer_size(), 4096);
    assert_eq!(K_DEFAULT_PAGE_SIZE, 4096);
    assert!(is_sector_aligned(0, 4096));
    assert!(is_sector_aligned(8192, 4096));
    assert!(!is_sector_aligned(8193, 4096));
    assert!(is_sector_aligned(7, 1));
}

#[test]
fn negative_answers_are_failures() {
    assert!(io_status(0, "cannot sync").is_ok());
    assert!(io_status(17, "cannot sync").is_ok());
    let s = io_status(-1, "cannot sync");
    assert_eq!(s.get_code(), Code::KIOError);
    assert_eq!(s.message(), "cannot sync");
}

#[test]
fn direct_reads() {
    let mut op = EnvOptions::default();
    assert!(!wants_direct_reads(&op));
    op.use_direct_reads = true;
    assert!(wants_direct_reads(&op));
    op.use_mmap_reads = true;
    assert!(!wants_direct_reads(&op));
}

#[test]
fn interrupted_calls_are_made_again() {
    assert_eq!(after_open(false, false), Attempt::Finished);
    assert_eq!(after_open(false, true), Attempt::Finished);
    assert_eq!(after_open(true, true), Attempt::Retry);
    assert_eq!(after_open(true, false), Attempt::Failed);

    assert_eq!(after_read(10, 0, true, true, false), Attempt::Retry);
    assert_eq!(after_read(10, 10, false, false, false), Attempt::Finished);
    assert_eq!(after_read(10, 4, false, false, true), Attempt::Finished);
    assert_eq!(after_read(10, 0, false, false, true), Attempt::Finished);
    assert_eq!(after_read(10, 4, false, false, false), Attempt::Failed);
    assert_eq!(after_read(10, 4, true, true, false), Attempt::Failed);
    assert_eq!(after_read(10, 0, true, false, false), Attempt::Failed);
    assert_eq!(after_read(0, 0, false, false, false), Attempt::Finished);
}

/// A file whose calls are interrupted and take fewer bytes than they are
/// handed, as the list of answers says.
fn write_with(data: &[u8], offset: usize, answers: &[(i64, bool)]) -> (Vec<u8>, Attempt, usize) {
    let mut file = vec![0xeeu8; 4];
    let mut write = PositionedWrite::new(data.len(), offset);
    let mut last = if data.is_empty() { Attempt::Finished } else { Attempt::Continue };
    let mut calls = 0;
    for &(done, interrupted) in answers {
        if write.left() == 0 {
            break;
        }
        calls += 1;
        if done >= 1 && done as usize <= write.left() {
            let from = write.written();
            let at = write.offset();
            if file.len() < at + done as usize {
                file.resize(at + done as usize, 0);
            }
            file[at..at + done as usize].copy_from_slice(&data[from..from + done as usize]);
        }
        last = write.on_result(done, interrupted);
        if last == Attempt::Failed {
            break;
        }
    }
    (file, last, calls)
}

#[test]
fn interruptions_lose_and_repeat_nothing() {
    let data: Vec<u8> = (1..=10).collect();
    let whole = vec![0xee, 0xee, 1, 2, 3, 4, 5, 6, 7, 8, 9, 10];
    // one call takes all
    assert_eq!(write_with(&data, 2, &[(10, false)]), (whole.clone(), Attempt::Finished, 1));
    // interruptions before, between and after short writes
    let answers =
        [(-1, true), (-1, true), (3, false), (0, true), (1, false), (-1, true), (-1, true), (6, false), (5, false)];
    assert_eq!(write_with(&data, 2, &answers), (whole.clone(), Attempt::Finished, 8));
    // byte by byte
    let answers: Vec<(i64, bool)> = (0..30).map(|i| if i % 3 == 2 { (1, false) } else { (-1, true) }).collect();
    assert_eq!(write_with(&data, 2, &answers), (whole.clone(), Attempt::Finished, 30));
    // a failure that is no interruption ends the write
    let (file, last, calls) = write_with(&data, 2, &[(4, false), (-1, true), (-1, false), (6, false)]);
    assert_eq!(last, Attempt::Failed);
    assert_eq!(calls, 3);
    assert_eq!(file, vec![0xee, 0xee, 1, 2, 3, 4]);
    // a call that took nothing and was not interrupted has failed
    assert_eq!(write_with(&data, 2, &[(0, false)]).1, Attempt::Failed);
    // the system cannot have taken more than it was handed
    assert_eq!(write_with(&data, 2, &[(11, false)]).1, Attempt::Failed);
    // nothing to write
    assert_eq!(write_with(&[], 2, &[(1, false)]), (vec![0xee; 4], Attempt::Finished, 0));
}

#[test]
fn steps_of_a_write() {
    let mut w = PositionedWrite::new(10, 100);
    assert_eq!((w.left(), w.written(), w.offset()), (10, 0, 100));
    assert_eq!(w.on_result(-1, true), Attempt::Retry);
    assert_eq!((w.left(), w.written(), w.offset()), (10, 0, 100));
    assert_eq!(w.on_result(4, false), Attempt::Continue);
    assert_eq!((w.left(), w.written(), w.offset()), (6, 4, 104));
    assert_eq!(w.on_result(4, true), Attempt::Continue);
    assert_eq!((w.left(), w.written(), w.offset()), (2, 8, 108));
    assert_eq!(w.on_result(3, false), Attempt::Failed);
    assert_eq!((w.left(), w.written(), w.offset()), (2, 8, 108));
    assert_eq!(w.on_result(2, false), Attempt::Finished);
    assert_eq!((w.left(), w.written(), w.offset()), (0, 10, 110));
    assert_eq!(w.on_result(-1, false), Attempt::Finished);
    let mut far = PositionedWrite::new(10, usize::MAX - 5);
    assert_eq!(far.on_result(6, false), Attempt::Failed);
    assert_eq!(far.on_result(5, false), Attempt::Continue);
}

#[test]
fn blocks_are_reserved_ahead() {
    let mut f = PosixWritableFile::new("log".to_string(), 3, 1024);
    assert_eq!(f.descriptor(), 3);
    assert!(f.use_direct_io());
    assert_eq!(f.get_required_buffer_alignment(), 4096);
    assert_eq!(f.get_file_size(), 0);
    // the first write reaches into the first block
    assert_eq!(f.prepare_write(0, 10), Some((0, 1024)));
    // what is reserved is not reserved again
    assert_eq!(f.prepare_write(10, 1000), None);
    assert_eq!(f.prepare_write(1010, 14), None);
    assert_eq!(f.prepare_write(1024, 1), Some((1024, 1024)));
    assert_eq!(f.prepare_write(2000, 5000), Some((2048, 5120)));
    assert_eq!(f.prepare_write(0, 0), None);
    assert_eq!(f.prepare_write(usize::MAX, 2), None);
    assert_eq!(f.prepare_write(usize::MAX - 5, 2), None);
    let mut none = PosixWritableFile::new("log".to_string(), 3, 0);
    assert_eq!(none.prepare_write(0, 10), None);
    f.appended(10);
    f.appended(5);
    assert_eq!(f.get_file_size(), 15);
    f.resized(4);
    assert_eq!(f.get_file_size(), 4);
}
