use cibo::db::log_format::BLOCK_SIZE;
use cibo::db::log_reader::Reader;
use cibo::db::log_writer::Writer;
use cibo::env::mem::MemSequentialFile;
use cibo::env::mem::MemWritableFile;
use cibo::env::EnvOptions;
use cibo::env::SequentialFile;
use cibo::env::WALRecoveryMode;
use cibo::util::file_reader_writer::SequentialFileReader;
use cibo::util::file_reader_writer::WritableFileWriter;
use cibo::util::status::Code;
use cibo::util::status::State;

fn write_log(records: &[Vec<u8>], direct: bool, recycle: bool, log_number: u64) -> Vec<u8> {
    let fd = if direct {
        MemWritableFile::new("log".to_string(), false, 0)
    } else {
        MemWritableFile::buffered("log".to_string())
    };
    let writer = WritableFileWriter::new(fd, EnvOptions::default());
    let mut wal = Writer::new(writer, log_number, recycle, true);
    for r in records {
        assert!(wal.add_record(r.clone()).is_ok());
    }
    assert!(wal.close().is_ok());
    wal.file_writer().writable_file().data()
}

fn read_log(data: Vec<u8>, log_number: u64, checksum: bool, mode: WALRecoveryMode) -> (Vec<Vec<u8>>, bool, u64) {
    let sf = SequentialFileReader::new(MemSequentialFile::new(data));
    let mut reader = Reader::new(sf, log_number, checksum);
    let mut out = Vec::new();
    let mut record: Vec<u8> = Vec::new();
    let mut scratch: Vec<u8> = Vec::new();
    while reader.read_record(&mut record, &mut scratch, mode) {
        out.push(record.clone());
    }
    (out, reader.status().is_ok(), reader.last_good_offset())
}

fn payload(len: usize, seed: u8) -> Vec<u8> {
    (0..len).map(|i| (i as u8).wrapping_mul(31).wrapping_add(seed)).collect()
}

#[test]
fn test_wal() {
    let data = {
        let fd = MemWritableFile::new("test".to_string(), false, 1024);
        let mut op: EnvOptions = EnvOptions::default();
        op.writable_file_max_buffer_size = 50;
        let writer = WritableFileWriter::new(fd, op);
        let mut wal = Writer::new(writer, 0, false, true);

        let input = vec![1, 2, 3];
        wal.add_record(input);
        let input = vec![1, 2, 3, 4, 5, 6, 7, 8, 9, 10];
        wal.add_record(input);
        let input = vec![1, 2, 3];
        wal.add_record(input);
        let input = vec![1, 2];
        wal.add_record(input);
        wal.close();
        wal.file_writer().writable_file().data()
    };
    {
        let pf = MemSequentialFile::new(data);
        let sf = SequentialFileReader::new(pf);
        let mut reader = Reader::new(sf, 0, true);
        let mut record: Vec<u8> = Vec::new();
        let mut scratch: Vec<u8> = Vec::new();

        {
            reader.read_record(
                &mut record,
                &mut scratch,
                WALRecoveryMode::AbsoluteConsistency,
            );
        }
        assert_eq!(record, vec![1, 2, 3]);
        record.clear();
        scratch.clear();
        {
            reader.read_record(
                &mut record,
                &mut scratch,
                WALRecoveryMode::AbsoluteConsistency,
            );
        }
        assert_eq!(record, vec![1, 2, 3, 4, 5, 6, 7, 8, 9, 10]);
    }
}

#[test]
fn four_records_come_back_in_order() {
    let records = vec![vec![1, 2, 3], vec![1, 2, 3, 4, 5, 6, 7, 8, 9, 10], vec![1, 2, 3], vec![1, 2]];
    for direct in [false, true] {
        for recycle in [false, true] {
            let data = write_log(&records, direct, recycle, 7);
            let hs = if recycle { 11 } else { 7 };
            assert_eq!(data.len(), 4 * hs + 18);
            let (back, ok, good) = read_log(data.clone(), 7, true, WALRecoveryMode::AbsoluteConsistency);
            assert_eq!(back, records);
            assert!(ok);
            assert_eq!(good, data.len() as u64);
        }
    }
}

#[test]
fn round_trip_over_many_blocks() {
    let records = vec![
        payload(0, 1),
        payload(BLOCK_SIZE - 7, 2),
        payload(3 * BLOCK_SIZE + 17, 3),
        payload(1, 4),
        payload(BLOCK_SIZE - 30, 5),
        payload(100_000, 6),
        payload(0, 7),
    ];
    for direct in [false, true] {
        for recycle in [false, true] {
            for checksum in [false, true] {
                let data = write_log(&records, direct, recycle, 0x1_0000_0002);
                let (back, ok, _) = read_log(data, 0x1_0000_0002, checksum, WALRecoveryMode::AbsoluteConsistency);
                assert!(ok);
                assert_eq!(back, records);
            }
        }
    }
}

#[test]
fn fragmentation_boundary() {
    let avail = BLOCK_SIZE - 7;
    for (len, frames) in [(avail - 1, vec![1u8]), (avail, vec![1u8]), (avail + 1, vec![2u8, 4u8])] {
        let records = vec![payload(len, 9)];
        let data = write_log(&records, false, false, 0);
        assert_eq!(data.len(), len + 7 * frames.len());
        assert_eq!(data[6], frames[0]);
        if frames.len() == 2 {
            assert_eq!(data[BLOCK_SIZE + 6], frames[1]);
            assert_eq!(&data[BLOCK_SIZE + 4..BLOCK_SIZE + 6], &[1, 0]);
            // the first fragment is as long as the block has room for
            assert_eq!(&data[4..6], &[(avail % 256) as u8, (avail / 256) as u8]);
        }
        let (back, ok, _) = read_log(data, 0, true, WALRecoveryMode::AbsoluteConsistency);
        assert!(ok);
        assert_eq!(back, records);
    }
}

#[test]
fn padding_is_skipped() {
    // the first record leaves 6 bytes of its block: too few for a header
    let first = payload(BLOCK_SIZE - 7 - 6, 1);
    let records = vec![first, vec![5, 6, 7]];
    let data = write_log(&records, false, false, 0);
    assert_eq!(&data[BLOCK_SIZE - 6..BLOCK_SIZE], &[0u8; 6]);
    assert_eq!(data.len(), BLOCK_SIZE + 10);
    let (back, ok, good) = read_log(data.clone(), 0, true, WALRecoveryMode::AbsoluteConsistency);
    assert!(ok);
    assert_eq!(back, records);
    assert_eq!(good, data.len() as u64);

    // with log numbers in the headers, 10 bytes are too few as well
    let first = payload(BLOCK_SIZE - 11 - 10, 1);
    let records = vec![first, vec![5, 6, 7]];
    let data = write_log(&records, true, true, 3);
    assert_eq!(&data[BLOCK_SIZE - 10..BLOCK_SIZE], &[0u8; 10]);
    let (back, ok, _) = read_log(data, 3, true, WALRecoveryMode::AbsoluteConsistency);
    assert!(ok);
    assert_eq!(back, records);
}

#[test]
fn flipped_bit_is_found() {
    let records = vec![vec![1, 2, 3], vec![4, 5, 6, 7], vec![8, 9]];
    let clean = write_log(&records, false, false, 0);
    // every bit of the second frame but those of its length
    for byte in 10..21 {
        if byte == 14 || byte == 15 {
            continue;
        }
        for bit in 0..8 {
            let mut data = clean.clone();
            data[byte] ^= 1 << bit;
            let (back, ok, good) = read_log(data.clone(), 0, true, WALRecoveryMode::AbsoluteConsistency);
            assert_eq!(back, vec![vec![1, 2, 3]]);
            assert!(!ok);
            assert_eq!(good, 10);
            let (back, ok, _) = read_log(data.clone(), 0, true, WALRecoveryMode::TolerateCorruptedTailRecords);
            assert_eq!(back, vec![vec![1, 2, 3]]);
            assert!(!ok);
            let (back, ok, _) = read_log(data.clone(), 0, true, WALRecoveryMode::SkipAnyCorruptedRecords);
            assert!(ok);
            assert_eq!(back[0], vec![1, 2, 3]);
            let (back, ok, good) = read_log(data, 0, true, WALRecoveryMode::PointInTimeRecovery);
            assert!(ok);
            assert_eq!(back[0], vec![1, 2, 3]);
            assert_eq!(good, 10);
        }
    }
}

#[test]
fn damage_in_one_block_does_not_reach_the_next() {
    let records = vec![payload(BLOCK_SIZE - 20, 1), vec![1, 2, 3], vec![4, 5, 6]];
    let mut data = write_log(&records, false, false, 0);
    // the second record lies at the end of the first block, the third in the next
    assert_eq!(data.len(), BLOCK_SIZE + 10);
    data[BLOCK_SIZE - 4] ^= 0x10;
    let (back, ok, _) = read_log(data.clone(), 0, true, WALRecoveryMode::SkipAnyCorruptedRecords);
    assert!(ok);
    assert_eq!(back, vec![records[0].clone(), records[2].clone()]);
    let (back, ok, _) = read_log(data.clone(), 0, false, WALRecoveryMode::AbsoluteConsistency);
    assert!(ok);
    assert_eq!(back.len(), 3);
    assert_eq!(back[2], records[2]);
}

#[test]
fn stale_frames_are_ignored() {
    let old = write_log(&[vec![9, 9, 9], vec![8, 8]], false, true, 1);
    let new = write_log(&[vec![1, 2, 3]], false, true, 2);
    // a reused file: the new log's frame, then what is left of the old log
    let mut data = new.clone();
    data.extend_from_slice(&old[new.len()..]);
    for mode in [
        WALRecoveryMode::AbsoluteConsistency,
        WALRecoveryMode::TolerateCorruptedTailRecords,
        WALRecoveryMode::PointInTimeRecovery,
        WALRecoveryMode::SkipAnyCorruptedRecords,
    ] {
        let (back, ok, good) = read_log(data.clone(), 2, true, mode);
        assert!(ok);
        assert_eq!(back, vec![vec![1, 2, 3]]);
        assert_eq!(good, 14);
    }
    let (back, ok, _) = read_log(old, 2, true, WALRecoveryMode::AbsoluteConsistency);
    assert!(ok);
    assert!(back.is_empty());
}

#[test]
fn torn_tail_by_mode() {
    let records = vec![vec![1, 2, 3], payload(BLOCK_SIZE, 2)];
    let whole = write_log(&records, false, false, 0);
    // cut within the last fragment, and right after the first fragment
    for cut in [whole.len() - 5, BLOCK_SIZE] {
        let data = whole[..cut].to_vec();
        let (back, ok, _) = read_log(data.clone(), 0, true, WALRecoveryMode::AbsoluteConsistency);
        assert_eq!(back, vec![vec![1, 2, 3]]);
        assert!(!ok);
        for mode in [
            WALRecoveryMode::TolerateCorruptedTailRecords,
            WALRecoveryMode::PointInTimeRecovery,
            WALRecoveryMode::SkipAnyCorruptedRecords,
        ] {
            let (back, ok, good) = read_log(data.clone(), 0, true, mode);
            assert_eq!(back, vec![vec![1, 2, 3]]);
            assert!(ok);
            assert_eq!(good, 10);
        }
    }
}

#[test]
fn nothing_but_damage() {
    let mut data = write_log(&[vec![1, 2, 3]], false, false, 0);
    data[8] ^= 1;
    let (back, ok, _) = read_log(data.clone(), 0, true, WALRecoveryMode::PointInTimeRecovery);
    assert!(back.is_empty());
    assert!(!ok);
    let (back, ok, _) = read_log(data.clone(), 0, true, WALRecoveryMode::SkipAnyCorruptedRecords);
    assert!(back.is_empty());
    assert!(ok);
    let (back, ok, _) = read_log(Vec::new(), 0, true, WALRecoveryMode::PointInTimeRecovery);
    assert!(back.is_empty());
    assert!(ok);
}

#[test]
fn damage_is_told_as_corruption() {
    let mut data = write_log(&[vec![1, 2, 3], vec![4, 5, 6]], false, false, 0);
    data[18] ^= 4;
    let sf = SequentialFileReader::new(MemSequentialFile::new(data));
    let mut reader = Reader::new(sf, 0, true);
    let mut record: Vec<u8> = Vec::new();
    let mut scratch: Vec<u8> = Vec::new();
    assert!(reader.status().is_ok());
    assert!(reader.read_record(&mut record, &mut scratch, WALRecoveryMode::AbsoluteConsistency));
    assert_eq!(record, vec![1, 2, 3]);
    assert!(reader.status().is_ok());
    assert!(!reader.read_record(&mut record, &mut scratch, WALRecoveryMode::AbsoluteConsistency));
    assert!(record.is_empty() && scratch.is_empty());
    assert_eq!(reader.status().get_code(), Code::KCorruption);
    assert_eq!(reader.last_good_offset(), 10);
    // a reader that has failed hands out nothing more, in any mode
    assert!(!reader.read_record(&mut record, &mut scratch, WALRecoveryMode::SkipAnyCorruptedRecords));
    assert_eq!(reader.status().get_code(), Code::KCorruption);
}

/// A file that fails after it has given so many bytes.
struct FailingFile {
    data: Vec<u8>,
    pos: usize,
    fail_at: usize,
}

impl SequentialFile for FailingFile {
    fn skip(&mut self, n: i64) -> State {
        self.pos += n as usize;
        State::ok()
    }

    fn read(&mut self, n: usize, result: &mut Vec<u8>, _scratch: &mut Vec<u8>) -> State {
        if self.pos >= self.fail_at {
            return State::new(Code::KIOError, "While reading file sequentially".to_string(), "".to_string());
        }
        let end = (self.pos + n).min(self.data.len());
        *result = self.data[self.pos..end].to_vec();
        self.pos = end;
        State::ok()
    }
}

#[test]
fn a_failing_file_ends_the_reading() {
    let records = vec![payload(BLOCK_SIZE - 7, 1), vec![1, 2, 3]];
    let data = write_log(&records, false, false, 0);
    let file = FailingFile { data, pos: 0, fail_at: BLOCK_SIZE };
    let mut reader = Reader::new(SequentialFileReader::new(file), 0, true);
    let mut record: Vec<u8> = Vec::new();
    let mut scratch: Vec<u8> = Vec::new();
    assert!(reader.read_record(&mut record, &mut scratch, WALRecoveryMode::SkipAnyCorruptedRecords));
    assert_eq!(record, records[0]);
    assert!(!reader.read_record(&mut record, &mut scratch, WALRecoveryMode::SkipAnyCorruptedRecords));
    assert_eq!(reader.status().get_code(), Code::KIOError);
    assert!(!reader.read_record(&mut record, &mut scratch, WALRecoveryMode::SkipAnyCorruptedRecords));
    assert_eq!(reader.last_good_offset(), BLOCK_SIZE as u64);
}

#[test]
fn foreign_frame_within_a_record() {
    // the first fragment of a record, then the frame of another log, then
    // what would have been the record's last fragment
    let whole = write_log(&[payload(BLOCK_SIZE, 1)], false, true, 1);
    let other = write_log(&[vec![9; 3]], false, true, 2);
    let mut data = whole[..BLOCK_SIZE].to_vec();
    data.extend_from_slice(&other);
    data.extend_from_slice(&whole[BLOCK_SIZE..]);
    for mode in [WALRecoveryMode::AbsoluteConsistency, WALRecoveryMode::TolerateCorruptedTailRecords] {
        let (back, ok, _) = read_log(data.clone(), 1, true, mode);
        assert!(back.is_empty());
        assert!(!ok);
    }
    let (back, ok, _) = read_log(data.clone(), 1, true, WALRecoveryMode::SkipAnyCorruptedRecords);
    assert!(back.is_empty());
    assert!(ok);
    // where the log ends behind the foreign frame, the record is a torn tail
    let mut torn = whole[..BLOCK_SIZE].to_vec();
    torn.extend_from_slice(&other);
    let (back, ok, _) = read_log(torn.clone(), 1, true, WALRecoveryMode::TolerateCorruptedTailRecords);
    assert!(back.is_empty());
    assert!(ok);
    let (back, ok, _) = read_log(torn, 1, true, WALRecoveryMode::AbsoluteConsistency);
    assert!(back.is_empty());
    assert!(!ok);
}

#[test]
fn unwritten_room_is_told_by_type_and_length_alone() {
    // an empty record whose type byte has lost its one bit reads as room
    // that was never written, and the rest of its block goes with it
    let mut data = write_log(&[vec![1, 2, 3], vec![], vec![4, 5, 6]], false, false, 0);
    assert_eq!(data[16], 1);
    data[16] = 0;
    let (back, ok, _) = read_log(data, 0, true, WALRecoveryMode::AbsoluteConsistency);
    assert!(ok);
    assert_eq!(back, vec![vec![1, 2, 3]]);
}

#[test]
fn a_reader_at_the_end_asks_nothing_of_its_file() {
    // the file gives its bytes once and fails from then on
    let data = write_log(&[vec![1, 2, 3], vec![4, 5]], false, false, 0);
    let file = FailingFile { data, pos: 0, fail_at: 1 };
    let mut reader = Reader::new(SequentialFileReader::new(file), 0, true);
    let mut record: Vec<u8> = Vec::new();
    let mut scratch: Vec<u8> = Vec::new();
    let mode = WALRecoveryMode::AbsoluteConsistency;
    assert!(reader.read_record(&mut record, &mut scratch, mode));
    assert_eq!(record, vec![1, 2, 3]);
    assert!(reader.read_record(&mut record, &mut scratch, mode));
    assert_eq!(record, vec![4, 5]);
    for _ in 0..3 {
        assert!(!reader.read_record(&mut record, &mut scratch, mode));
        assert!(reader.status().is_ok());
    }
    assert_eq!(reader.last_good_offset(), 19);
}
