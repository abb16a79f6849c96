use cibo::db::log_format::RecordType;
use cibo::db::log_format::BLOCK_SIZE;
use cibo::db::log_format::HEADER_SIZE;
use cibo::db::log_format::MAX_RECORD_TYPE;
use cibo::db::log_format::RECYCLABLE_HEADER_SIZE;
use cibo::db::log_reader::after_block_read;
use cibo::db::log_reader::decide_action;
use cibo::db::log_reader::parse_window;
use cibo::db::log_reader::Action;
use cibo::db::log_reader::Decision;
use cibo::db::log_reader::FrameKind;
use cibo::db::log_reader::Progress;
use cibo::env::EnvOptions;
use cibo::env::WALRecoveryMode;
use cibo::storage::locked_file::lock_file_name;
use cibo::util::coding::decode_fixed32;
use cibo::util::coding::decode_fixed64;
use cibo::util::coding::encode_fixed32;
use cibo::util::coding::encode_fixed64;
use cibo::util::hash::crc32;
use cibo::util::status::Code;
use cibo::util::status::State;

#[test]
fn fixed_width_numbers() {
    assert_eq!(encode_fixed32(0x0403_0201), vec![1, 2, 3, 4]);
    assert_eq!(encode_fixed32(0), vec![0, 0, 0, 0]);
    assert_eq!(encode_fixed32(u32::MAX), vec![255, 255, 255, 255]);
    assert_eq!(encode_fixed64(0x0807_0605_0403_0201), vec![1, 2, 3, 4, 5, 6, 7, 8]);
    assert_eq!(decode_fixed32(&[1, 2, 3, 4]), 0x0403_0201);
    assert_eq!(decode_fixed32(&[0xff, 0, 0, 0x80, 9]), 0x8000_00ff);
    assert_eq!(decode_fixed64(&[1, 2, 3, 4, 5, 6, 7, 8]), 0x0807_0605_0403_0201);
    for x in [0u64, 1, 0xdead_beef, u64::MAX, 0x1_0000_0000] {
        assert_eq!(decode_fixed64(&encode_fixed64(x)), x);
        assert_eq!(decode_fixed32(&encode_fixed32(x as u32)), x as u32);
    }
}

#[test]
fn checksum_can_be_extended() {
    let all = crc32(0, &[1, 2, 3, 4, 5, 6]);
    assert_eq!(crc32(crc32(0, &[1, 2]), &[3, 4, 5, 6]), all);
    assert_eq!(crc32(crc32(crc32(0, &[1]), &[]), &[2, 3, 4, 5, 6]), all);
    assert_eq!(crc32(7, &[]), 7);
    assert_eq!(crc32(0, &[0]), 0xD202_EF8D);
    assert_eq!(crc32(0, b"a"), 0xE8B7_BE43);
}

#[test]
fn checksum_tells_one_flipped_bit() {
    let data: Vec<u8> = (0..100u8).collect();
    let sound = crc32(0, &data);
    for byte in 0..data.len() {
        for bit in 0..8 {
            let mut changed = data.clone();
            changed[byte] ^= 1 << bit;
            assert_ne!(crc32(0, &changed), sound);
        }
    }
}

#[test]
fn format_constants() {
    assert_eq!(BLOCK_SIZE, 32768);
    assert_eq!(HEADER_SIZE, 7);
    assert_eq!(RECYCLABLE_HEADER_SIZE, 11);
    assert_eq!(MAX_RECORD_TYPE, 8);
}

#[test]
fn record_type_bytes() {
    let all = [
        RecordType::Zero,
        RecordType::Full,
        RecordType::First,
        RecordType::Middle,
        RecordType::Last,
        RecordType::RecyclableFull,
        RecordType::RecyclableFirst,
        RecordType::RecyclableMiddle,
        RecordType::RecyclableLast,
    ];
    for (i, t) in all.iter().enumerate() {
        assert_eq!(t.as_byte(), i as u8);
        assert_eq!(RecordType::from_byte(i as u8), Some(*t));
    }
    assert_eq!(RecordType::from_byte(9), None);
    assert_eq!(RecordType::from_byte(255), None);
}

fn frame(type_byte: u8, number: Option<u32>, payload: &[u8]) -> Vec<u8> {
    let mut covered = vec![type_byte];
    if let Some(n) = number {
        covered.extend_from_slice(&n.to_le_bytes());
    }
    covered.extend_from_slice(payload);
    let mut f = crc32(0, &covered).to_le_bytes().to_vec();
    f.extend_from_slice(&(payload.len() as u16).to_le_bytes());
    f.extend_from_slice(&covered);
    f
}

#[test]
fn parse_sound_frames() {
    let f = frame(1, None, &[7, 8, 9]);
    assert_eq!(parse_window(&f, true, 0, true), (FrameKind::Full, vec![7, 8, 9], 10));
    let mut w = frame(2, None, &[7, 8, 9]);
    w.extend_from_slice(&[0xaa; 20]);
    assert_eq!(parse_window(&w, false, 0, true), (FrameKind::First, vec![7, 8, 9], 10));
    assert_eq!(parse_window(&frame(3, None, &[]), false, 0, true), (FrameKind::Middle, vec![], 7));
    assert_eq!(parse_window(&frame(4, None, &[1]), false, 0, true), (FrameKind::Last, vec![1], 8));
    assert_eq!(parse_window(&frame(5, Some(6), &[1]), false, 6, true), (FrameKind::Full, vec![1], 12));
    assert_eq!(parse_window(&frame(6, Some(6), &[1]), false, 6, true), (FrameKind::First, vec![1], 12));
    assert_eq!(parse_window(&frame(7, Some(6), &[1]), false, 6, true), (FrameKind::Middle, vec![1], 12));
    assert_eq!(parse_window(&frame(8, Some(6), &[1]), false, 6, true), (FrameKind::Last, vec![1], 12));
    // only the low half of the log's number is in the header
    assert_eq!(
        parse_window(&frame(5, Some(6), &[1]), false, 0xabc_0000_0006, true),
        (FrameKind::Full, vec![1], 12)
    );
}

#[test]
fn parse_what_is_no_frame() {
    assert_eq!(parse_window(&[], false, 0, true), (FrameKind::Eof, vec![], 0));
    assert_eq!(parse_window(&[], true, 0, true), (FrameKind::Eof, vec![], 0));
    assert_eq!(parse_window(&[0; 6], false, 0, true), (FrameKind::Trailer, vec![], 6));
    assert_eq!(parse_window(&[0; 6], true, 0, true), (FrameKind::Truncated, vec![], 6));
    // room that was never written: the rest of the block goes
    assert_eq!(parse_window(&[0; 10], false, 0, true), (FrameKind::Foreign, vec![], 10));
    assert_eq!(parse_window(&[0; 300], true, 0, true), (FrameKind::Foreign, vec![], 300));
    // a header that names its log needs 11 bytes
    let f = frame(5, Some(1), &[]);
    assert_eq!(parse_window(&f[..10], false, 1, true), (FrameKind::Trailer, vec![], 10));
    assert_eq!(parse_window(&f[..10], true, 1, true), (FrameKind::Truncated, vec![], 10));
    // the frame of another log, and a frame of unknown type
    let f = frame(5, Some(1), &[4, 4]);
    assert_eq!(parse_window(&f, false, 2, true), (FrameKind::Foreign, vec![], 13));
    let mut w = frame(9, None, &[4, 4]);
    w.extend_from_slice(&[1, 2, 3]);
    assert_eq!(parse_window(&w, false, 2, true), (FrameKind::Foreign, vec![], 9));
    assert_eq!(parse_window(&frame(0, None, &[4]), false, 2, true), (FrameKind::Foreign, vec![], 8));
}

#[test]
fn parse_damage() {
    let f = frame(1, None, &[7, 8, 9]);
    // the payload is cut short
    assert_eq!(parse_window(&f[..9], false, 0, true), (FrameKind::BadLength, vec![], 9));
    assert_eq!(parse_window(&f[..9], true, 0, true), (FrameKind::Truncated, vec![], 9));
    let mut w = f.clone();
    w.extend_from_slice(&[0; 5]);
    for byte in [0, 1, 2, 3, 6, 7, 8, 9] {
        let mut changed = w.clone();
        changed[byte] ^= 0x20;
        assert_eq!(parse_window(&changed, false, 0, true), (FrameKind::BadChecksum, vec![], 15));
    }
    // without verification the payload is taken as it is
    let mut changed = w.clone();
    changed[8] ^= 0x20;
    assert_eq!(parse_window(&changed, false, 0, false), (FrameKind::Full, vec![7, 8 ^ 0x20, 9], 10));
    // a damaged frame of another log is damage
    let mut stale = frame(5, Some(1), &[4, 4]);
    stale[12] ^= 1;
    assert_eq!(parse_window(&stale, false, 2, true), (FrameKind::BadChecksum, vec![], 13));
}

const MODES: [WALRecoveryMode; 4] = [
    WALRecoveryMode::TolerateCorruptedTailRecords,
    WALRecoveryMode::AbsoluteConsistency,
    WALRecoveryMode::PointInTimeRecovery,
    WALRecoveryMode::SkipAnyCorruptedRecords,
];

fn passing(mode: WALRecoveryMode) -> bool {
    mode == WALRecoveryMode::PointInTimeRecovery || mode == WALRecoveryMode::SkipAnyCorruptedRecords
}

#[test]
fn fragments_in_turn_are_taken() {
    for mode in MODES {
        let clean = |action| Decision { action, damage: false };
        assert_eq!(decide_action(mode, Progress::Idle, FrameKind::Full), clean(Action::Deliver));
        assert_eq!(decide_action(mode, Progress::Idle, FrameKind::First), clean(Action::Begin));
        assert_eq!(decide_action(mode, Progress::InFragment, FrameKind::Middle), clean(Action::Extend));
        assert_eq!(
            decide_action(mode, Progress::InFragment, FrameKind::Last),
            clean(Action::DeliverJoined)
        );
        assert_eq!(decide_action(mode, Progress::Idle, FrameKind::Eof), clean(Action::Finish));
        for progress in [Progress::Idle, Progress::InFragment, Progress::Broken] {
            assert_eq!(decide_action(mode, progress, FrameKind::Trailer), clean(Action::Pass));
        }
        assert_eq!(decide_action(mode, Progress::Idle, FrameKind::Foreign), clean(Action::Pass));
        assert_eq!(decide_action(mode, Progress::InFragment, FrameKind::Foreign), clean(Action::Poison));
        assert_eq!(decide_action(mode, Progress::Broken, FrameKind::Foreign), clean(Action::Poison));
    }
}

#[test]
fn damage_by_mode() {
    for mode in MODES {
        let damage = |action| Decision { action: if passing(mode) { action } else { Action::Fail }, damage: true };
        for progress in [Progress::InFragment, Progress::Broken] {
            assert_eq!(decide_action(mode, progress, FrameKind::Full), damage(Action::Deliver));
            assert_eq!(decide_action(mode, progress, FrameKind::First), damage(Action::Begin));
        }
        for progress in [Progress::Idle, Progress::Broken] {
            assert_eq!(decide_action(mode, progress, FrameKind::Middle), damage(Action::Discard));
            assert_eq!(decide_action(mode, progress, FrameKind::Last), damage(Action::Discard));
        }
        for progress in [Progress::Idle, Progress::InFragment, Progress::Broken] {
            assert_eq!(decide_action(mode, progress, FrameKind::BadLength), damage(Action::Discard));
            assert_eq!(decide_action(mode, progress, FrameKind::BadChecksum), damage(Action::Discard));
        }
        let torn = Decision {
            action: if mode == WALRecoveryMode::AbsoluteConsistency { Action::Fail } else { Action::Finish },
            damage: true,
        };
        for progress in [Progress::Idle, Progress::InFragment, Progress::Broken] {
            assert_eq!(decide_action(mode, progress, FrameKind::Truncated), torn);
        }
        assert_eq!(decide_action(mode, Progress::InFragment, FrameKind::Eof), torn);
        assert_eq!(decide_action(mode, Progress::Broken, FrameKind::Eof), torn);
    }
}

#[test]
fn states() {
    assert!(State::ok().is_ok());
    assert_eq!(State::ok().message(), "");
    assert_eq!(State::ok().get_code(), Code::KOk);
    assert!(!State::new(Code::KIOError, "cannot append".to_string(), "".to_string()).is_ok());
    assert!(!State::new(Code::KCorruption, "".to_string(), "".to_string()).is_ok());
    assert!(State::new(Code::KOk, "".to_string(), "".to_string()).is_ok());
    assert_eq!(State::new(Code::KCorruption, "".to_string(), "".to_string()).get_code(), Code::KCorruption);
}

#[test]
fn default_options() {
    let op = EnvOptions::default();
    assert!(!op.use_mmap_reads);
    assert!(!op.use_direct_reads);
    assert!(op.set_fd_cloexec);
    assert_eq!(op.writable_file_max_buffer_size, 1024 * 1024);
    assert_eq!(op.bytes_per_sync, 0);
}

#[test]
fn lock_file() {
    assert_eq!(lock_file_name("db".to_string()), "db/LOC");
    assert_eq!(lock_file_name("".to_string()), "/LOC");
}

#[test]
fn what_becomes_of_a_block() {
    // a whole block, a short block that ends the file, and no bytes at all
    assert_eq!(after_block_read(true, BLOCK_SIZE, 0), Some((32768, false)));
    assert_eq!(after_block_read(true, 10, 65536), Some((65546, true)));
    assert_eq!(after_block_read(true, 0, 7), Some((7, true)));
    // the file has failed, gave more than was asked, or is too long
    assert_eq!(after_block_read(false, 10, 0), None);
    assert_eq!(after_block_read(true, BLOCK_SIZE + 1, 0), None);
    assert_eq!(after_block_read(true, 2, u64::MAX - 1), None);
    assert_eq!(after_block_read(true, 1, u64::MAX - 1), Some((u64::MAX, true)));
}
