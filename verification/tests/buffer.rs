use cibo::util::aligned_buffer::truncate_to_page_boundary;
use cibo::util::aligned_buffer::AlignedBuffer;

fn buffer(alignment: usize, capacity: usize) -> AlignedBuffer {
    let mut b = AlignedBuffer::default();
    b.alignment(alignment);
    b.allocate_new_buffer(capacity, false);
    b
}

#[test]
fn page_boundary() {
    assert_eq!(truncate_to_page_boundary(4096, 0), 0);
    assert_eq!(truncate_to_page_boundary(4096, 4095), 0);
    assert_eq!(truncate_to_page_boundary(4096, 4096), 4096);
    assert_eq!(truncate_to_page_boundary(4096, 10_000), 8192);
    assert_eq!(truncate_to_page_boundary(512, 1023), 512);
}

#[test]
fn default_buffer_is_empty() {
    let b = AlignedBuffer::default();
    assert_eq!(b.get_alignment(), 1);
    assert_eq!(b.get_capacity(), 0);
    assert_eq!(b.get_current_size(), 0);
}

#[test]
fn capacity_is_rounded_up() {
    let b = buffer(4096, 65536);
    assert_eq!(b.get_alignment(), 4096);
    assert_eq!(b.get_capacity(), 65536);
    assert_eq!(buffer(4096, 1).get_capacity(), 4096);
    assert_eq!(buffer(4096, 4097).get_capacity(), 8192);
    assert_eq!(buffer(512, 0).get_capacity(), 0);
}

#[test]
fn append_stops_at_capacity() {
    let mut b = buffer(8, 16);
    assert_eq!(b.append(&[1, 2, 3, 4, 5, 6, 7, 8, 9, 10], 10), 10);
    assert_eq!(b.get_current_size(), 10);
    assert_eq!(b.append(&[11, 12, 13, 14, 15, 16, 17, 18], 8), 6);
    assert_eq!(b.get_current_size(), 16);
    assert_eq!(b.append(&[99], 1), 0);
    assert_eq!(b.read(0, 16), (1..=16).collect::<Vec<u8>>());
    // only a part of what is handed over is asked to be taken
    let mut c = buffer(8, 16);
    assert_eq!(c.append(&[1, 2, 3, 4], 2), 2);
    assert_eq!(c.read(0, 100), vec![1, 2]);
}

#[test]
fn read_is_cut_to_what_is_there() {
    let mut b = buffer(8, 16);
    b.append(&[1, 2, 3, 4, 5], 5);
    assert_eq!(b.read(1, 3), vec![2, 3, 4]);
    assert_eq!(b.read(3, 100), vec![4, 5]);
    assert_eq!(b.read(5, 1), Vec::<u8>::new());
    assert_eq!(b.read(7, 1), Vec::<u8>::new());
    assert_eq!(b.read(0, 0), Vec::<u8>::new());
}

#[test]
fn growing_keeps_the_bytes() {
    let mut b = buffer(8, 8);
    b.append(&[1, 2, 3, 4, 5], 5);
    b.allocate_new_buffer(20, true);
    assert_eq!(b.get_capacity(), 24);
    assert_eq!(b.get_current_size(), 5);
    assert_eq!(b.read(0, 24), vec![1, 2, 3, 4, 5]);
    // a request below what is held is ignored
    b.allocate_new_buffer(3, true);
    assert_eq!(b.get_capacity(), 24);
    assert_eq!(b.read(0, 24), vec![1, 2, 3, 4, 5]);
    // without copying the buffer is emptied
    b.allocate_new_buffer(3, false);
    assert_eq!(b.get_capacity(), 8);
    assert_eq!(b.get_current_size(), 0);
}

#[test]
fn padding_and_refitting() {
    let mut b = buffer(8, 24);
    b.append(&[1, 2, 3, 4, 5, 6, 7, 8, 9, 10, 11], 11);
    b.pad_to_alignment_with(0);
    assert_eq!(b.get_current_size(), 16);
    assert_eq!(b.read(0, 16), vec![1, 2, 3, 4, 5, 6, 7, 8, 9, 10, 11, 0, 0, 0, 0, 0]);
    b.pad_to_alignment_with(7);
    assert_eq!(b.get_current_size(), 16);
    b.refit_tail(8, 3);
    assert_eq!(b.get_current_size(), 3);
    assert_eq!(b.read(0, 16), vec![9, 10, 11]);
    b.size(5);
    assert_eq!(b.read(0, 16), vec![9, 10, 11, 4, 5]);
    b.size(0);
    assert_eq!(b.get_current_size(), 0);
    b.pad_to_alignment_with(9);
    assert_eq!(b.get_current_size(), 0);
}

#[test]
fn padding_with_a_byte() {
    let mut b = buffer(4, 8);
    b.append(&[1], 1);
    b.pad_to_alignment_with(0xee);
    assert_eq!(b.read(0, 8), vec![1, 0xee, 0xee, 0xee]);
}
