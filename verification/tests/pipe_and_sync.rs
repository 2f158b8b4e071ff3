use std::sync::Arc;
use rcore_os::fs::inode::{open_file_action, OpenAction, OpenFlags};
use rcore_os::fs::pipe::{pipe_read_round, pipe_read_step, pipe_write_step, Pipe, PipeRingBuffer, PipeStep, RING_BUFFER_SIZE};
use rcore_os::sync::up::{IntrMaskingInfo, UpIntrFreeCell};

#[test]
fn ring_buffer_is_first_in_first_out() {
    let mut r = PipeRingBuffer::new();
    assert_eq!(r.available_read(), 0);
    assert_eq!(r.available_write(), RING_BUFFER_SIZE);
    for b in [10u8, 20, 30] {
        r.write_byte(b);
    }
    assert_eq!(r.available_read(), 3);
    assert_eq!(r.available_write(), RING_BUFFER_SIZE - 3);
    assert_eq!(r.read_byte(), 10);
    assert_eq!(r.read_byte(), 20);
    r.write_byte(40);
    assert_eq!(r.read_byte(), 30);
    assert_eq!(r.read_byte(), 40);
    assert_eq!(r.available_read(), 0);
}

#[test]
fn ring_buffer_wraps_around_and_fills() {
    let mut r = PipeRingBuffer::new();
    for i in 0..20u8 {
        r.write_byte(i);
    }
    for i in 0..20u8 {
        assert_eq!(r.read_byte(), i);
    }
    for i in 0..RING_BUFFER_SIZE as u8 {
        r.write_byte(100 + i);
    }
    assert_eq!(r.available_read(), RING_BUFFER_SIZE);
    assert_eq!(r.available_write(), 0);
    assert_eq!(r.read_byte(), 100);
}

#[test]
fn pipe_write_then_read_steps() {
    let buffer = Arc::new(UpIntrFreeCell::new(PipeRingBuffer::new()));
    let write_end = Arc::new(Pipe::write_end_with_buffer(buffer.clone()));
    let read_end = Pipe::read_end_with_buffer(buffer);
    assert!(read_end.readable() && !read_end.writable());
    assert!(write_end.writable() && !write_end.readable());
    let mut ring = PipeRingBuffer::new();
    ring.set_write_end(&write_end);
    assert!(!ring.all_write_end_closed());
    let src: Vec<u8> = (0..40u8).collect();
    // the first round fills the buffer, the second must wait
    assert_eq!(pipe_write_step(&mut ring, &src, 0), PipeStep::Again);
    assert_eq!(pipe_write_step(&mut ring, &src, RING_BUFFER_SIZE), PipeStep::Wait);
    let mut dst = Vec::new();
    assert_eq!(pipe_read_step(&mut ring, &mut dst, 10), PipeStep::Done(10));
    assert_eq!(dst, (0..10u8).collect::<Vec<u8>>());
    assert_eq!(pipe_write_step(&mut ring, &src, RING_BUFFER_SIZE), PipeStep::Done(40));
    let mut rest = Vec::new();
    assert_eq!(pipe_read_step(&mut ring, &mut rest, 100), PipeStep::Again);
    assert_eq!(rest, (10..40u8).collect::<Vec<u8>>());
    // nothing buffered and a writer alive: wait
    assert_eq!(pipe_read_step(&mut ring, &mut rest, 100), PipeStep::Wait);
    drop(write_end);
    assert!(ring.all_write_end_closed());
    assert_eq!(pipe_read_step(&mut ring, &mut rest, 100), PipeStep::Done(30));
}

#[test]
fn interrupt_masking_nests() {
    let mut info = IntrMaskingInfo::new();
    info.enter(true);
    info.enter(false);
    assert_eq!(info.nested_level, 2);
    assert!(!info.exit());
    assert!(info.exit());
    assert_eq!(info.nested_level, 0);
    info.enter(false);
    assert!(!info.exit());
}

#[test]
fn open_flags_read_write() {
    assert_eq!(OpenFlags::from_bits(0).unwrap().read_write(), (true, false));
    assert_eq!(OpenFlags::from_bits(OpenFlags::WRONY).unwrap().read_write(), (false, true));
    assert_eq!(OpenFlags::from_bits(OpenFlags::RDRW).unwrap().read_write(), (true, true));
    let f = OpenFlags::from_bits(OpenFlags::CREATE | OpenFlags::WRONY).unwrap();
    assert!(f.contains(OpenFlags::CREATE));
    assert!(!f.contains(OpenFlags::TRUNC));
    assert_eq!(f.read_write(), (false, true));
    assert!(OpenFlags::from_bits(0).unwrap().is_empty());
}

#[test]
fn opening_by_name_decides_create_clear_or_fail() {
    let create = OpenFlags::from_bits(OpenFlags::CREATE | OpenFlags::RDRW).unwrap();
    let trunc_w = OpenFlags::from_bits(OpenFlags::TRUNC | OpenFlags::WRONY).unwrap();
    let read = OpenFlags::from_bits(OpenFlags::RDONY).unwrap();
    assert_eq!(open_file_action(&create, true), OpenAction::Open { clear: true, readable: true, writable: true });
    assert_eq!(open_file_action(&create, false), OpenAction::Create { readable: true, writable: true });
    assert_eq!(open_file_action(&trunc_w, true), OpenAction::Open { clear: true, readable: false, writable: true });
    assert_eq!(open_file_action(&read, true), OpenAction::Open { clear: false, readable: true, writable: false });
    assert_eq!(open_file_action(&read, false), OpenAction::Fail);
    // the method form never creates a missing file
    assert_eq!(create.open_file_action(false), OpenAction::Fail);
    assert_eq!(create.open_file_action(true), OpenAction::Open { clear: true, readable: true, writable: true });
    assert_eq!(read.open_file_action(true), OpenAction::Open { clear: false, readable: true, writable: false });
}

#[test]
fn empty_pipe_read_ends_exactly_when_writers_are_gone() {
    let mut ring = PipeRingBuffer::new();
    let mut dst = vec![1u8];
    assert_eq!(pipe_read_round(&mut ring, &mut dst, 4, true), PipeStep::Done(1));
    assert_eq!(pipe_read_round(&mut ring, &mut dst, 4, false), PipeStep::Wait);
    ring.write_byte(7);
    assert_eq!(pipe_read_round(&mut ring, &mut dst, 4, true), PipeStep::Again);
    assert_eq!(dst, vec![1, 7]);
}
