use std::cmp;
use std::io::{self, Write};

use lz4_frame::{Lz4ReadBuf, Lz4WriteBuf};

struct TestWrite {
    data: Vec<u8>,
    max_write_size: usize,
}

impl TestWrite {
    fn new(data: Vec<u8>, max_write_size: usize) -> Self {
        TestWrite {
            data: data,
            max_write_size: max_write_size,
        }
    }

    fn completed(&self) -> bool {
        self.data.len() == 0
    }
}

impl Write for TestWrite {
    fn write(&mut self, buf: &[u8]) -> io::Result<usize> {
        assert!(buf.len() <= self.data.len());
        let n = cmp::min(buf.len(), self.max_write_size);
        assert_eq!(&buf[..n], &self.data[..n]);
        self.data.drain(..n);
        Ok(n)
    }

    fn flush(&mut self) -> io::Result<()> {
        Ok(())
    }
}

fn drain(w: &mut Lz4WriteBuf, tw: &mut TestWrite) -> io::Result<()> {
    tw.write_all(&w.take_output())
}

#[test]
fn test_write_buf() {
    let data: Vec<u8> = (0..1024).map(|x| (x & 255) as u8).collect();
    let mut tw = TestWrite::new(data.clone(), 100);
    let mut w = Lz4WriteBuf::with_capacity(512);

    let shift = 2;
    w.write(&data[..shift]);
    assert!(drain(&mut w, &mut tw).is_ok());
    assert_eq!(w.end(), shift);

    w.write(&data[shift..shift + 256]);
    assert!(drain(&mut w, &mut tw).is_ok());
    assert_eq!(w.end(), shift + 256);

    w.copy_from_offset(256, 64);
    assert!(drain(&mut w, &mut tw).is_ok());
    assert_eq!(w.end(), shift + 256 + 64);

    w.copy_from_offset(256, 128);
    assert!(drain(&mut w, &mut tw).is_ok());
    assert_eq!(w.end(), shift + 256 + 64 + 128);

    w.copy_from_offset(256, 64);
    assert!(drain(&mut w, &mut tw).is_ok());
    assert_eq!(w.end(), shift);

    w.copy_from_offset(256, 256);
    assert!(drain(&mut w, &mut tw).is_ok());
    assert_eq!(w.end(), shift + 256);

    w.copy_from_offset(256, 256 - shift);
    assert!(drain(&mut w, &mut tw).is_ok());
    assert_eq!(w.end(), 0);

    assert!(tw.completed());
}

#[test]
fn test_write_buf_overlap() {
    // [1, 1, ..., 1, 2, 2, ..., 2, 3, 3, ..., 3, 4, 4, ..., 4]
    //  |<-  256  ->| |<-  256  ->| |<-  256  ->| |<-  256  ->|
    let data: Vec<u8> = (0..1024).map(|x| (x / 256) as u8).collect();

    let mut tw = TestWrite::new(data.clone(), 100);
    let mut w = Lz4WriteBuf::with_capacity(128);

    // 0
    w.write(&data[..2]);
    assert!(drain(&mut w, &mut tw).is_ok());
    assert_eq!(w.end(), 2);

    // 1
    w.copy_from_offset(2, 254);
    assert!(drain(&mut w, &mut tw).is_ok());

    w.write(&data[256..256 + 1]);
    assert!(drain(&mut w, &mut tw).is_ok());

    // 2
    w.copy_from_offset(1, 255);
    assert!(drain(&mut w, &mut tw).is_ok());

    // 3
    w.write(&data[512..512 + 56]);
    assert!(drain(&mut w, &mut tw).is_ok());

    w.copy_from_offset(56, 200);
    assert!(drain(&mut w, &mut tw).is_ok());

    // 4
    w.write(&data[768..768 + 127]);
    assert!(drain(&mut w, &mut tw).is_ok());

    w.copy_from_offset(127, 129);
    assert!(drain(&mut w, &mut tw).is_ok());

    assert!(tw.completed());
}

#[test]
fn write_buf_capacity_rounds_up() {
    let mut w = Lz4WriteBuf::with_capacity(100);
    w.write(&[9u8; 128]);
    assert_eq!(w.end(), 0);
    assert_eq!(w.take_output().len(), 128);
}

#[test]
fn write_buf_run_from_offset_one() {
    let mut w = Lz4WriteBuf::with_capacity(16);
    w.write(&[7u8, 8u8]);
    w.copy_from_offset(1, 40);
    let out = w.take_output();
    let mut expected = vec![7u8, 8u8];
    expected.extend(std::iter::repeat(8u8).take(40));
    assert_eq!(out, expected);
    assert!(w.take_output().is_empty());
}

#[test]
fn write_buf_offset_reads_initial_zeros() {
    let mut w = Lz4WriteBuf::with_capacity(8);
    w.write(&[5u8]);
    w.copy_from_offset(3, 3);
    assert_eq!(w.take_output(), vec![5u8, 0, 0, 5]);
}

#[test]
fn read_buf_rounds_capacity() {
    assert_eq!(Lz4ReadBuf::with_capacity(0).capacity(), 1);
    assert_eq!(Lz4ReadBuf::with_capacity(5).capacity(), 8);
    assert_eq!(Lz4ReadBuf::with_capacity(64).capacity(), 64);
}

#[test]
fn read_buf_stage_and_consume() {
    let mut b = Lz4ReadBuf::with_capacity(16);
    b.extend_read(&[9u8, 0x04, 0x22, 0x4D, 0x18, 0x77], 1, 5);
    assert_eq!(b.len(), 5);
    assert_eq!(b.get_u32(0), 0x184D2204);
    assert_eq!(b.byte_at(4), 0x77);
    assert_eq!(b.pop_byte(), Some(0x04));
    b.consume(3);
    assert_eq!(b.len(), 1);
    assert_eq!(b.pop_byte(), Some(0x77));
    assert_eq!(b.pop_byte(), None);
}

#[test]
fn read_buf_compact_is_idempotent() {
    let mut b = Lz4ReadBuf::with_capacity(8);
    b.extend_read(&[1u8, 2, 3, 4, 5], 0, 5);
    b.consume(2);
    b.compact();
    assert_eq!(b.len(), 3);
    assert_eq!(b.head_index(), 0);
    b.compact();
    assert_eq!(b.len(), 3);
    assert_eq!(b.head_index(), 0);
    assert_eq!(b.byte_at(0), 3);
    // After compaction the whole remaining capacity is free again.
    b.extend_read(&[6u8, 7, 8, 9, 10], 0, 5);
    assert_eq!(b.len(), 8);
    assert_eq!(b.get_u32(4), u32::from_le_bytes([7, 8, 9, 10]));
}

#[test]
fn write_buf_offset_equal_to_capacity() {
    let mut w = Lz4WriteBuf::with_capacity(8);
    w.write(&[1u8, 2, 3, 4, 5, 6, 7, 8]);
    w.copy_from_offset(8, 11);
    let out = w.take_output();
    assert_eq!(&out[8..], &[1u8, 2, 3, 4, 5, 6, 7, 8, 1, 2, 3]);
}

#[test]
fn write_buf_long_write_restarts_cursor() {
    let mut w = Lz4WriteBuf::with_capacity(4);
    w.write(&[1u8, 2, 3, 4, 5]);
    assert_eq!(w.end(), 0);
    w.copy_from_offset(4, 4);
    assert_eq!(w.end(), 0);
    w.write(&[6u8, 7]);
    assert_eq!(w.end(), 2);
    w.copy_from_offset(3, 2);
    assert_eq!(w.take_output(), vec![1u8, 2, 3, 4, 5, 2, 3, 4, 5, 6, 7, 5, 6]);
}
