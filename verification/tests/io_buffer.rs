use tpx::io::{WriteBuffer, WRITE_BUFFER_LIMIT};

fn apply(disk: &mut Vec<u8>, ws: Vec<tpx::io::FileWrite>) {
    for w in ws {
        let off = w.offset as usize;
        if disk.len() < off + w.bytes.len() {
            disk.resize(off + w.bytes.len(), 0);
        }
        disk[off..off + w.bytes.len()].copy_from_slice(&w.bytes);
    }
}

#[test]
fn small_appends_gather_until_flushed() {
    let mut b = WriteBuffer::new(0);
    let mut disk = Vec::new();
    let (o1, w1) = b.append(&[1, 2, 3]);
    let (o2, w2) = b.append(&[4]);
    assert_eq!((o1, o2), (0, 3));
    assert!(w1.is_empty() && w2.is_empty());
    assert!(b.must_flush_before_read(0, 1));
    apply(&mut disk, b.flush());
    assert_eq!(disk, vec![1, 2, 3, 4]);
    assert!(!b.must_flush_before_read(0, 4));
}

#[test]
fn large_append_is_written_at_once() {
    let mut b = WriteBuffer::new(10);
    let mut disk = vec![0u8; 10];
    let (_, w) = b.append(&[9, 9]);
    apply(&mut disk, w);
    let big = vec![5u8; WRITE_BUFFER_LIMIT];
    let (off, w) = b.append(&big);
    assert_eq!(off, 12);
    assert_eq!(w.len(), 2);
    apply(&mut disk, w);
    assert_eq!(&disk[10..12], &[9, 9]);
    assert_eq!(disk.len(), 12 + WRITE_BUFFER_LIMIT);
    assert_eq!(b.logical_len, (12 + WRITE_BUFFER_LIMIT) as u64);
}

#[test]
fn positioned_write_flushes_and_extends() {
    let mut b = WriteBuffer::new(0);
    let mut disk = Vec::new();
    let _ = b.append(&[1, 1]);
    let ws = b.write_at(5, &[7]);
    apply(&mut disk, ws);
    assert_eq!(disk, vec![1, 1, 0, 0, 0, 7]);
    assert_eq!(b.logical_len, 6);
    b.truncate(2);
    assert_eq!(b.logical_len, 2);
    assert!(b.buffer.is_empty());
}
