use neqo_transport::{Stream, StreamError};

fn read_all(s: &mut Stream) -> Vec<u8> {
    let mut buf = [0u8; 256];
    let n = s.read(&mut buf).unwrap() as usize;
    buf[..n].to_vec()
}

#[test]
fn new_stream_is_empty() {
    let mut s = Stream::new();
    assert_eq!(s.next_tx_offset(), 0);
    assert!(!s.data_ready());
    let mut buf = [7u8; 4];
    assert_eq!(s.read(&mut buf).unwrap(), 0);
    assert_eq!(buf, [7u8; 4]);
}

#[test]
fn default_is_new() {
    let mut s = Stream::default();
    assert_eq!(s.next_tx_offset(), 0);
    assert!(!s.data_ready());
    assert_eq!(read_all(&mut s), Vec::<u8>::new());
}

#[test]
fn send_side_counts_offset() {
    let mut s = Stream::new();
    s.send(b"abc");
    s.send(b"");
    assert_eq!(s.next_tx_offset(), 0);
    s.add_to_tx_offset(2);
    s.add_to_tx_offset(3);
    assert_eq!(s.next_tx_offset(), 5);
    assert!(!s.data_ready());
}

#[test]
fn in_order_frame_is_delivered() {
    let mut s = Stream::new();
    assert_eq!(s.inbound_stream_frame(false, 0, b"hello".to_vec()).unwrap(), 5);
    assert!(s.data_ready());
    assert_eq!(read_all(&mut s), b"hello".to_vec());
    assert!(!s.data_ready());
}

#[test]
fn duplicate_frame_adds_nothing() {
    let mut s = Stream::new();
    assert_eq!(s.inbound_stream_frame(false, 0, b"abcde".to_vec()).unwrap(), 5);
    assert_eq!(s.inbound_stream_frame(false, 0, b"abcde".to_vec()).unwrap(), 0);
    assert_eq!(read_all(&mut s), b"abcde".to_vec());
    assert_eq!(s.inbound_stream_frame(false, 5, b"fg".to_vec()).unwrap(), 2);
    assert_eq!(read_all(&mut s), b"fg".to_vec());
}

#[test]
fn duplicate_pending_frame_adds_nothing() {
    let mut s = Stream::new();
    assert_eq!(s.inbound_stream_frame(false, 3, b"de".to_vec()).unwrap(), 0);
    assert_eq!(s.inbound_stream_frame(false, 3, b"de".to_vec()).unwrap(), 0);
    assert!(!s.data_ready());
    assert_eq!(s.inbound_stream_frame(false, 0, b"abc".to_vec()).unwrap(), 5);
    assert_eq!(read_all(&mut s), b"abcde".to_vec());
}

#[test]
fn frames_in_any_order_give_the_stream() {
    let data = b"the quick brown fox".to_vec();
    let parts: Vec<(u64, Vec<u8>)> = vec![
        (0, data[0..4].to_vec()),
        (4, data[4..10].to_vec()),
        (10, data[10..16].to_vec()),
        (16, data[16..].to_vec()),
    ];
    let orders: Vec<Vec<usize>> = vec![
        vec![0, 1, 2, 3],
        vec![3, 2, 1, 0],
        vec![2, 0, 3, 1],
        vec![1, 3, 0, 2],
    ];
    for order in orders {
        let mut s = Stream::new();
        let mut total = 0u64;
        for i in order {
            let (off, bytes) = parts[i].clone();
            total += s.inbound_stream_frame(false, off, bytes).unwrap();
        }
        assert_eq!(total, data.len() as u64);
        assert_eq!(read_all(&mut s), data);
    }
}

#[test]
fn gap_blocks_progress() {
    let mut s = Stream::new();
    assert_eq!(s.inbound_stream_frame(false, 0, b"01234".to_vec()).unwrap(), 5);
    assert_eq!(read_all(&mut s), b"01234".to_vec());
    assert_eq!(s.inbound_stream_frame(false, 10, b"abcde".to_vec()).unwrap(), 0);
    assert!(!s.data_ready());
    assert_eq!(s.inbound_stream_frame(false, 5, b"56789".to_vec()).unwrap(), 10);
    assert!(s.data_ready());
    assert_eq!(read_all(&mut s), b"56789abcde".to_vec());
}

#[test]
fn partial_overlap_delivers_only_new_bytes() {
    let mut s = Stream::new();
    assert_eq!(s.inbound_stream_frame(false, 0, b"abcde".to_vec()).unwrap(), 5);
    assert_eq!(s.inbound_stream_frame(false, 3, b"DEfghijklm".to_vec()).unwrap(), 8);
    assert_eq!(read_all(&mut s), b"abcdefghijklm".to_vec());
}

#[test]
fn stale_frame_adds_nothing() {
    let mut s = Stream::new();
    assert_eq!(s.inbound_stream_frame(false, 0, b"abcdef".to_vec()).unwrap(), 6);
    assert_eq!(s.inbound_stream_frame(false, 1, b"xy".to_vec()).unwrap(), 0);
    assert_eq!(read_all(&mut s), b"abcdef".to_vec());
}

#[test]
fn same_start_different_lengths() {
    let mut s = Stream::new();
    assert_eq!(s.inbound_stream_frame(false, 2, b"cd".to_vec()).unwrap(), 0);
    assert_eq!(s.inbound_stream_frame(false, 2, b"cdef".to_vec()).unwrap(), 0);
    assert_eq!(s.inbound_stream_frame(false, 0, b"ab".to_vec()).unwrap(), 6);
    assert_eq!(read_all(&mut s), b"abcdef".to_vec());
}

#[test]
fn read_is_bounded_by_buffer() {
    let mut s = Stream::new();
    assert_eq!(s.inbound_stream_frame(false, 0, b"abcdefgh".to_vec()).unwrap(), 8);
    let mut small = [0u8; 3];
    assert_eq!(s.read(&mut small).unwrap(), 3);
    assert_eq!(&small, b"abc");
    assert!(s.data_ready());
    let mut big = [9u8; 10];
    assert_eq!(s.read(&mut big).unwrap(), 5);
    assert_eq!(&big[..5], b"defgh");
    assert_eq!(&big[5..], &[9u8; 5]);
    assert!(!s.data_ready());
    assert_eq!(s.inbound_stream_frame(false, 8, b"i".to_vec()).unwrap(), 1);
    assert!(s.data_ready());
}

#[test]
fn read_into_empty_buffer() {
    let mut s = Stream::new();
    assert_eq!(s.inbound_stream_frame(false, 0, b"ab".to_vec()).unwrap(), 2);
    let mut empty: [u8; 0] = [];
    assert_eq!(s.read(&mut empty).unwrap(), 0);
    assert!(s.data_ready());
    assert_eq!(read_all(&mut s), b"ab".to_vec());
}

#[test]
fn end_to_end_hello_world() {
    let mut s = Stream::new();
    assert_eq!(s.inbound_stream_frame(false, 5, b"world".to_vec()).unwrap(), 0);
    assert!(!s.data_ready());
    assert_eq!(s.inbound_stream_frame(false, 0, b"hello".to_vec()).unwrap(), 10);
    assert!(s.data_ready());
    let mut buf = [0u8; 10];
    assert_eq!(s.read(&mut buf).unwrap(), 10);
    assert_eq!(&buf, b"helloworld");
    assert!(!s.data_ready());
}

#[test]
fn fin_frame_is_delivered() {
    let mut s = Stream::new();
    assert_eq!(s.inbound_stream_frame(true, 3, b"def".to_vec()).unwrap(), 0);
    assert_eq!(s.inbound_stream_frame(false, 0, b"abc".to_vec()).unwrap(), 6);
    assert_eq!(s.inbound_stream_frame(true, 6, Vec::new()).unwrap(), 0);
    assert_eq!(read_all(&mut s), b"abcdef".to_vec());
}

#[test]
fn empty_frame_at_cursor_adds_nothing() {
    let mut s = Stream::new();
    assert_eq!(s.inbound_stream_frame(false, 0, Vec::new()).unwrap(), 0);
    assert!(!s.data_ready());
    assert_eq!(s.inbound_stream_frame(false, 0, b"a".to_vec()).unwrap(), 1);
}

#[test]
fn frame_beyond_range_is_refused() {
    let mut s = Stream::new();
    assert_eq!(
        s.inbound_stream_frame(false, u64::MAX - 1, b"abc".to_vec()),
        Err(StreamError::FrameBeyondRange)
    );
    assert!(!s.data_ready());
    assert_eq!(s.inbound_stream_frame(false, u64::MAX - 3, b"abc".to_vec()).unwrap(), 0);
    assert_eq!(s.inbound_stream_frame(false, 0, b"x".to_vec()).unwrap(), 1);
    assert_eq!(read_all(&mut s), b"x".to_vec());
}
