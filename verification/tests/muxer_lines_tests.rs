use peerswarm::lines::LineBuffer;
use peerswarm::muxer::MuxedConn;
use peerswarm::Error;

#[test]
fn streams_get_distinct_identifiers() {
    let mut conn = MuxedConn::new();
    let s1 = conn.open_stream().expect("connection is open");
    let s2 = conn.open_stream().expect("connection is open");
    let s3 = conn.open_stream().expect("connection is open");
    assert_ne!(s1, s2);
    assert_ne!(s2, s3);
    assert_ne!(s1, s3);
}

#[test]
fn closing_one_stream_leaves_the_others() {
    let mut conn = MuxedConn::new();
    let s1 = conn.open_stream().expect("open");
    let s2 = conn.open_stream().expect("open");
    conn.close_stream(s1).expect("stream is open");
    assert!(!conn.is_open(s1));
    assert!(conn.is_open(s2));
    assert!(matches!(conn.close_stream(s1), Err(Error::ConnectionClosed)));
}

#[test]
fn closing_the_connection_fails_all_stream_operations() {
    let mut conn = MuxedConn::new();
    let s1 = conn.open_stream().expect("open");
    conn.close();
    assert!(!conn.is_open(s1));
    assert!(matches!(conn.open_stream(), Err(Error::ConnectionClosed)));
    assert!(matches!(conn.close_stream(s1), Err(Error::ConnectionClosed)));
}

#[test]
fn dummy_muxer_presents_exactly_one_stream() {
    let (conn, stream) = MuxedConn::dummy();
    assert!(conn.is_open(stream));
    assert_eq!(conn.open.len(), 1);
}

#[test]
fn lines_split_on_terminators() {
    let mut buf = LineBuffer::new();
    let mut lines: Vec<Vec<u8>> = Vec::new();
    for b in b"hello\nworld\r\n".iter() {
        if let Some(line) = buf.feed(*b) {
            lines.push(line);
        }
    }
    assert_eq!(lines, vec![b"hello".to_vec(), b"world".to_vec()]);
}

#[test]
fn empty_lines_are_skipped() {
    let mut buf = LineBuffer::new();
    let mut count = 0;
    for b in b"\n\r\n\na\n".iter() {
        if buf.feed(*b).is_some() {
            count += 1;
        }
    }
    assert_eq!(count, 1, "only the nonempty line comes out");
}

#[test]
fn partial_line_stays_buffered() {
    let mut buf = LineBuffer::new();
    for b in b"no terminator yet".iter() {
        assert!(buf.feed(*b).is_none());
    }
    let line = buf.feed(b'\n').expect("terminator ends the line");
    assert_eq!(line, b"no terminator yet".to_vec());
}
