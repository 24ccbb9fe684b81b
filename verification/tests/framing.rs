use lean_to::framing::{encode_frame, read_message, write_header, HeaderReader, HeaderStep, ReadError};

#[test]
fn frame_has_header_and_body() {
    assert_eq!(encode_frame(b"{}"), b"Content-Length: 2\r\n\r\n{}".to_vec());
    assert_eq!(encode_frame(b""), b"Content-Length: 0\r\n\r\n".to_vec());
}

#[test]
fn header_is_appended() {
    let mut out = b"x".to_vec();
    write_header(&mut out, 1234567890);
    assert_eq!(out, b"xContent-Length: 1234567890\r\n\r\n".to_vec());
    let mut big = Vec::new();
    write_header(&mut big, usize::MAX);
    assert_eq!(big, format!("Content-Length: {}\r\n\r\n", usize::MAX).into_bytes());
}

#[test]
fn written_frame_is_read_back() {
    let mut stream = encode_frame(b"hello");
    let header = b"Content-Length: 5\r\n\r\n".to_vec();
    assert_eq!(read_message(&stream), Ok(Some((header.clone(), b"hello".to_vec()))));
    stream.extend_from_slice(b"Content-Length: 1\r\n\r\nx");
    assert_eq!(read_message(&stream), Ok(Some((header, b"hello".to_vec()))));
}

#[test]
fn other_fields_and_bare_line_feeds_are_taken() {
    let stream = b"Content-Type: x\nContent-Length:  +3 \n\nabcdef";
    let (header, body) = read_message(stream).unwrap().unwrap();
    assert_eq!(header, b"Content-Type: x\nContent-Length:  +3 \n\n".to_vec());
    assert_eq!(body, b"abc".to_vec());
}

#[test]
fn the_last_length_counts() {
    let stream = b"Content-Length: 1\r\nContent-Length: 2\r\n\r\nabc";
    assert_eq!(read_message(stream).unwrap().unwrap().1, b"ab".to_vec());
}

#[test]
fn an_empty_stream_holds_no_frame() {
    assert_eq!(read_message(b""), Ok(None));
}

#[test]
fn broken_frames_are_refused() {
    assert_eq!(read_message(b"Content-Length: 1\r\n"), Err(ReadError::EofInHeaders));
    assert_eq!(read_message(b"Content-Length: \xff\r\n\r\n"), Err(ReadError::NonUtf8Length));
    assert_eq!(read_message(b"Content-Length: x\r\n\r\n"), Err(ReadError::InvalidLength));
    assert_eq!(read_message(b"Content-Length: -1\r\n\r\n"), Err(ReadError::InvalidLength));
    assert_eq!(read_message(b"Content-Length: +\r\n\r\n"), Err(ReadError::InvalidLength));
    assert_eq!(read_message(b"Content-Length:\r\n\r\n"), Err(ReadError::InvalidLength));
    assert_eq!(
        read_message(b"Content-Length: 99999999999999999999999\r\n\r\n"),
        Err(ReadError::InvalidLength)
    );
    assert_eq!(read_message(b"content-length: 1\r\n\r\nx"), Err(ReadError::MissingLength));
    assert_eq!(read_message(b"\r\n"), Err(ReadError::MissingLength));
    assert_eq!(read_message(b"Content-Length: 3\r\n\r\nab"), Err(ReadError::EofInBody));
}

#[test]
fn errors_have_their_messages() {
    assert_eq!(ReadError::EofInHeaders.message(), "EOF inside LSP headers");
    assert_eq!(ReadError::NonUtf8Length.message(), "non-utf8 Content-Length");
    assert_eq!(ReadError::InvalidLength.message(), "invalid Content-Length");
    assert_eq!(ReadError::MissingLength.message(), "missing Content-Length header");
    assert_eq!(ReadError::EofInBody.message(), "early eof");
}

#[test]
fn a_header_is_read_line_by_line() {
    let mut r = HeaderReader::new();
    assert_eq!(r.feed(b"Content-Length: 7\r\n"), HeaderStep::More);
    assert_eq!(r.feed(b"\r\n"), HeaderStep::Body(7));
    assert_eq!(r.into_bytes(), b"Content-Length: 7\r\n\r\n".to_vec());
    let mut end = HeaderReader::new();
    assert_eq!(end.feed(b""), HeaderStep::End);
}
