use session_link::framing::FrameBuffer;

#[test]
fn a_chunk_with_whole_frames() {
    let mut buffer = FrameBuffer::new();
    let frames = buffer.push(b"one\ntwo\n");
    assert_eq!(frames, vec![b"one\n".to_vec(), b"two\n".to_vec()]);
    assert_eq!(buffer.len(), 0);
}

#[test]
fn a_frame_in_pieces() {
    let mut buffer = FrameBuffer::new();
    assert!(buffer.push(b"on").is_empty());
    assert_eq!(buffer.len(), 2);
    assert!(buffer.push(b"").is_empty());
    assert_eq!(buffer.push(b"e\ntw"), vec![b"one\n".to_vec()]);
    assert_eq!(buffer.len(), 2);
    assert_eq!(buffer.push(b"o\n\nrest"), vec![b"two\n".to_vec(), b"\n".to_vec()]);
    assert_eq!(buffer.len(), 4);
}

#[test]
fn frames_written_back_to_back_are_read_one_by_one() {
    let written = [b"alpha\n".to_vec(), b"\n".to_vec(), b"gamma delta\n".to_vec()];
    let stream: Vec<u8> = written.concat();
    for cut in 0..=stream.len() {
        let mut buffer = FrameBuffer::new();
        let mut read = buffer.push(&stream[..cut]);
        read.extend(buffer.push(&stream[cut..]));
        assert_eq!(read, written.to_vec());
        assert_eq!(buffer.len(), 0);
    }
}
