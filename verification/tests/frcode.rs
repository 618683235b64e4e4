use nix_index::frcode::{
    is_terminator_free, shared_prefix, take_block, Decoder, Encoder, Error,
};

fn encode(blocks: &[&[&[u8]]]) -> Vec<u8> {
    let mut encoder = Encoder::new();
    for block in blocks {
        encoder.start_block();
        for record in *block {
            encoder.write_record(record);
        }
    }
    encoder.finish()
}

#[test]
fn encode_then_decode_gives_the_records_back() {
    let stream = encode(&[&[b"/bin/foo", b"/bin/foobar", b"/share/doc"]]);
    let mut decoder = Decoder::new(stream);
    assert_eq!(decoder.decode(), Ok(b"/bin/foo\n/bin/foobar\n/share/doc\n".to_vec()));
    assert_eq!(decoder.decode(), Ok(Vec::new()));
    assert_eq!(decoder.decode(), Ok(Vec::new()));
}

#[test]
fn encoded_bytes_of_a_block() {
    let stream = encode(&[&[b"/bin/foo", b"/bin/foobar", b"/sbin"], &[b"/sbin/x"]]);
    assert_eq!(
        stream,
        b"\xff\x00/bin/foo\n\x08bar\n\x01sbin\n\xff\x00/sbin/x\n".to_vec()
    );
}

#[test]
fn blocks_come_back_one_at_a_time() {
    let stream = encode(&[&[b"a", b"ab"], &[b"abc"], &[b"", b"x"]]);
    let mut decoder = Decoder::new(stream);
    assert_eq!(decoder.decode(), Ok(b"a\nab\n".to_vec()));
    assert_eq!(decoder.decode(), Ok(b"abc\n".to_vec()));
    assert_eq!(decoder.decode(), Ok(b"\nx\n".to_vec()));
    assert_eq!(decoder.decode(), Ok(Vec::new()));
}

#[test]
fn boundaries_do_not_change_the_records() {
    let one = encode(&[&[b"/a", b"/a/b", b"/a/c"]]);
    let three = encode(&[&[b"/a"], &[b"/a/b"], &[b"/a/c"]]);
    assert_ne!(one, three);
    let mut all = Vec::new();
    let mut decoder = Decoder::new(three);
    loop {
        let block = decoder.decode().unwrap();
        if block.is_empty() {
            break;
        }
        all.extend(block);
    }
    assert_eq!(Decoder::new(one).decode(), Ok(all));
}

#[test]
fn long_shared_prefix_takes_three_bytes() {
    let a = vec![b'a'; 300];
    let mut b = a.clone();
    b.push(b'b');
    assert_eq!(shared_prefix(&a, &b), 300);
    let stream = encode(&[&[&a, &b]]);
    assert_eq!(&stream[stream.len() - 5..], &[0xfe, 1, 44, b'b', b'\n']);
    let mut expected = a.clone();
    expected.push(b'\n');
    expected.extend(&b);
    expected.push(b'\n');
    assert_eq!(Decoder::new(stream).decode(), Ok(expected));
}

#[test]
fn shared_prefix_is_cut_at_its_maximum() {
    let a = vec![b'a'; 70000];
    assert_eq!(shared_prefix(&a, &a), 0xffff);
    assert_eq!(shared_prefix(b"abc", b"abd"), 2);
    assert_eq!(shared_prefix(b"", b"abd"), 0);
    let mut encoder = Encoder::new();
    encoder.write_record(b"a");
    encoder.write_record(&a);
    encoder.write_record(&a);
    let stream = encoder.finish();
    assert_eq!(&stream[..4], b"\xff\x00a\n");
    assert_eq!(&stream[4..6], b"\x01a");
    assert_eq!(&stream[70005..70009], b"\xff\x00aa");
    let mut decoder = Decoder::new(stream);
    let mut expected = b"a\n".to_vec();
    expected.extend(&a);
    expected.push(b'\n');
    assert_eq!(decoder.decode(), Ok(expected));
    let mut expected = a.clone();
    expected.push(b'\n');
    assert_eq!(decoder.decode(), Ok(expected));
    assert_eq!(decoder.decode(), Ok(Vec::new()));
    let mut stream = b"\xff\x00".to_vec();
    stream.extend(&a);
    stream.extend(b"\n\xfe\xff\xffb\n");
    let mut expected = a.clone();
    expected.push(b'\n');
    expected.extend(&a[..0xffff]);
    expected.extend(b"b\n");
    assert_eq!(Decoder::new(stream).decode(), Ok(expected));
}

#[test]
fn a_full_block_is_followed_by_a_new_one() {
    let mut encoder = Encoder::new();
    let record = vec![b'r'; 1000];
    for i in 0..40u8 {
        let mut r = vec![b'A' + i];
        r.extend(&record);
        encoder.write_record(&r);
    }
    let mut decoder = Decoder::new(encoder.finish());
    let first = decoder.decode().unwrap();
    let second = decoder.decode().unwrap();
    assert_eq!(first.len(), 33 * 1002);
    assert_eq!(second.len(), 7 * 1002);
    assert_eq!(decoder.decode(), Ok(Vec::new()));
}

#[test]
fn a_stream_that_lacks_its_boundary_is_refused() {
    let mut decoder = Decoder::new(vec![0, b'a', b'\n']);
    assert_eq!(decoder.decode(), Err(Error::BadBoundary));
    assert_eq!(decoder.decode(), Err(Error::BadBoundary));
}

#[test]
fn a_boundary_without_a_record_is_refused() {
    assert_eq!(Decoder::new(vec![0xff]).decode(), Err(Error::BadBoundary));
    assert_eq!(Decoder::new(vec![0xff, 0xff, 0, b'\n']).decode(), Err(Error::BadBoundary));
}

#[test]
fn a_record_without_its_end_is_refused() {
    assert_eq!(Decoder::new(vec![0xff, 0, b'a']).decode(), Err(Error::Truncated));
    assert_eq!(Decoder::new(vec![0xff, 0xfe, 0]).decode(), Err(Error::Truncated));
    assert_eq!(Decoder::new(b"\xff\x00a\n\x01".to_vec()).decode(), Err(Error::Truncated));
}

#[test]
fn a_prefix_longer_than_the_record_before_is_refused() {
    assert_eq!(Decoder::new(b"\xff\x01a\n".to_vec()).decode(), Err(Error::PrefixTooLong));
    assert_eq!(Decoder::new(b"\xff\x00ab\n\x03c\n".to_vec()).decode(), Err(Error::PrefixTooLong));
    assert_eq!(
        Decoder::new(b"\xff\x00ab\n\x02c\n".to_vec()).decode(),
        Ok(b"ab\nabc\n".to_vec())
    );
}

#[test]
fn records_may_hold_the_bytes_of_the_framing() {
    let stream = encode(&[&[b"\xff\xfe", b"\xff\xfe\xff", b"\xfe"], &[b"\xff", b"\xff\xff"]]);
    let mut decoder = Decoder::new(stream);
    assert_eq!(decoder.decode(), Ok(b"\xff\xfe\n\xff\xfe\xff\n\xfe\n".to_vec()));
    assert_eq!(decoder.decode(), Ok(b"\xff\n\xff\xff\n".to_vec()));
    assert_eq!(decoder.decode(), Ok(Vec::new()));
}

#[test]
fn records_with_a_terminator_are_told_apart() {
    assert!(is_terminator_free(b""));
    assert!(is_terminator_free(b"abc\x00\xff"));
    assert!(!is_terminator_free(b"abc\n"));
    assert!(!is_terminator_free(b"\nabc"));
}

#[test]
fn whole_blocks_are_taken_from_the_bytes_that_have_arrived() {
    let stream = encode(&[&[b"/a", b"/ab"], &[b"/b"]]);
    assert_eq!(stream, b"\xff\x00/a\n\x02b\n\xff\x00/b\n".to_vec());
    let mut buffer = Vec::new();
    assert_eq!(take_block(&mut buffer, false), Ok(None));
    assert_eq!(take_block(&mut buffer, true), Ok(None));
    buffer.extend_from_slice(&stream[..1]);
    assert_eq!(take_block(&mut buffer, false), Ok(None));
    buffer.extend_from_slice(&stream[1..6]);
    assert_eq!(take_block(&mut buffer, false), Ok(None));
    buffer.extend_from_slice(&stream[6..8]);
    assert_eq!(take_block(&mut buffer, false), Ok(None));
    assert_eq!(buffer, stream[..8].to_vec());
    buffer.extend_from_slice(&stream[8..10]);
    assert_eq!(take_block(&mut buffer, false), Ok(Some(b"/a\n/ab\n".to_vec())));
    assert_eq!(buffer, stream[8..10].to_vec());
    buffer.extend_from_slice(&stream[10..]);
    assert_eq!(take_block(&mut buffer, false), Ok(None));
    assert_eq!(take_block(&mut buffer, true), Ok(Some(b"/b\n".to_vec())));
    assert!(buffer.is_empty());
    assert_eq!(take_block(&mut buffer, true), Ok(None));
}

#[test]
fn faults_in_the_bytes_that_have_arrived() {
    let mut buffer = b"x".to_vec();
    assert_eq!(take_block(&mut buffer, false), Err(Error::BadBoundary));
    assert_eq!(buffer, b"x".to_vec());
    let mut buffer = b"\xff".to_vec();
    assert_eq!(take_block(&mut buffer, false), Ok(None));
    assert_eq!(take_block(&mut buffer, true), Err(Error::BadBoundary));
    let mut buffer = b"\xff\xff".to_vec();
    assert_eq!(take_block(&mut buffer, false), Err(Error::BadBoundary));
    let mut buffer = b"\xff\x00ab".to_vec();
    assert_eq!(take_block(&mut buffer, false), Ok(None));
    assert_eq!(take_block(&mut buffer, true), Err(Error::Truncated));
    let mut buffer = b"\xff\x00ab\n\x03".to_vec();
    assert_eq!(take_block(&mut buffer, false), Err(Error::PrefixTooLong));
    assert_eq!(buffer, b"\xff\x00ab\n\x03".to_vec());
}
