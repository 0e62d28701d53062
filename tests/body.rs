use waki::multipart::StreamingForm;
use waki::body::{
    stream_to_outgoing_body, write_to_outgoing_body, Body, BodyError, ByteCursor,
    IncomingBodyStream, InputStream, MemorySink,
};

#[test]
fn writes_whole_buffer_across_small_permits() {
    let data: Vec<u8> = (0..200u8).collect();
    let mut sink = MemorySink::new(vec![1, 3, 0, 7, 64]);
    write_to_outgoing_body(&mut sink, &data).unwrap();
    assert_eq!(sink.data(), &data[..]);
    assert!(sink.opened());
    assert!(sink.write_calls() > 1);
}

#[test]
fn writes_whole_buffer_with_one_large_permit() {
    let data = b"single write".to_vec();
    let mut sink = MemorySink::new(vec![1 << 20]);
    write_to_outgoing_body(&mut sink, &data).unwrap();
    assert_eq!(sink.data(), &data[..]);
    assert_eq!(sink.write_calls(), 1);
}

#[test]
fn empty_buffer_touches_no_sink() {
    let mut sink = MemorySink::new(vec![5]);
    write_to_outgoing_body(&mut sink, &[]).unwrap();
    assert_eq!(sink.write_calls(), 0);
    assert!(!sink.opened());
    assert!(sink.data().is_empty());
}

#[test]
fn streams_producer_into_sink() {
    let data: Vec<u8> = (0..150_000u32).map(|i| (i % 251) as u8).collect();
    let mut reader = ByteCursor::new(data.clone());
    let mut sink = MemorySink::new(vec![10_000, 777]);
    stream_to_outgoing_body(&mut sink, &mut reader).unwrap();
    assert_eq!(sink.data(), &data[..]);
}

#[test]
fn streams_empty_producer() {
    let mut reader = ByteCursor::new(vec![]);
    let mut sink = MemorySink::new(vec![]);
    stream_to_outgoing_body(&mut sink, &mut reader).unwrap();
    assert!(sink.data().is_empty());
    assert_eq!(sink.write_calls(), 0);
}

#[test]
fn streams_multipart_reader_output() {
    let form = StreamingForm::<ByteCursor>::new().text("k", b"v");
    let b = form.boundary().to_string();
    let mut body = form.into_reader().read_to_end(3).unwrap();
    let mut sink = MemorySink::new(vec![2]);
    write_to_outgoing_body(&mut sink, &body).unwrap();
    assert_eq!(sink.data(), &body[..]);
    body.clear();
    assert!(String::from_utf8(sink.data().to_vec()).unwrap().ends_with(&format!("--{b}--")));
}

#[test]
fn input_stream_chunks_then_closes() {
    let mut s = InputStream::new(ByteCursor::new(b"abcdefg".to_vec()));
    assert_eq!(s.chunk(3).unwrap(), Some(b"abc".to_vec()));
    assert_eq!(s.chunk(3).unwrap(), Some(b"def".to_vec()));
    assert_eq!(s.chunk(3).unwrap(), Some(b"g".to_vec()));
    assert_eq!(s.chunk(3).unwrap(), None);
    assert_eq!(s.chunk(0).unwrap(), Some(vec![]));
}

#[test]
fn body_chunk_by_variant() {
    let mut bytes: Body<ByteCursor> = Body::Bytes(b"abc".to_vec());
    assert_eq!(bytes.chunk(2).unwrap(), None);
    let mut reader: Body<ByteCursor> = Body::Reader(ByteCursor::new(b"abc".to_vec()));
    assert_eq!(reader.chunk(2).unwrap(), None);
    let mut stream: Body<ByteCursor> =
        Body::Stream(IncomingBodyStream::from(ByteCursor::new(b"abc".to_vec())));
    assert_eq!(stream.chunk(2).unwrap(), Some(b"ab".to_vec()));
    assert_eq!(stream.chunk(2).unwrap(), Some(b"c".to_vec()));
    assert_eq!(stream.chunk(2).unwrap(), None);
}

#[test]
fn body_bytes_of_each_variant() {
    let data: Vec<u8> = (0..3_000_000u32).map(|i| (i % 13) as u8).collect();
    let b: Body<ByteCursor> = Body::Bytes(b"mem".to_vec());
    assert_eq!(b.bytes().unwrap(), b"mem".to_vec());
    let s: Body<ByteCursor> = Body::Stream(IncomingBodyStream::from(ByteCursor::new(data.clone())));
    assert_eq!(s.bytes().unwrap(), data);
    let r: Body<ByteCursor> = Body::Reader(ByteCursor::new(b"reader".to_vec()));
    assert_eq!(r.bytes().unwrap(), b"reader".to_vec());
    let e: Body<ByteCursor> = Body::Stream(IncomingBodyStream::from(ByteCursor::new(vec![])));
    assert_eq!(e.bytes().unwrap(), Vec::<u8>::new());
}

#[test]
fn error_kinds_compare() {
    assert_ne!(BodyError::SourceReadFailed, BodyError::MimeParseFailed);
}

#[test]
fn each_write_takes_the_permit_or_what_is_left() {
    let data = b"twelve bytes".to_vec();
    let mut sink = MemorySink::new(vec![5]);
    write_to_outgoing_body(&mut sink, &data).unwrap();
    assert_eq!(sink.data(), &data[..]);
    assert_eq!(sink.write_calls(), 3);
}

#[test]
fn streamed_producer_is_written_chunk_by_chunk() {
    let data = vec![3u8; 65536 * 2 + 10];
    let mut reader = ByteCursor::new(data.clone());
    let mut sink = MemorySink::new(vec![1 << 20]);
    stream_to_outgoing_body(&mut sink, &mut reader).unwrap();
    assert_eq!(sink.data(), &data[..]);
    assert_eq!(sink.write_calls(), 3);
}
