use waki::body::ByteCursor;
use waki::multipart::{MediaType, StreamingContent, StreamingForm, StreamingFormReader, StreamingPart};

fn drain(reader: &mut StreamingFormReader<ByteCursor>) -> Vec<u8> {
    reader.read_to_end(8192).expect("Failed to read from streaming form")
}

fn position(haystack: &[u8], needle: &[u8]) -> Option<usize> {
    haystack.windows(needle.len()).position(|w| w == needle)
}

#[test]
fn test_streaming_part_from_reader() {
    let data = b"Hello, streaming world!";
    let cursor = ByteCursor::new(data.to_vec());

    let part = StreamingPart::from_reader("test", cursor)
        .filename("test.txt")
        .mime_str("text/plain")
        .expect("Failed to set mime type");

    assert_eq!(part.key, "test");
    assert_eq!(part.filename, Some("test.txt".to_string()));
    assert!(part.mime.is_some());
}

#[test]
fn test_streaming_part_text() {
    let part = StreamingPart::<ByteCursor>::text("key", b"value");

    assert_eq!(part.key, "key");
    assert!(part.filename.is_none());
    assert!(matches!(part.content, StreamingContent::Bytes(_)));
}

#[test]
fn test_streaming_form_builder() {
    let form = StreamingForm::<ByteCursor>::new()
        .text("field1", b"value1")
        .text("field2", b"value2");

    assert!(!form.boundary().is_empty());
    assert!(form.boundary().starts_with("--FormBoundary"));
}

#[test]
fn test_streaming_form_reader_with_text_only() {
    let form = StreamingForm::<ByteCursor>::new().text("name", b"John Doe");

    let mut reader = form.into_reader();
    let output = String::from_utf8(drain(&mut reader)).expect("Failed to read from streaming form");

    assert!(output.contains("content-disposition: form-data; name=name"));
    assert!(output.contains("John Doe"));
}

#[test]
fn test_streaming_form_reader_with_mixed_content() {
    let data = b"Binary content here";
    let cursor = ByteCursor::new(data.to_vec());

    let form = StreamingForm::new().text("text_field", b"Some text").part(
        StreamingPart::from_reader("file_field", cursor)
            .filename("data.bin")
            .mime_str("application/octet-stream")
            .expect("Failed to set mime"),
    );

    let mut reader = form.into_reader();
    let output = drain(&mut reader);

    let output_str = String::from_utf8_lossy(&output);

    assert!(output_str.contains("content-disposition: form-data; name=text_field"));
    assert!(output_str.contains("Some text"));
    assert!(output_str.contains("content-disposition: form-data; name=file_field"));
    assert!(output_str.contains("filename=\"data.bin\""));
    assert!(output_str.contains("content-type: application/octet-stream"));
    assert!(output.windows(data.len()).any(|window| window == data));
}

#[test]
fn test_streaming_form_reader_chunks_correctly() {
    let large_data = vec![b'X'; 1024];
    let cursor = ByteCursor::new(large_data.clone());

    let form = StreamingForm::new().part(
        StreamingPart::from_reader("file", cursor)
            .filename("large.txt")
            .mime_str("text/plain")
            .expect("Failed to set mime"),
    );

    let mut reader = form.into_reader();

    let mut total_read = 0;
    loop {
        match reader.read(64) {
            Ok(chunk) if chunk.is_empty() => break,
            Ok(chunk) => {
                assert!(chunk.len() <= 64);
                total_read += chunk.len();
            }
            Err(e) => panic!("Read error: {:?}", e),
        }
    }

    assert!(
        total_read > large_data.len(),
        "Should read more than just file content due to headers"
    );
}

#[test]
fn test_streaming_form_reader_eof() {
    let form = StreamingForm::<ByteCursor>::new().text("field", b"value");
    let mut reader = form.into_reader();

    let _ = reader.read_to_end(4096).expect("Failed to read to end");

    let n = reader.read(10).expect("Failed to read after EOF").len();
    assert_eq!(n, 0, "Should return 0 bytes at EOF");
}

#[test]
fn test_streaming_part_reader_content_enum() {
    let bytes_part = StreamingPart::<ByteCursor>::text("key", &[1, 2, 3]);
    assert!(matches!(bytes_part.content, StreamingContent::Bytes(_)));

    let cursor = ByteCursor::new(vec![4, 5, 6]);
    let reader_part = StreamingPart::from_reader("key", cursor);
    assert!(matches!(reader_part.content, StreamingContent::Reader(_)));
}

#[test]
fn test_multiple_parts_ordering() {
    let form = StreamingForm::<ByteCursor>::new()
        .text("first", b"1")
        .text("second", b"2")
        .text("third", b"3");

    let mut reader = form.into_reader();
    let output = String::from_utf8(drain(&mut reader)).expect("Failed to read");

    let first_pos = output.find("name=first").expect("first field not found");
    let second_pos = output.find("name=second").expect("second field not found");
    let third_pos = output.find("name=third").expect("third field not found");

    assert!(first_pos < second_pos, "Fields should appear in order");
    assert!(second_pos < third_pos, "Fields should appear in order");
}

#[test]
fn test_empty_form() {
    let form = StreamingForm::<ByteCursor>::new();
    let mut reader = form.into_reader();
    let output = String::from_utf8(drain(&mut reader)).expect("Failed to read");

    assert!(output.contains("--FormBoundary"));
}

#[test]
fn empty_form_is_only_the_closing_delimiter() {
    let form = StreamingForm::<ByteCursor>::new();
    let expected = format!("--{}--", form.boundary());
    let mut reader = form.into_reader();
    assert_eq!(drain(&mut reader), expected.into_bytes());
}

#[test]
fn single_text_part_is_written_exactly() {
    let form = StreamingForm::<ByteCursor>::new().text("name", b"John Doe");
    let b = form.boundary().to_string();
    let mut reader = form.into_reader();
    let output = String::from_utf8(drain(&mut reader)).unwrap();
    let expected = format!(
        "--{b}\r\ncontent-disposition: form-data; name=name\r\n\r\nJohn Doe\r\n--{b}--"
    );
    assert_eq!(output, expected);
    assert!(output.ends_with(&format!("--{b}--")));
}

#[test]
fn header_block_carries_filename_mime_and_headers_in_order() {
    let part = StreamingPart::from_reader("f", ByteCursor::new(b"xyz".to_vec()))
        .filename("a.txt")
        .mime(MediaType::parse("text/plain").unwrap())
        .headers(vec![
            ("x-one".to_string(), "1".to_string()),
            ("x-two".to_string(), "2".to_string()),
            ("x-one".to_string(), "3".to_string()),
        ]);
    let form = StreamingForm::new().part(part);
    let b = form.boundary().to_string();
    let mut reader = form.into_reader();
    let output = String::from_utf8(drain(&mut reader)).unwrap();
    let expected = format!(
        "--{b}\r\ncontent-disposition: form-data; name=f; filename=\"a.txt\"\r\ncontent-type: text/plain\r\nx-one: 1\r\nx-two: 2\r\nx-one: 3\r\n\r\nxyz\r\n--{b}--"
    );
    assert_eq!(output, expected);
}

#[test]
fn reads_after_the_end_stay_empty() {
    let mut reader = StreamingForm::<ByteCursor>::new().text("k", b"v").into_reader();
    let _ = drain(&mut reader);
    for _ in 0..5 {
        assert!(reader.read(1024).unwrap().is_empty());
    }
}

#[test]
fn one_byte_and_large_reads_yield_the_same_body() {
    let make = |b: &str| {
        let mut f = StreamingForm::new()
            .text("a", b"alpha")
            .part(StreamingPart::from_reader("b", ByteCursor::new(vec![7u8; 3000])).filename("b.bin"))
            .text("c", b"");
        f.boundary = b.to_string();
        f.into_reader()
    };
    let mut small = make("--FormBoundaryabcdefghij");
    let mut large = make("--FormBoundaryabcdefghij");
    let mut by_one = Vec::new();
    loop {
        let c = small.read(1).unwrap();
        if c.is_empty() {
            break;
        }
        assert_eq!(c.len(), 1);
        by_one.extend_from_slice(&c);
    }
    let at_once = large.read_to_end(1 << 20).unwrap();
    assert_eq!(by_one, at_once);
}

#[test]
fn zero_length_read_yields_nothing_and_loses_nothing() {
    let mut reader = StreamingForm::new()
        .part(StreamingPart::from_reader("r", ByteCursor::new(b"data".to_vec())))
        .into_reader();
    let mut out = Vec::new();
    loop {
        assert!(reader.read(0).unwrap().is_empty());
        let c = reader.read(3).unwrap();
        if c.is_empty() {
            break;
        }
        out.extend_from_slice(&c);
    }
    assert!(out.windows(4).any(|w| w == b"data"));
}

#[test]
fn ordering_of_three_parts_in_bytes() {
    let mut reader = StreamingForm::<ByteCursor>::new()
        .text("first", b"1")
        .text("second", b"2")
        .text("third", b"3")
        .into_reader();
    let out = drain(&mut reader);
    let a = position(&out, b"name=first").unwrap();
    let b = position(&out, b"name=second").unwrap();
    let c = position(&out, b"name=third").unwrap();
    assert!(a < b && b < c);
}
