use waki::body::{BodyError, ByteCursor};
use waki::multipart::{Form, MediaType, Part, StreamingForm, StreamingPart};

#[test]
fn eager_build_of_one_part() {
    let mut form = Form::new().text("name", b"John Doe");
    form.boundary = "--FormBoundary0123456789".to_string();
    let out = String::from_utf8(form.build()).unwrap();
    assert_eq!(
        out,
        "----FormBoundary0123456789\r\ncontent-disposition: form-data; name=name\r\n\r\nJohn Doe\r\n----FormBoundary0123456789--"
    );
}

#[test]
fn eager_build_of_no_parts() {
    let form = Form::new();
    let expected = format!("--{}--", form.boundary());
    assert_eq!(form.build(), expected.into_bytes());
}

#[test]
fn generated_boundary_shape() {
    let form = Form::new();
    let b = form.boundary();
    assert_eq!(b.len(), 24);
    assert!(b.starts_with("--FormBoundary"));
    assert!(b[14..].chars().all(|c| c.is_ascii_alphanumeric()));
}

#[test]
fn eager_names_in_added_order() {
    let out = Form::new().text("first", b"1").text("second", b"2").text("third", b"3").build();
    let s = String::from_utf8(out).unwrap();
    let a = s.find("name=first").unwrap();
    let b = s.find("name=second").unwrap();
    let c = s.find("name=third").unwrap();
    assert!(a < b && b < c);
}

#[test]
fn eager_and_streaming_agree() {
    let boundary = "--FormBoundaryQWERTYuiop".to_string();
    let mut form = Form::new()
        .text("a", b"alpha")
        .part(
            Part::new("f", b"file body")
                .filename("f.txt")
                .mime_str("text/plain")
                .unwrap()
                .headers(vec![("x-k".to_string(), "v".to_string())]),
        );
    form.boundary = boundary.clone();
    let mut streaming = StreamingForm::new().text("a", b"alpha").part(
        StreamingPart::from_reader("f", ByteCursor::new(b"file body".to_vec()))
            .filename("f.txt")
            .mime_str("text/plain")
            .unwrap()
            .headers(vec![("x-k".to_string(), "v".to_string())]),
    );
    streaming.boundary = boundary;
    let eager = form.build();
    let streamed = streaming.into_reader().read_to_end(5).unwrap();
    assert_eq!(eager, streamed);
}

#[test]
fn mime_str_rejects_text_that_is_no_media_type() {
    let r = Part::new("k", b"v").mime_str("not a mime");
    assert!(matches!(r, Err(BodyError::MimeParseFailed)));
    let s = StreamingPart::<ByteCursor>::text("k", b"v").mime_str("");
    assert!(matches!(s, Err(BodyError::MimeParseFailed)));
}

#[test]
fn mime_str_keeps_the_parsed_text() {
    let p = Part::new("k", b"v").mime_str("image/png").unwrap();
    assert_eq!(p.mime, Some("image/png".to_string()));
}

#[test]
fn file_part_guesses_type_and_name() {
    let p = Part::file("upload", "some/dir/photo.png", vec![1, 2, 3]);
    assert_eq!(p.mime, Some("image/png".to_string()));
    assert_eq!(p.filename, Some("photo.png".to_string()));
    assert_eq!(p.value, vec![1, 2, 3]);
    let q = StreamingPart::file("upload", "archive.unknownext", ByteCursor::new(vec![]));
    assert_eq!(q.mime, Some("application/octet-stream".to_string()));
    assert_eq!(q.filename, Some("archive.unknownext".to_string()));
}

#[test]
fn form_file_adds_part_with_guessed_fields() {
    let mut form = Form::new().file("doc", "notes.txt", b"hello".to_vec());
    form.boundary = "B".to_string();
    let out = String::from_utf8(form.build()).unwrap();
    assert_eq!(
        out,
        "--B\r\ncontent-disposition: form-data; name=doc; filename=\"notes.txt\"\r\ncontent-type: text/plain\r\n\r\nhello\r\n--B--"
    );
}

#[test]
fn media_type_parses_or_is_refused() {
    assert_eq!(MediaType::parse("Text/HTML").unwrap().as_str(), "text/html");
    assert!(MediaType::parse("nonsense").is_none());
    let p = Part::new("k", b"v").mime(MediaType::parse("image/png").unwrap());
    assert_eq!(p.mime, Some("image/png".to_string()));
}
