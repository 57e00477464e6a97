//! Reading a buffered multipart body part by part.

use taskflow::http::multipart::Multipart;
use taskflow::http::multipart::boundary_from_content_type;
use taskflow::http::multipart::parse_header_block;

fn header_value<'a>(headers: &'a [(String, String)], name: &str) -> Option<&'a str> {
    headers
        .iter()
        .find(|(n, _)| n == name)
        .map(|(_, v)| v.as_str())
}

#[test]
fn multipart_parts_are_cut_and_headers_read() {
    let boundary = "abhjdahkdhfsikldhjfliawefrkhkahskda";
    let content_type = format!("multipart/form-data; boundary={boundary}");

    let body = format!(
        "--{boundary}\nContent-Type: application/http\nContent-ID: response-\n\nHTTP/1.1 200 OK\npayload one\n\n--{boundary}\nContent-Type: application/http\nContent-ID: response-\n\nHTTP/1.1 400 BAD REQUEST\npayload two\n\n--{boundary}--"
    )
    .replace('\n', "\r\n");

    let marker = boundary_from_content_type(&content_type).expect("multipart content type");
    assert_eq!(marker, format!("--{boundary}"));

    let mut parts = Multipart::new(marker.into_bytes(), body.into_bytes()).expect("boundary found");

    let mut seen = 0;
    while let Some((header_block, payload)) = parts.next() {
        let headers = parse_header_block(header_block);
        assert_eq!(header_value(&headers, "Content-Type"), Some("application/http"));
        assert_eq!(header_value(&headers, "Content-ID"), Some("response-"));
        let text = String::from_utf8(payload).unwrap();
        assert!(text.contains('\r'));
        assert!(text.contains("payload"));
        seen += 1;
    }
    assert_eq!(seen, 2);
}

#[test]
fn non_multipart_content_type_is_rejected() {
    assert!(boundary_from_content_type("application/json").is_err());
}

#[test]
fn body_without_boundary_is_rejected() {
    let r = Multipart::new(b"--missing".to_vec(), b"plain body".to_vec());
    assert!(r.is_err());
}
