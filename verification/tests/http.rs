use upnp::http::{
    code_404, content_length_header, default_img_headers, default_vid_headers,
    default_xml_headers, Method, Request, RequestError,
};

#[test]
fn test_http() {}

fn lines(v: &[&str]) -> Vec<String> {
    v.iter().map(|s| s.to_string()).collect()
}

#[test]
fn method_names_round_trip() {
    for m in [Method::GET, Method::POST] {
        assert_eq!(Method::from_str(&m.to_str()), Some(m));
    }
    assert_eq!(Method::GET.to_str(), "GET");
    assert_eq!(Method::from_str("PUT"), None);
    assert_eq!(Method::from_str("get"), None);
    assert_eq!(Method::from_str("HEAD"), None);
}

#[test]
fn request_line_parts() {
    let (m, url, http) = Request::method_url_and_http("GET /icon.png HTTP/1.1").unwrap();
    assert_eq!(m, Method::GET);
    assert_eq!(url, "/icon.png");
    assert_eq!(http, "HTTP/1.1");
}

#[test]
fn request_line_errors() {
    assert_eq!(
        Request::method_url_and_http("FETCH / HTTP/1.1").err(),
        Some(RequestError::BadMethod)
    );
    assert_eq!(
        Request::method_url_and_http("GET /").err(),
        Some(RequestError::MalformedRequestLine)
    );
    // two spaces give an empty URL part
    let (_, url, http) = Request::method_url_and_http("GET  /x").unwrap();
    assert_eq!(url, "");
    assert_eq!(http, "/x");
}

#[test]
fn headers_are_split_at_first_colon_and_trimmed() {
    let hs = Request::get_headers(&lines(&["Host: 192.168.1.3:8900", "  X-A :  b c "])).unwrap();
    assert_eq!(
        hs,
        vec![
            ("Host".to_string(), "192.168.1.3:8900".to_string()),
            ("X-A".to_string(), "b c".to_string())
        ]
    );
    assert_eq!(
        Request::get_headers(&lines(&["no colon"])).err(),
        Some(RequestError::MalformedHeader)
    );
}

#[test]
fn header_lines_wait_for_blank_line() {
    assert_eq!(Request::get_header_lines(b"GET / HTTP/1.1\r\nHost: a\r\n").unwrap(), None);
    let data = b"GET / HTTP/1.1\r\nHost: a\r\n\r\nBODY";
    let (ls, used) = Request::get_header_lines(data).unwrap().unwrap();
    assert_eq!(ls, vec!["GET / HTTP/1.1".to_string(), "Host: a".to_string()]);
    assert_eq!(used, 27);
    assert_eq!(&data[used..], b"BODY");
}

#[test]
fn header_lines_refuse_invalid_utf8() {
    assert_eq!(
        Request::get_header_lines(b"GET /\xff HTTP/1.1\n\n").err(),
        Some(RequestError::InvalidUtf8)
    );
}

#[test]
fn new_request_get_and_post() {
    let (req, len) = Request::new(&lines(&["GET /rootDesc.xml HTTP/1.1", "Host: a"])).unwrap();
    assert_eq!(req.method, Method::GET);
    assert_eq!(req.url, "/rootDesc.xml");
    assert_eq!(req.http_info, "HTTP/1.1");
    assert!(req.body.is_none());
    assert_eq!(len, None);

    let (req, len) = Request::new(&lines(&[
        "POST /control/content_dir HTTP/1.1",
        "Content-Length: 10",
        "Content-Length: 42",
    ]))
    .unwrap();
    assert_eq!(req.method, Method::POST);
    assert_eq!(len, Some(42));
}

#[test]
fn new_request_errors() {
    assert_eq!(Request::new(&[]).err(), Some(RequestError::EmptyRequest));
    assert_eq!(
        Request::new(&lines(&["POST /x HTTP/1.1"])).err(),
        Some(RequestError::MissingContentLength)
    );
    assert_eq!(
        Request::new(&lines(&["POST /x HTTP/1.1", "Content-Length: ten"])).err(),
        Some(RequestError::BadContentLength)
    );
    assert_eq!(
        Request::new(&lines(&["GET /x HTTP/1.1", "bad"])).err(),
        Some(RequestError::MalformedHeader)
    );
}

#[test]
fn fixed_response_headers() {
    assert_eq!(
        default_xml_headers(),
        b"HTTP/1.1 200 OK\r\nConnection: close\r\nContent-Type: text/xml; charset=\"utf-8\"\r\n".to_vec()
    );
    assert_eq!(
        default_img_headers(),
        b"HTTP/1.1 200 OK\r\nConnection: close\r\nContent-Type: image/png\r\n".to_vec()
    );
    assert_eq!(
        default_vid_headers(),
        b"HTTP/1.1 200 OK\r\nConnection: close\r\nContent-Type: video/mp4\r\n".to_vec()
    );
    assert_eq!(code_404(), b"HTTP/1.1 404 Not Found\r\n\r\n".to_vec());
    assert_eq!(content_length_header(1234), b"Content-Length: 1234\r\n\r\n".to_vec());
    assert_eq!(content_length_header(0), b"Content-Length: 0\r\n\r\n".to_vec());
}
