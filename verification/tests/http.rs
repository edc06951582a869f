use rust_server::http::request::{Next, RequestParser};
use rust_server::http::route::{route, Route};
use rust_server::http::{
    Headers, HttpBody, HttpMethod, HttpRequest, HttpResponse, HttpStatus, HttpVersion, ParseError,
};

#[test]
fn parse_get_without_body() {
    let request = HttpRequest::build(b"GET / HTTP/1.1\r\nHost: x\r\n\r\n").unwrap();
    assert_eq!(HttpMethod::GET, request.method);
    assert_eq!("/", request.path);
    assert_eq!(HttpVersion::OnePointOne, request.version);
    assert_eq!(1, request.headers.len());
    assert_eq!(Some(&["x".to_owned()][..]), request.headers.get("Host"));
    assert!(request.body.is_none());
    assert_eq!("GET / HTTP/1.1\r\nHost: x\r\n\r\n", request.raw_request);
}

#[test]
fn parse_post_with_body() {
    let request =
        HttpRequest::build(b"POST /x HTTP/1.1\r\nContent-Length: 5\r\n\r\nhello").unwrap();
    assert_eq!(HttpMethod::POST, request.method);
    assert_eq!("/x", request.path);
    assert_eq!(b"hello", request.body.as_ref().unwrap().as_bytes());
    assert_eq!("hello", request.body.unwrap().as_str_lossy());
    assert_eq!(
        "POST /x HTTP/1.1\r\nContent-Length: 5\r\n\r\nhello",
        request.raw_request
    );
}

#[test]
fn parse_post_with_short_body() {
    let request =
        HttpRequest::build(b"POST /x HTTP/1.1\r\nContent-Length: 5\r\n\r\nhi").unwrap();
    assert!(request.body.is_none());
    assert_eq!("POST /x HTTP/1.1\r\nContent-Length: 5\r\n\r\n", request.raw_request);
}

#[test]
fn body_takes_no_more_than_announced() {
    let request =
        HttpRequest::build(b"PUT /x HTTP/1.0\r\ncontent-length: 2\r\n\r\nhello").unwrap();
    assert_eq!(HttpVersion::One, request.version);
    assert_eq!(b"he", request.body.unwrap().as_bytes());
}

#[test]
fn body_needs_a_positive_length() {
    for value in ["0", "-1", "abc", "", "1.5", "99999999999999999999999999"] {
        let text = format!("POST / HTTP/1.1\r\nContent-Length: {}\r\n\r\nhello", value);
        let request = HttpRequest::build(text.as_bytes()).unwrap();
        assert!(request.body.is_none());
    }
    let request = HttpRequest::build(b"POST / HTTP/1.1\r\nContent-Length: +3\r\n\r\nhello");
    assert_eq!(b"hel", request.unwrap().body.unwrap().as_bytes());
}

#[test]
fn first_content_length_counts() {
    let request = HttpRequest::build(
        b"POST / HTTP/1.1\r\nContent-Length: 1\r\nContent-Length: 4\r\n\r\nhello",
    )
    .unwrap();
    assert_eq!(b"h", request.body.unwrap().as_bytes());
}

#[test]
fn request_line_needs_three_tokens() {
    for line in ["", "GET", "GET /", "GET / HTTP/1.1 extra", "\r\n", "   \n"] {
        let text = format!("{}\r\nHost: x\r\n\r\n", line);
        let result = HttpRequest::build(text.as_bytes());
        assert_eq!(ParseError::MalformedRequestLine, result.unwrap_err());
    }
    assert_eq!(
        ParseError::MalformedRequestLine,
        HttpRequest::build(b"").unwrap_err()
    );
}

#[test]
fn tokens_are_split_at_any_ascii_white_space() {
    let request = HttpRequest::build(b"  GET\t\t/a  HTTP/1.1 \r\n\r\n").unwrap();
    assert_eq!(HttpMethod::GET, request.method);
    assert_eq!("/a", request.path);
}

#[test]
fn version_must_be_known() {
    for version in ["HTTP/2", "http/1.1", "HTTP/1.1x", "1.1"] {
        let text = format!("GET / {}\r\n\r\n", version);
        let result = HttpRequest::build(text.as_bytes());
        assert_eq!(ParseError::UnsupportedVersion, result.unwrap_err());
    }
}

#[test]
fn a_bad_header_line_is_reported_before_a_bad_version() {
    let result = HttpRequest::build(b"GET / HTTP/9\r\nHost: \xff\r\n\r\n");
    assert_eq!(ParseError::InvalidUtf8, result.unwrap_err());
}

#[test]
fn lines_must_be_utf8() {
    assert_eq!(
        ParseError::InvalidUtf8,
        HttpRequest::build(b"GET /\xff HTTP/1.1\r\n\r\n").unwrap_err()
    );
    assert_eq!(
        ParseError::InvalidUtf8,
        HttpRequest::build(b"GET / HTTP/1.1\r\nHost: \xc3\r\n\r\n").unwrap_err()
    );
}

#[test]
fn body_need_not_be_utf8() {
    let request =
        HttpRequest::build(b"POST / HTTP/1.1\r\nContent-Length: 2\r\n\r\n\xff\xfe").unwrap();
    let body = request.body.unwrap();
    assert_eq!(&[0xff, 0xfe], body.as_bytes());
    assert_eq!("\u{fffd}\u{fffd}", body.as_str_lossy());
}

#[test]
fn unknown_methods_are_custom() {
    for name in ["FETCH", "get", "Custom", "G\u{c9}T"] {
        let text = format!("{} / HTTP/1.1\r\n\r\n", name);
        let request = HttpRequest::build(text.as_bytes()).unwrap();
        assert_eq!(HttpMethod::Custom { name: name.to_owned() }, request.method);
    }
}

#[test]
fn every_standard_method_is_known() {
    assert_eq!(HttpMethod::GET, HttpMethod::new("GET"));
    assert_eq!(HttpMethod::POST, HttpMethod::new("POST"));
    assert_eq!(HttpMethod::PUT, HttpMethod::new("PUT"));
    assert_eq!(HttpMethod::DELETE, HttpMethod::new("DELETE"));
    assert_eq!(HttpMethod::HEAD, HttpMethod::new("HEAD"));
    assert_eq!(HttpMethod::CONNECT, HttpMethod::new("CONNECT"));
    assert_eq!(HttpMethod::OPTIONS, HttpMethod::new("OPTIONS"));
    assert_eq!(HttpMethod::TRACE, HttpMethod::new("TRACE"));
    assert_eq!(HttpMethod::PATCH, HttpMethod::new("PATCH"));
}

#[test]
fn header_lines_without_colon_are_ignored() {
    let request = HttpRequest::build(
        b"GET / HTTP/1.1\r\nno colon here\r\nA:1\r\n  B : 2:3 \r\n:\r\n\r\nrest",
    )
    .unwrap();
    assert_eq!(3, request.headers.len());
    assert_eq!(Some("1"), request.headers.get_first("a"));
    assert_eq!(Some("2:3"), request.headers.get_first("B "));
    assert_eq!(Some(""), request.headers.get_first(""));
}

#[test]
fn header_block_ends_at_a_blank_line_or_at_the_end() {
    let request = HttpRequest::build(b"GET / HTTP/1.1\nA: 1\n \t \nB: 2\n\n").unwrap();
    assert_eq!(1, request.headers.len());
    let request = HttpRequest::build(b"GET / HTTP/1.1\r\nA: 1").unwrap();
    assert_eq!(Some("1"), request.headers.get_first("A"));
    assert_eq!("GET / HTTP/1.1\r\nA: 1", request.raw_request);
}

#[test]
fn parser_asks_for_what_it_needs() {
    let mut parser = RequestParser::new();
    assert_eq!(Next::Line, parser.next());
    parser.push_line(b"POST /x HTTP/1.1\r\n").unwrap();
    assert_eq!(Next::Line, parser.next());
    parser.push_line(b"Content-Length: 3\r\n").unwrap();
    assert_eq!(Next::Line, parser.next());
    parser.push_line(b"\r\n").unwrap();
    assert_eq!(Next::Body(3), parser.next());
    parser.push_body(Some(b"abc"));
    assert_eq!(Next::Done, parser.next());
    let request = parser.finish().unwrap();
    assert_eq!(b"abc", request.body.unwrap().as_bytes());
    assert_eq!("POST /x HTTP/1.1\r\nContent-Length: 3\r\n\r\nabc", request.raw_request);
}

#[test]
fn parser_goes_on_without_a_body_that_could_not_be_read() {
    let mut parser = RequestParser::new();
    parser.push_line(b"POST /x HTTP/1.1\r\n").unwrap();
    parser.push_line(b"Content-Length: 3\r\n").unwrap();
    parser.push_line(b"\r\n").unwrap();
    parser.push_body(None);
    assert_eq!(Next::Done, parser.next());
    assert!(parser.finish().unwrap().body.is_none());
}

#[test]
fn parser_keeps_its_state_on_an_error() {
    let mut parser = RequestParser::new();
    assert_eq!(Err(ParseError::MalformedRequestLine), parser.push_line(b"GET\r\n"));
    assert_eq!(Err(ParseError::InvalidUtf8), parser.push_line(b"\xff\r\n"));
    assert_eq!(Next::Line, parser.next());
    parser.push_line(b"GET / HTTP/1.1\r\n").unwrap();
    parser.push_line(b"\r\n").unwrap();
    assert_eq!(Next::Done, parser.next());
    assert!(parser.finish().is_ok());
}

#[test]
fn parser_without_a_request_line_has_no_request() {
    let parser = RequestParser::new();
    assert_eq!(ParseError::MalformedRequestLine, parser.finish().unwrap_err());
}

#[test]
fn round_trip_of_a_header_block() {
    let mut headers = Headers::new();
    headers.put("Host", "example.org");
    headers.put("Accept", "text/html");
    headers.put("accept", "*/*");
    headers.put("X-Empty", "");
    let mut text = String::from("GET / HTTP/1.1\r\n");
    text.push_str(&headers.response_string());
    text.push_str("\r\n");
    let request = HttpRequest::build(text.as_bytes()).unwrap();
    assert_eq!(headers.response_string(), request.headers.response_string());
    assert_eq!(headers.len(), request.headers.len());
    assert_eq!(headers.get("ACCEPT"), request.headers.get("ACCEPT"));
}

#[test]
fn status_not_found_and_custom() {
    assert_eq!(404, HttpStatus::NotFound.code());
    assert_eq!("Not Found", HttpStatus::NotFound.reason_phrase());
    let custom = HttpStatus::Custom { code: 799, reason_phrase: "Teapot Army".to_owned() };
    assert_eq!(799, custom.code());
    assert_eq!("Teapot Army", custom.reason_phrase());
    assert_eq!((799, "Teapot Army"), custom.props());
}

#[test]
fn status_catalog_samples() {
    assert_eq!((100, "Continue"), HttpStatus::Continue.props());
    assert_eq!((200, "OK"), HttpStatus::OK.props());
    assert_eq!((226, "IM Used"), HttpStatus::IMUsed.props());
    assert_eq!((308, "Permanent Redirect"), HttpStatus::PermanentRedirect.props());
    assert_eq!((418, "I'm a Teapot"), HttpStatus::ImATeapot.props());
    assert_eq!((451, "Unavailable For Legal Reasons"), HttpStatus::UnavailableForLegalReasons.props());
    assert_eq!((500, "Internal Server Error"), HttpStatus::InternalServerError.props());
    assert_eq!((511, "Network Authentication Required"), HttpStatus::NetworkAuthenticationRequired.props());
}

#[test]
fn version_tokens() {
    assert_eq!(Ok(HttpVersion::One), HttpVersion::build("HTTP/1.0"));
    assert_eq!(Ok(HttpVersion::OnePointOne), HttpVersion::build("HTTP/1.1"));
    assert_eq!(Err(ParseError::UnsupportedVersion), HttpVersion::build("HTTP/1.2"));
    assert_eq!(Err(ParseError::UnsupportedVersion), HttpVersion::build(""));
    assert_eq!("HTTP/1.0", HttpVersion::One.to_string());
    assert_eq!("HTTP/1.1", HttpVersion::OnePointOne.as_str());
}

#[test]
fn error_messages() {
    assert_eq!("Malformed first request line", ParseError::MalformedRequestLine.message());
    assert_eq!("Unsupported HTTP version", ParseError::UnsupportedVersion.message());
    assert_eq!("Unexpected non UTF-8 string", ParseError::InvalidUtf8.message());
}

#[test]
fn body_from_headers() {
    let mut headers = Headers::new();
    assert_eq!(None, HttpBody::expected_len(&headers));
    assert!(HttpBody::build(&headers, b"abc").is_none());
    headers.put("CONTENT-LENGTH", " 2 ");
    assert_eq!(Some(2), HttpBody::expected_len(&headers));
    assert_eq!(b"ab", HttpBody::build(&headers, b"abc").unwrap().as_bytes());
    assert!(HttpBody::build(&headers, b"a").is_none());
    assert_eq!(b"xy", HttpBody::new(b"xy").as_bytes());
    assert_eq!(0, HttpBody::default().as_bytes().len());
}

#[test]
fn response_without_entity() {
    let response = HttpResponse::new(HttpStatus::NoContent);
    let mut stream = Vec::new();
    response.write(&mut stream);
    assert_eq!(b"HTTP/1.1 204 No Content\r\n\r\n".to_vec(), stream);
}

#[test]
fn response_with_entity() {
    let mut response = HttpResponse::new(HttpStatus::OK);
    response.headers.put("Server", "test");
    response.str_entity("h\u{e9}llo", "text/plain; charset=utf-8");
    let mut stream = vec![b'>'];
    response.write(&mut stream);
    let expected = ">HTTP/1.1 200 OK\r\nServer: test\r\nContent-Length: 6\r\n\
                    Content-Type: text/plain; charset=utf-8\r\n\r\nh\u{e9}llo";
    assert_eq!(expected.as_bytes().to_vec(), stream);
}

#[test]
fn entity_replaces_length_and_type() {
    let mut response = HttpResponse::new(HttpStatus::Custom {
        code: 799,
        reason_phrase: "Teapot Army".to_owned(),
    });
    response.version = HttpVersion::One;
    response.entity(&[1, 2, 3], "application/octet-stream");
    response.entity(&[0; 12], "image/png");
    assert_eq!(Some(&["12".to_owned()][..]), response.headers.get("content-length"));
    assert_eq!(Some(&["image/png".to_owned()][..]), response.headers.get("content-type"));
    let mut stream = Vec::new();
    response.write(&mut stream);
    let mut expected =
        b"HTTP/1.0 799 Teapot Army\r\nContent-Length: 12\r\nContent-Type: image/png\r\n\r\n"
            .to_vec();
    expected.extend_from_slice(&[0; 12]);
    assert_eq!(expected, stream);
}

#[test]
fn written_response_length_is_read_back() {
    let mut response = HttpResponse::new(HttpStatus::OK);
    response.str_entity("0123456789", "text/plain");
    assert_eq!(Some(10), HttpBody::expected_len(&response.headers));
}

#[test]
fn routes() {
    assert_eq!(
        Route::Page { status: HttpStatus::OK, file: "hello.html", pause: 0 },
        route(&HttpMethod::GET, "/")
    );
    assert_eq!(
        Route::Page { status: HttpStatus::OK, file: "sleepy.html", pause: 5 },
        route(&HttpMethod::GET, "/sleep")
    );
    assert_eq!(Route::Echo, route(&HttpMethod::DELETE, "/echo"));
    assert_eq!(Route::Echo, route(&HttpMethod::GET, "/echo"));
    assert_eq!(
        Route::Page { status: HttpStatus::NotFound, file: "404.html", pause: 0 },
        route(&HttpMethod::POST, "/")
    );
    assert_eq!(
        Route::Page { status: HttpStatus::NotFound, file: "404.html", pause: 0 },
        route(&HttpMethod::GET, "/missing")
    );
}

#[test]
fn round_trip_of_a_response_head_with_body() {
    let mut response = HttpResponse::new(HttpStatus::OK);
    response.headers.put("X-One", "1");
    response.headers.put("x-one", "2");
    response.str_entity("payload", "text/plain");
    let mut text = String::from("POST /in HTTP/1.1\r\n");
    text.push_str(&response.headers.response_string());
    text.push_str("\r\npayload and more");
    let request = HttpRequest::build(text.as_bytes()).unwrap();
    assert_eq!(
        response.headers.response_string(),
        request.headers.response_string()
    );
    assert_eq!(b"payload", request.body.unwrap().as_bytes());
}
