use mini_http::bytes::{equal, find, find_from, split_at_each, starts_with};
use mini_http::decimal::{format_usize, parse_usize};
use mini_http::files::extract_filename;
use mini_http::request::{
    content_length, extract_path, find_header, first_line_of, parse_content_length,
    parse_request_line,
};

#[test]
fn find_gives_the_first_occurrence() {
    assert_eq!(find(b"abcabc", b"bc"), Some(1));
    assert_eq!(find_from(b"abcabc", b"bc", 2), Some(4));
    assert_eq!(find_from(b"abcabc", b"bc", 5), None);
    assert_eq!(find(b"abc", b"abcd"), None);
    assert_eq!(find(b"abc", b"x"), None);
    assert_eq!(find(b"", b"x"), None);
    assert_eq!(find(b"abc", b""), Some(0));
    assert_eq!(find(b"\r\r\n\r\n", b"\r\n\r\n"), Some(1));
}

#[test]
fn prefix_and_equality() {
    assert!(starts_with(b"/echo/abc", b"/echo/"));
    assert!(starts_with(b"/echo/", b"/echo/"));
    assert!(!starts_with(b"/echo", b"/echo/"));
    assert!(!starts_with(b"/Echo/abc", b"/echo/"));
    assert!(equal(b"abc", b"abc"));
    assert!(!equal(b"abc", b"abd"));
    assert!(!equal(b"abc", b"ab"));
    assert!(equal(b"", b""));
}

#[test]
fn split_cuts_at_every_separator() {
    assert_eq!(split_at_each(b"a\r\nb\r\nc", b"\r\n"), vec![b"a".to_vec(), b"b".to_vec(), b"c".to_vec()]);
    assert_eq!(split_at_each(b"abc", b"\r\n"), vec![b"abc".to_vec()]);
    assert_eq!(split_at_each(b"", b"\r\n"), vec![Vec::<u8>::new()]);
    assert_eq!(split_at_each(b"a\r\n", b"\r\n"), vec![b"a".to_vec(), Vec::new()]);
    assert_eq!(split_at_each(b"\r\n\r\n", b"\r\n"), vec![Vec::<u8>::new(), Vec::new(), Vec::new()]);
    assert_eq!(split_at_each(b"a\r\r\nb", b"\r\n"), vec![b"a\r".to_vec(), b"b".to_vec()]);
    assert_eq!(split_at_each(b"abc", b""), vec![b"abc".to_vec()]);
}

#[test]
fn parse_usize_reads_plain_decimal_numbers() {
    assert_eq!(parse_usize(b"0"), Some(0));
    assert_eq!(parse_usize(b"5"), Some(5));
    assert_eq!(parse_usize(b"1024"), Some(1024));
    assert_eq!(parse_usize(b"00012"), Some(12));
    assert_eq!(parse_usize(b"+7"), Some(7));
    assert_eq!(parse_usize(usize::MAX.to_string().as_bytes()), Some(usize::MAX));
}

#[test]
fn parse_usize_rejects_everything_else() {
    assert_eq!(parse_usize(b""), None);
    assert_eq!(parse_usize(b"+"), None);
    assert_eq!(parse_usize(b"-5"), None);
    assert_eq!(parse_usize(b"++5"), None);
    assert_eq!(parse_usize(b" 5"), None);
    assert_eq!(parse_usize(b"5 "), None);
    assert_eq!(parse_usize(b"5\r"), None);
    assert_eq!(parse_usize(b"12a"), None);
    assert_eq!(parse_usize(b"1.5"), None);
    assert_eq!(parse_usize(b"0x10"), None);
}

#[test]
fn parse_usize_rejects_numbers_too_large() {
    let mut too_large = usize::MAX.to_string();
    too_large.push('0');
    assert_eq!(parse_usize(too_large.as_bytes()), None);
    assert_eq!(parse_usize(b"340282366920938463463374607431768211456"), None);
    assert_eq!(parse_usize(b"99999999999999999999999999x"), None);
}

#[test]
fn format_usize_writes_decimal_digits() {
    assert_eq!(format_usize(0), b"0".to_vec());
    assert_eq!(format_usize(7), b"7".to_vec());
    assert_eq!(format_usize(10), b"10".to_vec());
    assert_eq!(format_usize(12345), b"12345".to_vec());
    assert_eq!(format_usize(usize::MAX), usize::MAX.to_string().into_bytes());
}

#[test]
fn formatted_numbers_parse_back() {
    for n in [0usize, 1, 9, 10, 11, 99, 100, 101, 65535, 65536, usize::MAX - 1, usize::MAX] {
        assert_eq!(parse_usize(&format_usize(n)), Some(n));
    }
}

#[test]
fn request_line_splits_at_its_first_two_spaces() {
    assert_eq!(
        parse_request_line(b"GET /index.html HTTP/1.1"),
        Some((&b"GET"[..], &b"/index.html"[..]))
    );
    assert_eq!(parse_request_line(b"GET / HTTP/1.1 extra"), Some((&b"GET"[..], &b"/"[..])));
    assert_eq!(parse_request_line(b" / "), Some((&b""[..], &b"/"[..])));
    assert_eq!(parse_request_line(b"GET  HTTP/1.1"), Some((&b"GET"[..], &b""[..])));
    assert_eq!(parse_request_line(b"GET /"), None);
    assert_eq!(parse_request_line(b"GET"), None);
    assert_eq!(parse_request_line(b""), None);
}

#[test]
fn extract_path_gives_the_text_between_the_spaces() {
    assert_eq!(extract_path(b"GET / HTTP/1.1"), Some(&b"/"[..]));
    assert_eq!(extract_path(b"GET /echo/hello HTTP/1.1"), Some(&b"/echo/hello"[..]));
    assert_eq!(extract_path(b"POST /files/a%20b HTTP/1.1"), Some(&b"/files/a%20b"[..]));
    assert_eq!(extract_path(b"GET /only-one-space"), None);
    assert_eq!(extract_path(b"nospace"), None);
}

#[test]
fn extract_path_looks_at_the_first_line_only() {
    assert_eq!(extract_path(b"GET /\r\nHost: a b"), None);
    assert_eq!(extract_path(b"GET\r\nHost: a b c"), None);
    assert_eq!(extract_path(b"\r\nGET / HTTP/1.1"), None);
    assert_eq!(extract_path(b"GET / HTTP/1.1\r\nHost: a b"), Some(&b"/"[..]));
    assert_eq!(extract_path(b"GET /a\nb HTTP/1.1\r\nHost: x"), Some(&b"/a\nb"[..]));
    assert_eq!(extract_path(b"GET /a\rb HTTP/1.1"), Some(&b"/a\rb"[..]));
}

#[test]
fn parse_request_line_looks_at_the_first_line_only() {
    assert_eq!(parse_request_line(b"GET /\r\nHost: a b"), None);
    assert_eq!(
        parse_request_line(b"POST /x HTTP/1.1\r\nHost: a b\r\n\r\nbody"),
        Some((&b"POST"[..], &b"/x"[..]))
    );
}

#[test]
fn first_line_ends_at_the_first_line_break() {
    assert_eq!(first_line_of(b"GET /\r\nHost: a b"), &b"GET /"[..]);
    assert_eq!(first_line_of(b"no break"), &b"no break"[..]);
    assert_eq!(first_line_of(b"\r\nrest"), &b""[..]);
    assert_eq!(first_line_of(b"a\nb\rc\r\nd"), &b"a\nb\rc"[..]);
    assert_eq!(first_line_of(b""), &b""[..]);
}

#[test]
fn extract_filename_accepts_only_files_paths() {
    assert_eq!(extract_filename(b"/files/note.txt"), Some(&b"note.txt"[..]));
    assert_eq!(extract_filename(b"/files/"), Some(&b""[..]));
    assert_eq!(extract_filename(b"/files/.."), Some(&b".."[..]));
    assert_eq!(extract_filename(b"/files/a/b"), None);
    assert_eq!(extract_filename(b"/files/a/"), None);
    assert_eq!(extract_filename(b"/files"), None);
    assert_eq!(extract_filename(b"/file/a"), None);
    assert_eq!(extract_filename(b"/Files/a"), None);
    assert_eq!(extract_filename(b"x/files/a"), None);
    assert_eq!(extract_filename(b"/"), None);
    assert_eq!(extract_filename(b""), None);
}

#[test]
fn parse_content_length_reads_the_number_after_the_first_space() {
    assert_eq!(parse_content_length(b"Content-Length: 5"), 5);
    assert_eq!(parse_content_length(b"Content-Length: 0"), 0);
    assert_eq!(parse_content_length(b"Content-Length: 1234567"), 1234567);
    assert_eq!(parse_content_length(b"Content-Length: +12"), 12);
    assert_eq!(parse_content_length(b"Content-Length:5"), 0);
    assert_eq!(parse_content_length(b"Content-Length: "), 0);
    assert_eq!(parse_content_length(b"Content-Length: 5 "), 0);
    assert_eq!(parse_content_length(b"Content-Length:  5"), 0);
    assert_eq!(parse_content_length(b"Content-Length: -5"), 0);
    assert_eq!(parse_content_length(b"Content-Length: abc"), 0);
    assert_eq!(parse_content_length(b"Content-Length: 99999999999999999999999999"), 0);
    assert_eq!(parse_content_length(b""), 0);
}

#[test]
fn header_lookup_is_linear_and_by_prefix() {
    let headers = vec![
        b"Host: a".to_vec(),
        b"user-agent: lower".to_vec(),
        b"User-Agent: first".to_vec(),
        b"User-Agent: second".to_vec(),
    ];
    assert_eq!(find_header(&headers, b"User-Agent: "), Some(&b"User-Agent: first"[..]));
    assert_eq!(find_header(&headers, b"Host: "), Some(&b"Host: a"[..]));
    assert_eq!(find_header(&headers, b"Accept: "), None);
    assert_eq!(find_header(&Vec::new(), b"Host: "), None);
}

#[test]
fn content_length_of_a_header_list() {
    assert_eq!(content_length(&vec![b"Host: a".to_vec(), b"Content-Length: 42".to_vec()]), 42);
    assert_eq!(content_length(&vec![b"Host: a".to_vec()]), 0);
    assert_eq!(content_length(&vec![b"Content-Length: x".to_vec(), b"Content-Length: 4".to_vec()]), 0);
    assert_eq!(content_length(&Vec::new()), 0);
}
