use lsp_proxy::parser::LspMessageParser;

fn drain(parser: &mut LspMessageParser) -> Vec<String> {
    let mut bodies = Vec::new();
    while let Some((_, body)) = parser.try_parse_message() {
        bodies.push(body);
    }
    bodies
}

#[test]
fn one_message_single_feed() {
    let wire = b"Content-Length: 13\r\n\r\n{\"jsonrpc\":0}";
    let mut parser = LspMessageParser::new();
    parser.add_data(wire);
    let (raw, body) = parser.try_parse_message().expect("complete message");
    assert_eq!(raw, wire.to_vec());
    assert_eq!(body, "{\"jsonrpc\":0}");
    assert!(parser.try_parse_message().is_none());
}

#[test]
fn split_feed_yields_single_message() {
    let wire = b"Content-Length: 13\r\n\r\n{\"jsonrpc\":0}";
    let mut parser = LspMessageParser::new();
    parser.add_data(&wire[..20]);
    assert!(parser.try_parse_message().is_none());
    parser.add_data(&wire[20..]);
    let (_, body) = parser.try_parse_message().expect("complete message");
    assert_eq!(body, "{\"jsonrpc\":0}");
    assert!(parser.try_parse_message().is_none());
}

#[test]
fn fragmentation_invariance_byte_by_byte() {
    let mut stream = Vec::new();
    stream.extend_from_slice(b"Content-Length: 7\r\n\r\n{\"a\":1}");
    stream.extend_from_slice(b"Content-Type: text\r\nContent-Length: 2\r\n\r\n[]");
    stream.extend_from_slice(b"Content-Length: 4\r\n\r\ntail");

    let mut whole = LspMessageParser::new();
    whole.add_data(&stream);
    let bodies_whole = drain(&mut whole);

    let mut pieces = LspMessageParser::new();
    let mut bodies_pieces = Vec::new();
    for byte in &stream {
        pieces.add_data(&[*byte]);
        bodies_pieces.extend(drain(&mut pieces));
    }

    assert_eq!(bodies_whole, vec!["{\"a\":1}", "[]", "tail"]);
    assert_eq!(bodies_pieces, bodies_whole);
}

#[test]
fn message_appears_exactly_with_final_byte() {
    let wire = b"Content-Length: 2\r\n\r\n{}";
    let mut parser = LspMessageParser::new();
    parser.add_data(&wire[..wire.len() - 1]);
    assert!(parser.try_parse_message().is_none());
    parser.add_data(&wire[wire.len() - 1..]);
    assert!(parser.try_parse_message().is_some());
}

#[test]
fn buffer_shrinks_by_exact_frame() {
    // Header block of 18 bytes, separator of 4, body of 13: one parse
    // consumes exactly 35 bytes and no more.
    let wire = b"Content-Length: 13\r\n\r\n{\"jsonrpc\":0}extra";
    let mut parser = LspMessageParser::new();
    parser.add_data(wire);
    assert_eq!(parser.buffered_len(), wire.len());
    let (raw, body) = parser.try_parse_message().expect("complete message");
    assert_eq!(raw.len(), 18 + 4 + 13);
    assert_eq!(body.len(), 13);
    assert_eq!(parser.buffered_len(), wire.len() - 35);
}

#[test]
fn multiple_messages_in_one_feed() {
    let wire = b"Content-Length: 2\r\n\r\n{}Content-Length: 2\r\n\r\n[]";
    let mut parser = LspMessageParser::new();
    parser.add_data(wire);
    let bodies = drain(&mut parser);
    assert_eq!(bodies, vec!["{}", "[]"]);
}

#[test]
fn other_headers_are_ignored() {
    let wire = b"Content-Type: application/json\r\nContent-Length: 2\r\n\r\n{}";
    let mut parser = LspMessageParser::new();
    parser.add_data(wire);
    let (_, body) = parser.try_parse_message().expect("complete message");
    assert_eq!(body, "{}");
}

#[test]
fn first_length_header_wins() {
    let wire = b"Content-Length: 2\r\nContent-Length: 5\r\n\r\n{}abc";
    let mut parser = LspMessageParser::new();
    parser.add_data(wire);
    let (_, body) = parser.try_parse_message().expect("complete message");
    assert_eq!(body, "{}");
}

#[test]
fn stalls_without_length_header() {
    let wire = b"Content-Type: application/json\r\n\r\n{}";
    let mut parser = LspMessageParser::new();
    parser.add_data(wire);
    assert!(parser.try_parse_message().is_none());
    assert_eq!(parser.buffered_len(), wire.len());
}

#[test]
fn stalls_on_malformed_length() {
    let mut parser = LspMessageParser::new();
    parser.add_data(b"Content-Length: abc\r\n\r\n{}");
    assert!(parser.try_parse_message().is_none());
}

#[test]
fn stalls_on_oversized_length() {
    let mut parser = LspMessageParser::new();
    parser.add_data(b"Content-Length: 99999999999999999999999999\r\n\r\n{}");
    assert!(parser.try_parse_message().is_none());
}

#[test]
fn length_value_trims_whitespace_and_sign() {
    let mut parser = LspMessageParser::new();
    parser.add_data(b"Content-Length: \t +2 \r\n\r\n{}");
    let (_, body) = parser.try_parse_message().expect("complete message");
    assert_eq!(body, "{}");
}

#[test]
fn empty_body_message() {
    let mut parser = LspMessageParser::new();
    parser.add_data(b"Content-Length: 0\r\n\r\n");
    let (raw, body) = parser.try_parse_message().expect("complete message");
    assert_eq!(raw, b"Content-Length: 0\r\n\r\n".to_vec());
    assert_eq!(body, "");
}

#[test]
fn invalid_utf8_body_is_decoded_lossily() {
    let mut wire = b"Content-Length: 2\r\n\r\n".to_vec();
    wire.push(0xFF);
    wire.push(b'0');
    let mut parser = LspMessageParser::new();
    parser.add_data(&wire);
    let (_, body) = parser.try_parse_message().expect("complete message");
    assert_eq!(body, "\u{FFFD}0");
}

#[test]
fn find_header_end_reports_first_separator() {
    let mut parser = LspMessageParser::new();
    parser.add_data(b"abc\r\n\r\nxyz\r\n\r\n");
    assert_eq!(parser.find_header_end(), Some(3));
    let empty = LspMessageParser::new();
    assert_eq!(empty.find_header_end(), None);
}

#[test]
fn parse_content_length_scans_header_block() {
    let mut parser = LspMessageParser::new();
    let wire = b"A: b\r\nContent-Length: 42\r\n\r\n";
    parser.add_data(wire);
    let header_end = parser.find_header_end().expect("separator present");
    assert_eq!(parser.parse_content_length(header_end), Some(42));
}
