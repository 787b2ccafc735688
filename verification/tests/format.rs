use lsp_proxy::format::format_lsp_message;
use lsp_proxy::parser::LspMessageParser;

#[test]
fn formats_exact_wire_form() {
    assert_eq!(format_lsp_message("{}"), "Content-Length: 2\r\n\r\n{}");
    assert_eq!(
        format_lsp_message("{\"jsonrpc\":\"2.0\"}"),
        "Content-Length: 17\r\n\r\n{\"jsonrpc\":\"2.0\"}"
    );
}

#[test]
fn formats_empty_body() {
    assert_eq!(format_lsp_message(""), "Content-Length: 0\r\n\r\n");
}

#[test]
fn length_counts_bytes_not_characters() {
    // A two-byte character: the declared length is the byte length.
    assert_eq!(format_lsp_message("é"), "Content-Length: 2\r\n\r\né");
}

#[test]
fn format_then_parse_round_trip() {
    let body = "{\"id\":1,\"method\":\"initialize\"}";
    let wire = format_lsp_message(body);
    let mut parser = LspMessageParser::new();
    parser.add_data(wire.as_bytes());
    let (raw, parsed) = parser.try_parse_message().expect("complete message");
    assert_eq!(raw, wire.as_bytes().to_vec());
    assert_eq!(parsed, body);
    assert!(parser.try_parse_message().is_none());
}
