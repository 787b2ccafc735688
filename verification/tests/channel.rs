use lsp_proxy::channel::{relay_chunks, stderr_echo_line, ChunkLog, ProxyChannel};
use lsp_proxy::sink::{render_log_line, LogMode};

fn lines_of(log: ChunkLog) -> Vec<String> {
    match log {
        ChunkLog::Lines(lines) => lines,
        ChunkLog::Raw(_) => panic!("expected line log"),
    }
}

fn raw_of(log: ChunkLog) -> Vec<u8> {
    match log {
        ChunkLog::Raw(bytes) => bytes,
        ChunkLog::Lines(_) => panic!("expected raw log"),
    }
}

#[test]
fn raw_mode_forwards_and_logs_chunk_verbatim() {
    let mut channel = ProxyChannel::new(LogMode::Raw);
    let chunk = b"Content-Length: 2\r\n\r\n{}".to_vec();
    let outcome = channel.handle_chunk(&chunk);
    assert_eq!(outcome.forward, chunk);
    assert_eq!(raw_of(outcome.log), chunk);
}

#[test]
fn forwarding_is_lossless_across_chunks() {
    let mut stream = Vec::new();
    stream.extend_from_slice(b"Content-Length: 7\r\n\r\n{\"a\":1}");
    stream.extend_from_slice(b"garbage that never frames");
    for mode in [LogMode::Raw, LogMode::JsonLines] {
        let chunks: Vec<Vec<u8>> = stream.chunks(5).map(|c| c.to_vec()).collect();
        let (forwarded, _) = relay_chunks(mode, &chunks);
        assert_eq!(forwarded, stream);
    }
}

#[test]
fn raw_mode_log_equals_stream() {
    let stream = b"no framing at all, just bytes".to_vec();
    let chunks: Vec<Vec<u8>> = stream.chunks(7).map(|c| c.to_vec()).collect();
    let (_, logs) = relay_chunks(LogMode::Raw, &chunks);
    let mut logged = Vec::new();
    for log in logs {
        logged.extend(raw_of(log));
    }
    assert_eq!(logged, stream);
}

#[test]
fn structural_mode_logs_one_compact_line_per_message() {
    let mut channel = ProxyChannel::new(LogMode::JsonLines);
    let chunk = b"Content-Length: 18\r\n\r\n{\"b\": 1,  \"a\": 2 }".to_vec();
    let outcome = channel.handle_chunk(&chunk);
    assert_eq!(outcome.forward, chunk);
    let lines = lines_of(outcome.log);
    assert_eq!(lines, vec!["{\"a\":2,\"b\":1}\n"]);
}

#[test]
fn structural_log_line_reparses_to_same_value() {
    let mut channel = ProxyChannel::new(LogMode::JsonLines);
    let chunk = b"Content-Length: 24\r\n\r\n{\"x\": [1, 2], \"y\": null}".to_vec();
    let outcome = channel.handle_chunk(&chunk);
    let lines = lines_of(outcome.log);
    assert_eq!(lines.len(), 1);
    let content = lines[0].strip_suffix('\n').expect("line ends with newline");
    // Rendering the logged document again reproduces it exactly: the
    // compact form is a fixed point of parse-then-serialize.
    let again = render_log_line(content);
    assert_eq!(again, lines[0]);
}

#[test]
fn structural_mode_invalid_json_logs_body_and_still_forwards() {
    let mut channel = ProxyChannel::new(LogMode::JsonLines);
    let chunk = b"Content-Length: 8\r\n\r\nnot json".to_vec();
    let outcome = channel.handle_chunk(&chunk);
    assert_eq!(outcome.forward, chunk);
    assert_eq!(lines_of(outcome.log), vec!["not json\n"]);
}

#[test]
fn structural_mode_waits_for_complete_message() {
    let mut channel = ProxyChannel::new(LogMode::JsonLines);
    let wire = b"Content-Length: 2\r\n\r\n{}";
    let first = channel.handle_chunk(&wire[..10]);
    assert_eq!(first.forward, wire[..10].to_vec());
    assert!(lines_of(first.log).is_empty());
    let second = channel.handle_chunk(&wire[10..]);
    assert_eq!(second.forward, wire[10..].to_vec());
    assert_eq!(lines_of(second.log), vec!["{}\n"]);
}

#[test]
fn render_log_line_compacts_its_input() {
    // The rendering really re-serializes: insignificant whitespace is
    // gone from the logged form.
    let line = render_log_line("{ \"k\" :  true }");
    assert_eq!(line, "{\"k\":true}\n");
}

#[test]
fn rendered_float_is_a_reserialization_fixed_point() {
    // A double that best-effort float parsing does not round-trip: the
    // rendered line must nonetheless re-render to itself exactly, which
    // needs correctly rounded parsing.
    let line = render_log_line("[51.248178375505404]");
    assert_eq!(line, "[51.248178375505404]\n");
    let content = line.strip_suffix('\n').expect("line ends with newline");
    assert_eq!(render_log_line(content), line);
}

#[test]
fn render_log_line_keeps_non_json_text() {
    assert_eq!(render_log_line("plain words"), "plain words\n");
}

#[test]
fn stderr_lines_are_echoed_with_tag() {
    assert_eq!(stderr_echo_line("warming up\n"), "[LSP stderr] warming up\n");
}
