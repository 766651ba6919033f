use babel_filter::codec::{decode_babel_record, decode_filter_record, encode_babel_record};
use babel_filter::lines::{decode_lines, read_input, LineRead};
use babel_filter::paths::{apply_output_format, name_ends_in_gz, OutputFormat};
use babel_filter::records::BabelRecord;
use babel_filter::writer::Writer;

fn text(r: &LineRead) -> &str {
    match r {
        LineRead::Text(s) => s.as_str(),
        LineRead::Unreadable => panic!("expected a readable line"),
    }
}

#[test]
fn gz_suffix_detection() {
    assert!(name_ends_in_gz(&b"nodes.jsonl.gz".to_vec()));
    assert!(!name_ends_in_gz(&b"nodes.jsonl".to_vec()));
    assert!(!name_ends_in_gz(&b"gz".to_vec()));
}

#[test]
fn format_override_adds_and_strips_suffix() {
    let gz = apply_output_format(b"nodes.jsonl".to_vec(), &Some(OutputFormat::Gzipped));
    assert_eq!(gz, b"nodes.jsonl.gz".to_vec());
    let plain = apply_output_format(b"nodes.jsonl.gz".to_vec(), &Some(OutputFormat::Plaintext));
    assert_eq!(plain, b"nodes.jsonl".to_vec());
}

#[test]
fn format_override_is_idempotent() {
    // Forcing gzip on a name already ending in the suffix, or plaintext on
    // one without it, yields the same name.
    let same_gz = apply_output_format(b"nodes.jsonl.gz".to_vec(), &Some(OutputFormat::Gzipped));
    assert_eq!(same_gz, b"nodes.jsonl.gz".to_vec());
    let same_plain = apply_output_format(b"nodes.jsonl".to_vec(), &Some(OutputFormat::Plaintext));
    assert_eq!(same_plain, b"nodes.jsonl".to_vec());
}

#[test]
fn no_override_keeps_name() {
    let kept = apply_output_format(b"nodes.jsonl.gz".to_vec(), &None);
    assert_eq!(kept, b"nodes.jsonl.gz".to_vec());
}

#[test]
fn split_lines_handles_terminators() {
    let data = b"alpha\nbeta\r\ngamma".to_vec();
    let lines = decode_lines(&data);
    assert_eq!(lines.len(), 3);
    assert_eq!(text(&lines[0]), "alpha");
    assert_eq!(text(&lines[1]), "beta");
    assert_eq!(text(&lines[2]), "gamma");
}

#[test]
fn split_lines_no_trailing_empty_line() {
    let data = b"one\ntwo\n".to_vec();
    let lines = decode_lines(&data);
    assert_eq!(lines.len(), 2);
    assert_eq!(text(&lines[0]), "one");
    assert_eq!(text(&lines[1]), "two");
}

#[test]
fn split_lines_empty_input() {
    let data: Vec<u8> = Vec::new();
    assert!(decode_lines(&data).is_empty());
}

#[test]
fn invalid_utf8_line_is_unreadable() {
    let data = vec![b'o', b'k', b'\n', 0xff, 0xfe, b'\n', b'o', b'k'];
    let lines = decode_lines(&data);
    assert_eq!(lines.len(), 3);
    assert_eq!(text(&lines[0]), "ok");
    assert!(matches!(lines[1], LineRead::Unreadable));
    assert_eq!(text(&lines[2]), "ok");
}

#[test]
fn compression_round_trip() {
    // A record written through the compressing writer and read back through
    // the decompressing reader is byte-identical.
    let line_a = "{\"curie\":\"ID:1\",\"names\":[\"one\"],\"types\":[],\"taxa\":[]}";
    let line_b = "plain text with spaces";
    let mut w = Writer::new(true);
    w.write_line(line_a);
    w.write_line(line_b);
    let bytes = w.into_output();
    let lines = read_input(&bytes, true).expect("not a gzip stream");
    assert_eq!(lines.len(), 2);
    assert_eq!(text(&lines[0]), line_a);
    assert_eq!(text(&lines[1]), line_b);
}

#[test]
fn plain_writer_emits_newline_terminated_lines() {
    let mut w = Writer::new(false);
    w.write_line("a");
    w.write_line("b");
    let bytes = w.into_output();
    assert_eq!(bytes, b"a\nb\n".to_vec());
}

#[test]
fn bad_gzip_stream_is_rejected() {
    let bytes = b"definitely not gzip".to_vec();
    assert!(read_input(&bytes, true).is_none());
}

#[test]
fn decode_filter_record_fields() {
    let rec = decode_filter_record(
        "{\"id\":\"A\",\"name\":\"alpha\",\"category\":[\"biolink:Gene\"],\"equivalent_identifiers\":[\"B\"]}",
    )
    .expect("line decodes");
    assert_eq!(rec.id, "A");
    assert_eq!(rec.name, "alpha");
    assert_eq!(rec.category, vec!["biolink:Gene".to_string()]);
    assert_eq!(rec.equivalent_identifiers, Some(vec!["B".to_string()]));
}

#[test]
fn decode_filter_record_requires_fields() {
    assert!(decode_filter_record("{\"id\":\"A\",\"category\":[]}").is_none());
    assert!(decode_filter_record("{\"id\":5,\"name\":\"n\",\"category\":[]}").is_none());
    assert!(decode_filter_record("not json").is_none());
}

#[test]
fn decode_babel_record_fields() {
    let rec = decode_babel_record(
        "{\"curie\":\"X:1\",\"names\":[\"x\"],\"types\":[\"Gene\"],\"preferred_name\":\"x\",\"shortest_name_length\":1,\"taxa\":[]}",
    )
    .expect("line decodes");
    assert_eq!(rec.curie, "X:1");
    assert_eq!(rec.names, vec!["x".to_string()]);
    assert_eq!(rec.preferred_name, Some("x".to_string()));
    assert_eq!(rec.shortest_name_length, Some(1));
}

#[test]
fn decode_babel_record_tolerates_missing_optionals() {
    let rec = decode_babel_record("{\"curie\":\"X:1\",\"names\":[],\"types\":[],\"taxa\":[]}")
        .expect("line decodes");
    assert_eq!(rec.preferred_name, None);
    assert_eq!(rec.shortest_name_length, None);
}

#[test]
fn encode_babel_record_layout() {
    let rec = BabelRecord {
        curie: "X:1".to_string(),
        names: vec!["ex\"quote".to_string()],
        types: vec!["Gene".to_string()],
        preferred_name: Some("ex".to_string()),
        shortest_name_length: Some(2),
        taxa: Vec::new(),
    };
    let s = encode_babel_record(&rec);
    assert_eq!(
        s,
        "{\"curie\":\"X:1\",\"names\":[\"ex\\\"quote\"],\"types\":[\"Gene\"],\"preferred_name\":\"ex\",\"shortest_name_length\":2,\"taxa\":[]}"
    );
}
