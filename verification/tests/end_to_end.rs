use babel_filter::codec::decode_babel_record;
use babel_filter::filterset::build_filter_set;
use babel_filter::lines::{read_input, LineRead};
use babel_filter::process::{process_file, reconcile};
use babel_filter::writer::Writer;

fn texts(lines: Vec<LineRead>) -> Vec<String> {
    lines
        .into_iter()
        .map(|l| match l {
            LineRead::Text(s) => s,
            LineRead::Unreadable => panic!("expected readable lines"),
        })
        .collect()
}

#[test]
fn full_run_splits_matches_and_leftovers() {
    // Filter records A and B; the input file holds Babel records for A and
    // C. The per-file output holds exactly A's original line; the overflow
    // file holds exactly one synthesized record, for B.
    let filter_lines = vec![
        "{\"id\":\"A\",\"name\":\"alpha\",\"category\":[\"biolink:Gene\"]}".to_string(),
        "{\"id\":\"B\",\"name\":\"beta\",\"category\":[\"biolink:NamedThing\"]}".to_string(),
    ];
    let line_a = "{\"curie\":\"A\",\"names\":[\"alpha\"],\"types\":[\"Gene\"],\"taxa\":[]}";
    let line_c = "{\"curie\":\"C\",\"names\":[\"gamma\"],\"types\":[],\"taxa\":[]}";
    let input_lines = vec![line_a.to_string(), line_c.to_string()];

    let (mut fs, build_stats) = build_filter_set(&filter_lines, &None);
    assert_eq!(build_stats.removed, 0);
    assert_eq!(build_stats.errors, 0);
    assert_eq!(fs.len(), 2);

    let mut out = Writer::new(false);
    let stats = process_file(&input_lines, &mut fs, &mut out);
    assert_eq!(stats.processed, 2);
    assert_eq!(stats.kept, 1);
    assert_eq!(stats.errors, 0);
    assert_eq!(out.lines().as_slice(), &[line_a.to_string()]);
    assert_eq!(fs.len(), 1);

    let mut overflow = Writer::new(true);
    let count = reconcile(fs, &mut overflow);
    assert_eq!(count, 1);
    assert_eq!(overflow.line_count(), 1);

    let bytes = overflow.into_output();
    let lines = texts(read_input(&bytes, true).expect("well-formed gzip"));
    assert_eq!(lines.len(), 1);
    let synth = decode_babel_record(&lines[0]).expect("synthesized line decodes");
    assert_eq!(synth.curie, "B");
    assert_eq!(synth.names, vec!["beta".to_string()]);
    assert_eq!(synth.types, vec!["NamedThing".to_string()]);
    assert_eq!(synth.preferred_name, Some("beta".to_string()));
    assert_eq!(synth.shortest_name_length, Some(4));
    assert!(synth.taxa.is_empty());
}

#[test]
fn every_identifier_lands_in_exactly_one_output() {
    // Membership completeness on a run over two input files: each filter
    // identifier appears once across the per-file outputs and the overflow
    // file, never twice and never nowhere.
    let filter_lines: Vec<String> = (0..6)
        .map(|i| format!("{{\"id\":\"N:{}\",\"name\":\"n{}\",\"category\":[]}}", i, i))
        .collect();
    let file_one: Vec<String> = vec![
        "{\"curie\":\"N:0\",\"names\":[],\"types\":[],\"taxa\":[]}".to_string(),
        "{\"curie\":\"N:1\",\"names\":[],\"types\":[],\"taxa\":[]}".to_string(),
        "{\"curie\":\"N:9\",\"names\":[],\"types\":[],\"taxa\":[]}".to_string(),
    ];
    let file_two: Vec<String> = vec![
        // N:1 again: already matched, must not be written a second time
        "{\"curie\":\"N:1\",\"names\":[],\"types\":[],\"taxa\":[]}".to_string(),
        "{\"curie\":\"N:4\",\"names\":[],\"types\":[],\"taxa\":[]}".to_string(),
    ];

    let (mut fs, _) = build_filter_set(&filter_lines, &None);
    let mut out_one = Writer::new(false);
    let mut out_two = Writer::new(false);
    let stats_one = process_file(&file_one, &mut fs, &mut out_one);
    let stats_two = process_file(&file_two, &mut fs, &mut out_two);
    assert_eq!(stats_one.kept, 2);
    assert_eq!(stats_two.kept, 1);

    let mut overflow = Writer::new(true);
    let count = reconcile(fs, &mut overflow);
    assert_eq!(count, 3);

    let mut matched: Vec<String> = Vec::new();
    for line in out_one.lines().iter().chain(out_two.lines().iter()) {
        matched.push(decode_babel_record(line).expect("written lines decode").curie);
    }
    let bytes = overflow.into_output();
    let mut reconciled: Vec<String> = Vec::new();
    for line in texts(read_input(&bytes, true).expect("well-formed gzip")) {
        reconciled.push(decode_babel_record(&line).expect("synthesized lines decode").curie);
    }
    let mut all = matched.clone();
    all.extend(reconciled.iter().cloned());
    all.sort();
    let expected: Vec<String> = (0..6).map(|i| format!("N:{}", i)).collect();
    assert_eq!(all, expected);
    assert_eq!(matched.len(), 3);
    assert_eq!(reconciled.len(), 3);
}
