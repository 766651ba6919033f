use babel_filter::filterset::{build_filter_set, has_excluded_category, FilterSet};
use babel_filter::process::{process_file, reconcile, reconcile_record};
use babel_filter::records::FilterRecord;
use babel_filter::writer::Writer;

fn filter_line(id: &str, name: &str, cats: &[&str]) -> String {
    let cats_json: Vec<String> = cats.iter().map(|c| format!("\"{}\"", c)).collect();
    format!(
        "{{\"id\":\"{}\",\"name\":\"{}\",\"category\":[{}]}}",
        id,
        name,
        cats_json.join(",")
    )
}

fn babel_line(curie: &str, name: &str) -> String {
    format!(
        "{{\"curie\":\"{}\",\"names\":[\"{}\"],\"types\":[\"Gene\"],\"taxa\":[]}}",
        curie, name
    )
}

#[test]
fn excluded_categories_intersect() {
    let cats = vec!["biolink:Gene".to_string(), "biolink:Protein".to_string()];
    let excl = vec!["biolink:Protein".to_string()];
    assert!(has_excluded_category(&cats, &excl));
}

#[test]
fn excluded_categories_disjoint() {
    let cats = vec!["biolink:Gene".to_string()];
    let excl = vec!["biolink:Disease".to_string()];
    assert!(!has_excluded_category(&cats, &excl));
}

#[test]
fn empty_exclusion_list_excludes_nothing() {
    let cats = vec!["biolink:Gene".to_string()];
    let excl: Vec<String> = Vec::new();
    assert!(!has_excluded_category(&cats, &excl));
}

#[test]
fn build_applies_exclusion() {
    let lines = vec![
        filter_line("A", "alpha", &["biolink:Gene"]),
        filter_line("B", "beta", &["biolink:Disease"]),
        filter_line("C", "gamma", &[]),
    ];
    let exclude = Some(vec!["biolink:Disease".to_string()]);
    let (fs, stats) = build_filter_set(&lines, &exclude);
    assert_eq!(stats.removed, 1);
    assert_eq!(stats.errors, 0);
    assert_eq!(fs.len(), 2);
    assert!(fs.contains(&"A".to_string()));
    assert!(!fs.contains(&"B".to_string()));
    assert!(fs.contains(&"C".to_string()));
}

#[test]
fn build_counts_decode_failures() {
    let lines = vec![
        filter_line("A", "alpha", &[]),
        "this is not json".to_string(),
        "{\"name\":\"no id\",\"category\":[]}".to_string(),
    ];
    let (fs, stats) = build_filter_set(&lines, &None);
    assert_eq!(stats.errors, 2);
    assert_eq!(fs.len(), 1);
}

#[test]
fn build_last_record_wins_on_duplicate_id() {
    let lines = vec![
        filter_line("A", "first", &[]),
        filter_line("A", "second", &[]),
    ];
    let (fs, stats) = build_filter_set(&lines, &None);
    assert_eq!(stats.removed, 0);
    assert_eq!(fs.len(), 1);
    let recs = fs.into_records();
    assert_eq!(recs.len(), 1);
    assert_eq!(recs[0].name, "second");
}

#[test]
fn filter_set_insert_remove() {
    let mut fs = FilterSet::new();
    fs.insert(FilterRecord {
        id: "X".to_string(),
        name: "ex".to_string(),
        category: Vec::new(),
        equivalent_identifiers: None,
    });
    assert_eq!(fs.len(), 1);
    assert!(fs.contains(&"X".to_string()));
    let taken = fs.remove(&"X".to_string());
    assert!(taken.is_some());
    assert_eq!(taken.unwrap().name, "ex");
    assert_eq!(fs.len(), 0);
    assert!(fs.remove(&"X".to_string()).is_none());
}

#[test]
fn decode_tolerance_mixed_lines() {
    // 100 valid lines and 5 malformed ones: all counted, 5 decode errors,
    // the valid ones considered for matching.
    let mut lines: Vec<String> = Vec::new();
    for i in 0..100 {
        lines.push(babel_line(&format!("ID:{}", i), &format!("name {}", i)));
    }
    for i in 0..5 {
        lines.push(format!("malformed line {}", i));
    }
    let filter_lines: Vec<String> = (0..10).map(|i| {
        filter_line(&format!("ID:{}", i), &format!("name {}", i), &["biolink:Gene"])
    }).collect();
    let (mut fs, _) = build_filter_set(&filter_lines, &None);
    let mut w = Writer::new(false);
    let stats = process_file(&lines, &mut fs, &mut w);
    assert_eq!(stats.processed, 105);
    assert_eq!(stats.errors, 5);
    assert_eq!(stats.kept, 10);
    assert_eq!(fs.len(), 0);
    assert_eq!(w.line_count(), 10);
}

#[test]
fn matched_lines_are_echoed_verbatim() {
    // The output carries the original line text, unknown fields included,
    // never a re-serialization.
    let odd = "{\"curie\":\"ID:1\",\"names\":[\"n\"],\"types\":[],\"taxa\":[],\"unknown_field\":  [1,2,3]}";
    let lines = vec![odd.to_string()];
    let filter_lines = vec![filter_line("ID:1", "n", &[])];
    let (mut fs, _) = build_filter_set(&filter_lines, &None);
    let mut w = Writer::new(false);
    let stats = process_file(&lines, &mut fs, &mut w);
    assert_eq!(stats.kept, 1);
    assert_eq!(w.lines().len(), 1);
    assert_eq!(w.lines()[0], odd);
}

#[test]
fn matching_depletes_filter_set() {
    // A curie matches only once: the second record with the same curie is
    // dropped because the entry was removed on the first match.
    let lines = vec![babel_line("ID:1", "a"), babel_line("ID:1", "b")];
    let filter_lines = vec![filter_line("ID:1", "a", &[])];
    let (mut fs, _) = build_filter_set(&filter_lines, &None);
    let mut w = Writer::new(false);
    let stats = process_file(&lines, &mut fs, &mut w);
    assert_eq!(stats.kept, 1);
    assert_eq!(w.line_count(), 1);
}

#[test]
fn reconciled_record_shape() {
    // A leftover filter record synthesizes a Babel record with the biolink
    // prefix stripped from its categories and the name's length recorded.
    let rec = FilterRecord {
        id: "HGNC:1100".to_string(),
        name: "BRCA1".to_string(),
        category: vec!["biolink:Gene".to_string(), "biolink:NamedThing".to_string()],
        equivalent_identifiers: None,
    };
    let b = reconcile_record(&rec);
    assert_eq!(b.curie, "HGNC:1100");
    assert_eq!(b.names, vec!["BRCA1".to_string()]);
    assert_eq!(b.types, vec!["Gene".to_string(), "NamedThing".to_string()]);
    assert_eq!(b.preferred_name, Some("BRCA1".to_string()));
    assert_eq!(b.shortest_name_length, Some(5));
    assert!(b.taxa.is_empty());
}

#[test]
fn reconcile_writes_one_line_per_leftover() {
    let filter_lines = vec![
        filter_line("A", "alpha", &[]),
        filter_line("B", "beta", &[]),
    ];
    let (fs, _) = build_filter_set(&filter_lines, &None);
    let mut w = Writer::new(false);
    let count = reconcile(fs, &mut w);
    assert_eq!(count, 2);
    assert_eq!(w.line_count(), 2);
}
