use rustelier::highlight::{
    capture_slot, line_starts, node_spans, resolve_overlaps, scope_key, spans_from_captures, Capture,
    Highlighter, Lang, Span,
};

fn span(start: usize, end: usize, color: u32) -> Span {
    Span { start, end, color }
}

#[test]
fn grammars_by_extension() {
    assert_eq!(Lang::for_path("src/main.rs"), Lang::Rust);
    assert_eq!(Lang::for_path("App.swift"), Lang::Swift);
    assert_eq!(Lang::for_path("notes.txt"), Lang::Plain);
    assert_eq!(Lang::for_path("Makefile"), Lang::Plain);
}

#[test]
fn line_starts_count_bytes() {
    assert_eq!(line_starts("a\nbc\n"), vec![0, 2, 5]);
    assert_eq!(line_starts("é\nx"), vec![0, 3]);
    assert_eq!(line_starts(""), vec![0]);
}

#[test]
fn scopes_collapse_onto_their_first_part() {
    let key: String = scope_key("keyword.function").into_iter().collect();
    assert_eq!(key, "keyword");
    let key: String = scope_key("string").into_iter().collect();
    assert_eq!(key, "string");
    assert_eq!(capture_slot("keyword.control"), Some(0));
    assert_eq!(capture_slot("type.builtin"), Some(2));
    assert_eq!(capture_slot("constructor"), Some(2));
    assert_eq!(capture_slot("punctuation.bracket"), Some(4));
    assert_eq!(capture_slot("embedded"), None);
}

#[test]
fn a_node_is_cut_into_line_pieces() {
    let starts = vec![0, 10, 20];
    let pieces = node_spans(0, 4, 2, 25, &starts, 3);
    assert_eq!(
        pieces,
        vec![(0, span(4, 9, 3)), (1, span(0, 9, 3)), (2, span(0, 5, 3))]
    );
    assert!(node_spans(1, 12, 1, 12, &starts, 3).is_empty());
}

#[test]
fn fewer_than_two_spans_come_back_unchanged() {
    assert_eq!(resolve_overlaps(Vec::new()), Vec::new());
    assert_eq!(resolve_overlaps(vec![span(5, 2, 1)].into_iter().filter(|s| s.start <= s.end).collect()), Vec::new());
    assert_eq!(resolve_overlaps(vec![span(2, 5, 1)]), vec![span(2, 5, 1)]);
}

#[test]
fn the_narrowest_span_wins_its_bytes() {
    let flat = resolve_overlaps(vec![span(0, 10, 6), span(3, 5, 2)]);
    assert_eq!(flat, vec![span(0, 3, 6), span(3, 5, 2), span(5, 10, 6)]);
}

#[test]
fn runs_of_one_colour_merge() {
    let flat = resolve_overlaps(vec![span(0, 4, 1), span(4, 8, 1), span(10, 12, 1)]);
    assert_eq!(flat, vec![span(0, 8, 1), span(10, 12, 1)]);
}

#[test]
fn equal_width_ties_go_to_the_earlier_start_then_the_earlier_span() {
    let flat = resolve_overlaps(vec![span(2, 6, 1), span(0, 4, 2)]);
    assert_eq!(flat, vec![span(0, 4, 2), span(4, 6, 1)]);
    let flat = resolve_overlaps(vec![span(0, 4, 1), span(0, 4, 2)]);
    assert_eq!(flat, vec![span(0, 4, 1)]);
}

#[test]
fn empty_spans_colour_nothing() {
    let flat = resolve_overlaps(vec![span(3, 3, 1), span(0, 2, 2)]);
    assert_eq!(flat, vec![span(0, 2, 2)]);
}

fn capture(name: &str, start_row: usize, start_byte: usize, end_row: usize, end_byte: usize) -> Capture {
    Capture {
        name: name.to_string(),
        start_row,
        start_byte,
        end_row,
        end_byte,
    }
}

#[test]
fn captures_group_per_line_and_flatten() {
    let starts = vec![0, 10];
    let captures = vec![
        capture("variable", 0, 0, 0, 6, ),
        capture("type", 0, 2, 0, 4),
        capture("embedded", 0, 0, 0, 9),
        capture("comment", 1, 10, 1, 14),
    ];
    let rows = spans_from_captures(&captures, &starts);
    assert_eq!(
        rows,
        vec![
            (0, vec![span(0, 2, 6), span(2, 4, 2), span(4, 6, 6)]),
            (1, vec![span(0, 4, 4)]),
        ]
    );
}

#[test]
fn rust_source_gets_spans() {
    let source = "fn main() { let answer = 42; }";
    let mut highlighter = Highlighter::new(Lang::Rust);
    assert_eq!(highlighter.lang(), Lang::Rust);
    let starts = line_starts(source);
    assert_eq!(highlighter.spans_in(source, 0, source.len(), &starts), Some(std::collections::HashMap::new()));
    highlighter.parse(source);
    let rows = highlighter.spans_in(source, 0, source.len(), &starts).unwrap();
    assert!(rows.iter().any(|(_, spans)| !spans.is_empty()));
    let mut plain = Highlighter::new(Lang::Plain);
    plain.parse(source);
    assert_eq!(plain.spans_in(source, 0, source.len(), &starts), Some(std::collections::HashMap::new()));
}

#[test]
fn reparsing_the_same_source_keeps_its_spans() {
    let source = "struct Point { x: i32 }\nfn main() { let answer = 42; }";
    let mut highlighter = Highlighter::new(Lang::Rust);
    highlighter.parse(source);
    let starts = line_starts(source);
    let first = highlighter.spans_in(source, 0, source.len(), &starts).unwrap();
    highlighter.parse(source);
    let again = highlighter.spans_in(source, 0, source.len(), &starts).unwrap();
    assert!(first.iter().any(|(line, spans)| *line == 1 && !spans.is_empty()));
    assert_eq!(first, again);
}

#[test]
fn line_starts_out_of_order_still_give_spans() {
    let source = "fn main() {}";
    let mut highlighter = Highlighter::new(Lang::Rust);
    highlighter.parse(source);
    let rows = highlighter.spans_in(source, 0, source.len(), &vec![0, 9, 4]);
    assert!(rows.is_some_and(|rows| rows.iter().any(|(line, spans)| *line == 0 && !spans.is_empty())));
}
