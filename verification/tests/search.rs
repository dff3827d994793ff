use rustelier::search::{
    record_match, regex_escape, search_matcher, search_pattern, Cancel, Hit, SearchRun,
    FILE_HITS, MAX_HITS,
};

#[test]
fn special_characters_are_escaped() {
    assert_eq!(regex_escape("a.b*(c)"), "a\\.b\\*\\(c\\)");
    assert_eq!(regex_escape("\\^$|[]{}?+"), "\\\\\\^\\$\\|\\[\\]\\{\\}\\?\\+");
    assert_eq!(regex_escape("plain-text"), "plain-text");
    assert_eq!(search_pattern("a.b", true), "\\ba\\.b\\b");
    assert_eq!(search_pattern("a.b", false), "a\\.b");
}

#[test]
fn an_empty_query_builds_no_matcher() {
    assert!(search_matcher("", true, false).is_none());
    assert!(search_matcher("x", true, false).is_some());
}

#[test]
fn a_matching_line_becomes_a_hit() {
    let matcher = search_matcher("needle", false, false).unwrap();
    let mut hits: Vec<Hit> = Vec::new();
    let more = record_match(&mut hits, &matcher, "a.txt", "/r/a.txt", Some(7), b"one NEEDLE\r\n");
    assert!(more);
    assert_eq!(hits.len(), 1);
    assert_eq!(hits[0].relative, "a.txt");
    assert_eq!(hits[0].absolute, "/r/a.txt");
    assert_eq!(hits[0].line, 7);
    assert_eq!(hits[0].text, "one NEEDLE");
    assert_eq!((hits[0].match_start, hits[0].match_end), (4, 10));
}

#[test]
fn whole_words_and_case() {
    let matcher = search_matcher("cat", true, true).unwrap();
    let mut hits: Vec<Hit> = Vec::new();
    record_match(&mut hits, &matcher, "a", "/a", None, b"concat cat");
    assert_eq!(hits[0].line, 0);
    assert_eq!((hits[0].match_start, hits[0].match_end), (7, 10));
    record_match(&mut hits, &matcher, "a", "/a", Some(2), b"CAT");
    assert_eq!((hits[1].match_start, hits[1].match_end), (0, 0));
}

#[test]
fn a_file_stops_at_its_hit_bound() {
    let matcher = search_matcher("x", true, false).unwrap();
    let mut hits: Vec<Hit> = Vec::new();
    let mut more = true;
    for line in 0..FILE_HITS as u64 {
        more = record_match(&mut hits, &matcher, "f", "/f", Some(line), b"x");
    }
    assert!(!more);
    assert_eq!(hits.len(), FILE_HITS);
}

#[test]
fn the_search_stops_once_the_bound_is_reached() {
    let mut run = SearchRun::new();
    assert!(run.wants_file(false));
    assert!(!run.wants_file(true));
    assert!(run.file_done("empty", Vec::new()).is_none());
    let hit = Hit {
        relative: "f".to_string(),
        absolute: "/f".to_string(),
        line: 1,
        text: "x".to_string(),
        match_start: 0,
        match_end: 1,
    };
    let batch = run.file_done("f", vec![hit.clone(); FILE_HITS]).unwrap();
    assert_eq!(batch.relative, "f");
    assert_eq!(batch.hits.len(), FILE_HITS);
    for _ in 0..4 {
        run.file_done("f", vec![hit.clone(); FILE_HITS]);
    }
    assert_eq!(run.total, MAX_HITS);
    assert!(!run.wants_file(false));
}

#[test]
fn cancelling_reaches_every_clone() {
    let token = Cancel::new();
    let other = token.clone();
    assert!(!other.is_cancelled());
    token.cancel();
    assert!(other.is_cancelled());
}

#[test]
fn a_file_never_takes_the_search_past_the_bound() {
    let mut run = SearchRun::new();
    run.total = MAX_HITS - 1;
    let hit = Hit {
        relative: "f".to_string(),
        absolute: "/f".to_string(),
        line: 1,
        text: "x".to_string(),
        match_start: 0,
        match_end: 1,
    };
    let batch = run.file_done("f", vec![hit; FILE_HITS]).unwrap();
    assert_eq!(batch.hits.len(), 1);
    assert_eq!(run.total, MAX_HITS);
    assert!(!run.wants_file(false));
}
