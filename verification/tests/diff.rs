use rustelier::diff::{compute_word_diff, diff_lines, side_documents, word_diff, DiffKind, DiffLine, DiffRow, DiffSide};

#[test]
fn word_diff_trims_the_shared_prefix_and_suffix() {
    assert_eq!(word_diff("let x = 1;", "let x = 22;"), (Some(8..9), Some(8..10)));
    assert_eq!(word_diff("same", "same"), (None, None));
    assert_eq!(word_diff("abc", "abXc"), (None, Some(2..3)));
    assert_eq!(word_diff("héllo", "hallo"), (Some(1..3), Some(1..2)));
    let long = "x".repeat(2001);
    assert_eq!(word_diff(&long, "y"), (None, None));
}

fn rows() -> Vec<DiffRow> {
    vec![
        DiffRow::Hunk { range: "-1,3 +1,3".to_string(), context: "fn main()".to_string() },
        DiffRow::Ctx { old: 1, new: 1, text: "a".to_string() },
        DiffRow::Del { old: 2, text: "let x = 1;".to_string() },
        DiffRow::Del { old: 3, text: "gone".to_string() },
        DiffRow::Add { new: 2, text: "let x = 2;".to_string() },
        DiffRow::Ctx { old: 4, new: 3, text: "b".to_string() },
        DiffRow::Add { new: 4, text: "new".to_string() },
    ]
}

#[test]
fn rows_become_numbered_lines_with_word_emphasis() {
    let lines = diff_lines(&rows());
    assert_eq!(lines.len(), 7);
    assert_eq!(lines[0].text, "@@ -1,3 +1,3  fn main()");
    assert_eq!(lines[0].kind, DiffKind::Hunk);
    assert_eq!(lines[0].side, DiffSide::Neither);
    assert_eq!((lines[1].old, lines[1].new, lines[1].doc_line), (Some(1), Some(1), 0));
    assert_eq!((lines[2].kind, lines[2].side, lines[2].doc_line), (DiffKind::Del, DiffSide::Old, 1));
    assert_eq!(lines[3].doc_line, 2);
    assert_eq!((lines[4].kind, lines[4].doc_line), (DiffKind::Add, 1));
    assert_eq!(lines[5].doc_line, 2);
    assert_eq!(lines[6].doc_line, 3);
    assert_eq!(lines[2].word, vec![8..9]);
    assert_eq!(lines[4].word, vec![8..9]);
    assert!(lines[3].word.is_empty());
    assert!(lines[6].word.is_empty());
}

#[test]
fn each_side_has_its_own_document() {
    let lines = diff_lines(&rows());
    let (new_doc, old_doc) = side_documents(&lines);
    assert_eq!(new_doc, "a\nlet x = 2;\nb\nnew");
    assert_eq!(old_doc, "a\nlet x = 1;\ngone\nb");
    let new_lines: Vec<&str> = new_doc.split('\n').collect();
    assert_eq!(new_lines[lines[4].doc_line], lines[4].text);
}

#[test]
fn a_hunk_without_context_and_an_add_run_without_deletions() {
    let lines = diff_lines(&vec![
        DiffRow::Hunk { range: "-0,0 +1".to_string(), context: String::new() },
        DiffRow::Add { new: 1, text: "x".to_string() },
    ]);
    assert_eq!(lines[0].text, "@@ -0,0 +1");
    assert!(lines[1].word.is_empty());
}

#[test]
fn word_diffing_pairs_runs_in_order() {
    let line = |kind: DiffKind, text: &str| DiffLine {
        old: None,
        new: None,
        kind,
        side: DiffSide::New,
        doc_line: 0,
        text: text.to_string(),
        word: Vec::new(),
    };
    let mut lines = vec![
        line(DiffKind::Del, "ab"),
        line(DiffKind::Del, "cd"),
        line(DiffKind::Add, "aXb"),
        line(DiffKind::Ctx, "z"),
        line(DiffKind::Add, "zz"),
    ];
    compute_word_diff(&mut lines);
    assert!(lines[0].word.is_empty());
    assert_eq!(lines[2].word, vec![1..2]);
    assert!(lines[1].word.is_empty());
    assert!(lines[4].word.is_empty());
}
