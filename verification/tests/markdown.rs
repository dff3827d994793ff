use rustelier::highlight::{line_starts, Highlighter, Lang};
use rustelier::markdown::{
    active_heading_block, block_selectable_text, breakable, fence_language, flat_inline_text,
    inline_runs,
    join_soft_wraps, link_targets, outline_items, parse, parse_summary, prose_selection_range,
    selected_prose_text,
    selection_range_for_segment, table_cell_ranges, table_text, Block, Heading, ProsePosition,
};

#[test]
fn heading_before_viewport_is_not_marked_active() {
    let headings = vec![
        Heading {
            block: 3,
            level: 1,
            title: "First".to_string(),
        },
        Heading {
            block: 8,
            level: 2,
            title: "Second".to_string(),
        },
    ];

    assert_eq!(active_heading_block(&headings, 0), None);
    assert_eq!(active_heading_block(&headings, 7), Some(3));
    assert_eq!(active_heading_block(&headings, 8), Some(8));
}

#[test]
fn selection_flattens_inline_markdown_across_prose_blocks() {
    let blocks = vec![
        Block::Heading(1, "Hello **world**".to_string()),
        Block::Paragraph("Second line".to_string()),
    ];
    let selection = Some((
        ProsePosition { block: 0, byte: 6 },
        ProsePosition { block: 1, byte: 6 },
    ));

    assert_eq!(
        selected_prose_text(&blocks, selection).as_deref(),
        Some("world\nSecond")
    );
}

#[test]
fn selection_flattens_table_as_tsv_without_wrap_hints() {
    let rows = vec![
        vec!["Gate".to_string(), "Verdict".to_string()],
        vec!["Viet\u{200b}namese".to_string(), "Go".to_string()],
    ];
    let text = table_text(&rows);
    let blocks = vec![Block::Table(rows.clone())];
    let selection = Some((
        ProsePosition { block: 0, byte: 0 },
        ProsePosition {
            block: 0,
            byte: text.len(),
        },
    ));

    assert_eq!(
        table_cell_ranges(&rows),
        vec![vec![0..4, 5..12], vec![13..26, 27..29]]
    );
    assert_eq!(
        selected_prose_text(&blocks, selection).as_deref(),
        Some("Gate\tVerdict\nVietnamese\tGo")
    );
}

#[test]
fn fenced_language_aliases_use_the_shared_highlighter() {
    assert_eq!(fence_language("rust"), Lang::Rust);
    assert_eq!(fence_language("js title=demo"), Lang::JavaScript);
    assert_eq!(fence_language("zsh"), Lang::Bash);
    assert_eq!(fence_language("unknown"), Lang::Plain);
}

#[test]
fn ordered_items_carry_their_ordinals_and_bullets_do_not() {
    let blocks = parse("3. three\n4. four\n\n- dash\n\n1. one\n");
    let ordinals: Vec<Option<u64>> = blocks
        .iter()
        .filter_map(|block| match block {
            Block::ListItem(_, _, _, ordinal) => Some(*ordinal),
            _ => None,
        })
        .collect();

    assert_eq!(ordinals, vec![Some(3), Some(4), None, Some(1)]);
}

#[test]
fn soft_wrapped_prose_joins_into_one_line() {
    let blocks = parse("first line of a paragraph\nsecond line, same paragraph\n");
    let Some(Block::Paragraph(text)) = blocks.first() else {
        panic!("expected a paragraph");
    };
    assert_eq!(text, "first line of a paragraph second line, same paragraph");
}

#[test]
fn hard_breaks_and_item_paragraphs_survive_the_join() {
    assert_eq!(join_soft_wraps("kept  \nbreak", false), "kept  \nbreak");
    assert_eq!(join_soft_wraps("kept\\\nbreak", false), "kept\\\nbreak");
    assert_eq!(join_soft_wraps("one\n\n  two", false), "one\n\ntwo");
    assert_eq!(join_soft_wraps("quote line\n> continues", true), "quote line continues");
}

#[test]
fn parse_reads_headings_code_quotes_rules_and_tables() {
    let source = "# Title\n\n```rust\nfn main() {}\n```\n\n> quoted\n\n---\n\n| a | b |\n|---|---|\n| 1 | 2 |\n";
    let blocks = parse(source);
    assert_eq!(blocks[0], Block::Heading(1, "Title".to_string()));
    assert_eq!(
        blocks[1],
        Block::Code("rust".to_string(), "fn main() {}".to_string())
    );
    assert_eq!(blocks[2], Block::Quote("quoted".to_string()));
    assert_eq!(blocks[3], Block::Rule);
    assert_eq!(
        blocks[4],
        Block::Table(vec![
            vec!["a".to_string(), "b".to_string()],
            vec!["1".to_string(), "2".to_string()],
        ])
    );
    assert_eq!(blocks.len(), 5);
}

#[test]
fn task_items_carry_their_state() {
    let blocks = parse("- [x] done\n- [ ] open\n");
    let states: Vec<Option<bool>> = blocks
        .iter()
        .filter_map(|block| match block {
            Block::ListItem(_, _, state, _) => Some(*state),
            _ => None,
        })
        .collect();
    assert_eq!(states, vec![Some(true), Some(false)]);
}

#[test]
fn flat_inline_text_pads_code_and_keeps_breaks() {
    assert_eq!(flat_inline_text("a `b` c"), "a  b  c");
    assert_eq!(flat_inline_text("*em* and **strong**"), "em and strong");
    assert_eq!(flat_inline_text("one\ntwo"), "one two");
    assert_eq!(flat_inline_text("one  \ntwo"), "one\ntwo");
    assert_eq!(flat_inline_text("[link](http://x)"), "link");
}

#[test]
fn code_and_rules_have_no_selectable_text() {
    assert_eq!(
        block_selectable_text(&Block::Code(String::new(), "x".to_string())),
        None
    );
    assert_eq!(block_selectable_text(&Block::Rule), None);
    assert_eq!(
        block_selectable_text(&Block::Quote("a *b*".to_string())),
        Some("a b".to_string())
    );
}

#[test]
fn no_selection_copies_nothing() {
    let blocks = vec![Block::Paragraph("text".to_string())];
    assert_eq!(selected_prose_text(&blocks, None), None);
    let empty = Some((
        ProsePosition { block: 0, byte: 2 },
        ProsePosition { block: 0, byte: 2 },
    ));
    assert_eq!(selected_prose_text(&blocks, empty), None);
}

#[test]
fn selection_inside_a_multibyte_character_copies_nothing() {
    let blocks = vec![Block::Paragraph("é".to_string())];
    let selection = Some((
        ProsePosition { block: 0, byte: 1 },
        ProsePosition { block: 0, byte: 2 },
    ));
    assert_eq!(selected_prose_text(&blocks, selection), None);
}

#[test]
fn segment_ranges_are_clipped_to_the_segment() {
    let selection = Some((
        ProsePosition { block: 1, byte: 3 },
        ProsePosition { block: 2, byte: 4 },
    ));
    assert_eq!(selection_range_for_segment(0, &(0..10), selection), None);
    assert_eq!(selection_range_for_segment(1, &(0..10), selection), Some(3..10));
    assert_eq!(selection_range_for_segment(1, &(5..10), selection), Some(0..5));
    assert_eq!(selection_range_for_segment(2, &(2..10), selection), Some(0..2));
    assert_eq!(selection_range_for_segment(2, &(6..10), selection), None);
    assert_eq!(selection_range_for_segment(3, &(0..10), selection), None);
    assert_eq!(prose_selection_range(1, 3, selection), None);
    assert_eq!(prose_selection_range(1, 5, selection), Some(3..5));
}

#[test]
fn table_text_joins_cells_with_tabs_and_rows_with_newlines() {
    let rows = vec![
        vec!["a".to_string(), "b".to_string()],
        vec!["c".to_string()],
    ];
    assert_eq!(table_text(&rows), "a\tb\nc");
    assert_eq!(table_text(&Vec::new()), "");
}

#[test]
fn breakable_text_leaves_short_words_alone() {
    let text: Vec<char> = "short words".chars().collect();
    let out: String = breakable(&text).into_iter().collect();
    assert_eq!(out, "short words");
    let long: Vec<char> = "abcdefghijklmnopqrstu x".chars().collect();
    let out: String = breakable(&long).into_iter().collect();
    assert_eq!(out, "abcdefghijklmnopqr\u{200b}stu x");
}

#[test]
fn last_heading_at_or_above_wins() {
    let headings = vec![
        Heading {
            block: 0,
            level: 1,
            title: "A".to_string(),
        },
        Heading {
            block: 4,
            level: 2,
            title: "B".to_string(),
        },
        Heading {
            block: 9,
            level: 2,
            title: "C".to_string(),
        },
    ];
    assert_eq!(active_heading_block(&headings, 100), Some(9));
    assert_eq!(active_heading_block(&headings, 5), Some(4));
    assert_eq!(active_heading_block(&[], 5), None);
}

#[test]
fn local_link_targets_skip_urls_mail_and_anchors() {
    let source = "[a](docs/a.md#top) [b](https://x.io) [c](mailto:me@x) [d](#here) [e](../e.md)";
    assert_eq!(link_targets(source), vec!["docs/a.md".to_string(), "../e.md".to_string()]);
}

#[test]
fn a_document_summary_lists_each_block() {
    let summary = parse_summary("# T\n\ntext\n\n- a\n\n```\nx\ny\n```\n\n---\n");
    assert_eq!(
        summary,
        vec![("heading", 1), ("paragraph", 0), ("list", 0), ("code", 2), ("rule", 0)]
    );
}

#[test]
fn outline_marks_the_active_heading() {
    let headings = vec![
        Heading { block: 0, level: 1, title: "A".to_string() },
        Heading { block: 3, level: 2, title: "B".to_string() },
    ];
    assert_eq!(
        outline_items(&headings, Some(3)),
        vec![(0, 1, "A".to_string(), false), (3, 2, "B".to_string(), true)]
    );
}

#[test]
fn inline_runs_carry_their_style() {
    let pieces = inline_runs("a **b _c_** ~~d~~ [e](x) `f`\nz");
    let seen: Vec<(String, bool, bool, bool, bool, bool)> = pieces
        .iter()
        .map(|p| (p.text.clone(), p.bold, p.italic, p.strike, p.link, p.code))
        .collect();
    assert_eq!(
        seen,
        vec![
            ("a ".to_string(), false, false, false, false, false),
            ("b ".to_string(), true, false, false, false, false),
            ("c".to_string(), true, true, false, false, false),
            (" ".to_string(), false, false, false, false, false),
            ("d".to_string(), false, false, true, false, false),
            (" ".to_string(), false, false, false, false, false),
            ("e".to_string(), false, false, false, true, false),
            (" ".to_string(), false, false, false, false, false),
            (" f ".to_string(), false, false, false, false, true),
            (" ".to_string(), false, false, false, false, false),
            ("z".to_string(), false, false, false, false, false),
        ]
    );
    let flat: String = pieces.iter().map(|p| p.text.as_str()).collect();
    assert_eq!(flat, flat_inline_text("a **b _c_** ~~d~~ [e](x) `f`\nz"));
}

#[test]
fn code_is_never_bold() {
    let pieces = inline_runs("**x `y`**");
    assert_eq!(pieces.len(), 2);
    assert!(pieces[0].bold);
    assert!(pieces[1].code && !pieces[1].bold);
}

#[test]
fn supported_fenced_code_caches_syntax_spans() {
    let source = "fn main() { let answer = 42; }";
    let mut highlighter = Highlighter::new(fence_language("rust"));
    highlighter.parse(source);
    let starts = line_starts(source);
    let spans = highlighter.spans_in(source, 0, source.len(), &starts).unwrap();
    assert!(spans.values().any(|line| !line.is_empty()));
}

#[test]
fn each_cell_range_slices_its_cell_out_of_the_table_text() {
    let rows = vec![
        vec!["a".to_string(), "héllo".to_string(), "".to_string()],
        vec!["ß".to_string(), "x y".to_string(), "z".to_string()],
    ];
    let text = table_text(&rows);
    let ranges = table_cell_ranges(&rows);
    for (i, row) in rows.iter().enumerate() {
        for (j, cell) in row.iter().enumerate() {
            assert_eq!(&text[ranges[i][j].clone()], cell.as_str());
        }
    }
}

#[test]
fn cell_ranges_come_in_order_without_overlap() {
    let rows = vec![
        vec!["ab".to_string(), "".to_string()],
        vec![],
        vec!["é".to_string(), "xyz".to_string()],
    ];
    let ranges = table_cell_ranges(&rows);
    let flat: Vec<std::ops::Range<usize>> = ranges.into_iter().flatten().collect();
    for pair in flat.windows(2) {
        assert!(pair[0].end < pair[1].start);
    }
    assert_eq!(flat.len(), 4);
}
