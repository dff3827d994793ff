use rustelier::file_index::IndexedFile;
use rustelier::git::Commit;
use rustelier::highlight::Lang;
use rustelier::repository_search::{
    collect_declarations, commit_candidate, declaration_kinds, declaration_language,
    file_declarations, first_files, FileDeclarations,
    rank, result_sort_key, run, score_commit, score_declaration, score_file, within_text_limit,
    Declaration, FuzzyMatcher, FuzzyPattern, RepositoryResult, ScoredResult, SyntaxNode,
    MAX_RESULTS,
};
use rustelier::search::Cancel;

fn file(relative: &str) -> IndexedFile {
    IndexedFile {
        absolute: format!("/r/{relative}"),
        relative: relative.to_string(),
        name: relative.rsplit('/').next().unwrap().to_string(),
        haystack: relative.to_lowercase(),
    }
}

fn file_result(relative: &str) -> RepositoryResult {
    RepositoryResult::File {
        relative: relative.to_string(),
        absolute: format!("/r/{relative}"),
    }
}

#[test]
fn results_rank_by_score_then_kind_then_text() {
    let scored = vec![
        ScoredResult { score: 5, kind_order: 1, result: file_result("b.rs") },
        ScoredResult { score: 9, kind_order: 2, result: RepositoryResult::Commit {
            short_hash: "abc".to_string(),
            subject: "s".to_string(),
            author: "me".to_string(),
        } },
        ScoredResult { score: 5, kind_order: 0, result: RepositoryResult::Symbol {
            name: "main".to_string(),
            declaration: "Function".to_string(),
            relative: "z.rs".to_string(),
            absolute: "/r/z.rs".to_string(),
            line: 1,
        } },
        ScoredResult { score: 5, kind_order: 1, result: file_result("a.rs") },
    ];
    let ranked = rank(scored);
    let keys: Vec<String> = ranked.iter().map(result_sort_key).collect();
    assert_eq!(keys, vec!["abc:s", "z.rs:main", "a.rs", "b.rs"]);
}

#[test]
fn ranking_keeps_the_first_results_only() {
    let scored: Vec<ScoredResult> = (0..100)
        .map(|i| ScoredResult {
            score: i,
            kind_order: 1,
            result: file_result(&format!("f{i:03}")),
        })
        .collect();
    let ranked = rank(scored);
    assert_eq!(ranked.len(), MAX_RESULTS);
    assert_eq!(ranked[0], file_result("f099"));
}

#[test]
fn an_empty_query_lists_files_within_the_limit() {
    let files = vec![file("a"), file("big"), file("c")];
    let results = first_files(&files, &vec![true, false, true]);
    assert_eq!(results, vec![file_result("a"), file_result("c")]);
    assert!(within_text_limit(Some(5)));
    assert!(!within_text_limit(Some(2 * 1024 * 1024 + 1)));
    assert!(!within_text_limit(None));
}

#[test]
fn fuzzy_scores_for_files_commits_and_symbols() {
    let pattern = FuzzyPattern::new("main");
    let mut paths = FuzzyMatcher::new(true);
    let hit = score_file(&pattern, &mut paths, &file("src/main.rs")).expect("matches");
    assert_eq!(hit.kind_order, 1);
    assert_eq!(hit.result, file_result("src/main.rs"));
    assert!(score_file(&pattern, &mut paths, &file("zzz")).is_none());

    let commit = Commit {
        short_hash: "abc1234".to_string(),
        subject: "Fix main loop".to_string(),
        author: "Ann".to_string(),
        seconds: 0,
    };
    assert_eq!(commit_candidate(&commit), "abc1234 Fix main loop Ann");
    let mut text = FuzzyMatcher::new(false);
    let scored = score_commit(&pattern, &mut text, &commit).expect("matches");
    assert_eq!(scored.kind_order, 2);

    let declaration = Declaration {
        name: "main".to_string(),
        kind: "Function".to_string(),
        line: 3,
    };
    let symbol = score_declaration(&pattern, &mut text, &declaration, &file("src/lib.rs"))
        .expect("matches");
    assert_eq!(symbol.kind_order, 0);
    assert_eq!(
        symbol.result,
        RepositoryResult::Symbol {
            name: "main".to_string(),
            declaration: "Function".to_string(),
            relative: "src/lib.rs".to_string(),
            absolute: "/r/src/lib.rs".to_string(),
            line: 3,
        }
    );
}

fn node(kind: &str, row: usize, start: usize, end: usize, children: Vec<SyntaxNode>) -> SyntaxNode {
    SyntaxNode {
        kind: kind.to_string(),
        row,
        name_field: None,
        kind_field: None,
        start,
        end,
        children,
    }
}

#[test]
fn declarations_are_collected_in_document_order() {
    let source = "fn main() {}\nstruct S;";
    let chars: Vec<char> = source.chars().collect();
    let offsets: Vec<u128> = {
        let mut out = vec![0u128];
        let mut pos = 0u128;
        for c in &chars {
            pos += c.len_utf8() as u128;
            out.push(pos);
        }
        out
    };
    let mut function = node("function_item", 0, 0, 12, Vec::new());
    function.name_field = Some((3, 7));
    let structure = node(
        "struct_item",
        1,
        13,
        22,
        vec![node("type_identifier", 1, 20, 21, Vec::new())],
    );
    let root = node("source_file", 0, 0, 22, vec![function, structure]);
    let kinds = declaration_kinds(Lang::Rust);
    let mut out = Vec::new();
    assert!(collect_declarations(&root, &chars, &offsets, &kinds, &Cancel::new(), &mut out));
    let got: Vec<(String, String, usize)> = out
        .iter()
        .map(|d| (d.name.clone(), d.kind.clone(), d.line))
        .collect();
    assert_eq!(
        got,
        vec![
            ("main".to_string(), "Function".to_string(), 1),
            ("S".to_string(), "Struct".to_string(), 2),
        ]
    );

    let cancel = Cancel::new();
    cancel.cancel();
    let mut out = Vec::new();
    assert!(!collect_declarations(&root, &chars, &offsets, &kinds, &cancel, &mut out));
    assert!(out.is_empty());
}

#[test]
fn declaration_grammars_by_extension() {
    assert_eq!(declaration_language("a.rs"), Some(Lang::Rust));
    assert_eq!(declaration_language("a.pyi"), Some(Lang::Python));
    assert_eq!(declaration_language("a.tsx"), Some(Lang::Tsx));
    assert_eq!(declaration_language("a.zsh"), Some(Lang::Bash));
    assert_eq!(declaration_language("a.md"), None);
    assert_eq!(declaration_kinds(Lang::Bash), vec![("function_definition", "Function")]);
}

#[test]
fn declarations_of_parsed_sources() {
    let found = file_declarations(Lang::Rust, "fn main() {}\nstruct Point { x: i32 }\n", &Cancel::new());
    let FileDeclarations::Found(decls) = found else {
        panic!("expected declarations");
    };
    let got: Vec<(String, String, usize)> = decls
        .iter()
        .map(|d| (d.name.clone(), d.kind.clone(), d.line))
        .collect();
    assert_eq!(
        got,
        vec![
            ("main".to_string(), "Function".to_string(), 1),
            ("Point".to_string(), "Struct".to_string(), 2),
        ]
    );
    let python = file_declarations(Lang::Python, "class A:\n    def f(self):\n        pass\n", &Cancel::new());
    let FileDeclarations::Found(decls) = python else {
        panic!("expected declarations");
    };
    let names: Vec<String> = decls.iter().map(|d| d.name.clone()).collect();
    assert_eq!(names, vec!["A".to_string(), "f".to_string()]);
    assert!(matches!(file_declarations(Lang::Json, "{}", &Cancel::new()), FileDeclarations::Skipped));
    let cancel = Cancel::new();
    cancel.cancel();
    assert!(matches!(file_declarations(Lang::Rust, "fn a() {}", &cancel), FileDeclarations::Cancelled));
}

#[test]
fn results_that_rank_alike_keep_their_order() {
    let file_at = |relative: &str, absolute: &str| RepositoryResult::File {
        relative: relative.to_string(),
        absolute: absolute.to_string(),
    };
    let scored = vec![
        ScoredResult { score: 3, kind_order: 1, result: file_at("x.rs", "/one/x.rs") },
        ScoredResult { score: 9, kind_order: 1, result: file_at("y.rs", "/y.rs") },
        ScoredResult { score: 3, kind_order: 1, result: file_at("x.rs", "/two/x.rs") },
        ScoredResult { score: 3, kind_order: 1, result: file_at("x.rs", "/three/x.rs") },
    ];
    let ranked = rank(scored);
    assert_eq!(
        ranked,
        vec![
            file_at("y.rs", "/y.rs"),
            file_at("x.rs", "/one/x.rs"),
            file_at("x.rs", "/two/x.rs"),
            file_at("x.rs", "/three/x.rs"),
        ]
    );
}

#[test]
fn quick_open_scores_files_commits_and_declarations() {
    let files = vec![file("src/main.rs"), file("notes.txt"), file("big.rs")];
    let within = vec![true, true, false];
    let sources = vec![
        Some("fn parse_args() {}\nfn main() {}\n".to_string()),
        None,
        Some("fn main() {}".to_string()),
    ];
    let commits = vec![Commit {
        short_hash: "abc1234".to_string(),
        subject: "Tidy main loop".to_string(),
        author: "Ada".to_string(),
        seconds: 0,
    }];
    let blank = run(&files, &within, &sources, &commits, "  ", &Cancel::new());
    assert_eq!(blank, vec![file_result("src/main.rs"), file_result("notes.txt")]);

    let results = run(&files, &within, &sources, &commits, " main ", &Cancel::new());
    assert!(results.contains(&file_result("src/main.rs")));
    assert!(results.iter().any(|r| matches!(r, RepositoryResult::Commit { short_hash, .. } if short_hash == "abc1234")));
    assert!(results.iter().any(|r| matches!(
        r,
        RepositoryResult::Symbol { name, line: 2, relative, .. } if name == "main" && relative == "src/main.rs"
    )));
    assert!(!results.iter().any(|r| matches!(r, RepositoryResult::File { relative, .. } if relative == "big.rs")));

    let cancel = Cancel::new();
    cancel.cancel();
    assert!(run(&files, &within, &sources, &commits, "main", &cancel).is_empty());
}
