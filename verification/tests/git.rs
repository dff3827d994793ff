use rustelier::git::{
    commit_and_push, commit_step, diff_args, relative_label, relative_time, relative_time_at, sort_changes, stage,
    stage_all, unstage, untracked_diff, Change, ChangeKind, CommitAction, CommitStage,
    GitSnapshot,
};

fn change(path: &str, kind: ChangeKind, staged: bool) -> Change {
    Change {
        path: path.to_string(),
        kind,
        staged,
    }
}

#[test]
fn a_path_staged_and_unstaged_counts_once() {
    let mut snapshot = GitSnapshot::default();
    assert!(!snapshot.is_repo);
    assert_eq!(snapshot.changed_count(), 0);
    snapshot.staged = vec![change("a.rs", ChangeKind::Modified, true)];
    snapshot.unstaged = vec![
        change("a.rs", ChangeKind::Modified, false),
        change("b.rs", ChangeKind::Untracked, false),
    ];
    assert_eq!(snapshot.changed_count(), 2);
}

#[test]
fn change_badges() {
    assert_eq!(ChangeKind::Added.short(), "A");
    assert_eq!(ChangeKind::Modified.short(), "M");
    assert_eq!(ChangeKind::Deleted.short(), "D");
    assert_eq!(ChangeKind::Renamed.short(), "R");
    assert_eq!(ChangeKind::Untracked.short(), "U");
    assert_eq!(ChangeKind::Conflicted.short(), "!");
}

#[test]
fn ages_in_words() {
    assert_eq!(relative_label(0), "just now");
    assert_eq!(relative_label(59), "just now");
    assert_eq!(relative_label(60), "1m");
    assert_eq!(relative_label(3599), "59m");
    assert_eq!(relative_label(3600), "1h");
    assert_eq!(relative_label(86_399), "23h");
    assert_eq!(relative_label(86_400), "1d");
    assert_eq!(relative_label(2_591_999), "29d");
    assert_eq!(relative_label(2_592_000), "1mo");
    assert_eq!(relative_time(i64::MAX), "just now");
}

#[test]
fn git_argument_lists() {
    assert_eq!(stage("src/a b.rs"), vec!["add", "--", "src/a b.rs"]);
    assert_eq!(unstage("x"), vec!["restore", "--staged", "--", "x"]);
    assert_eq!(stage_all(), vec!["add", "-A"]);
    assert_eq!(diff_args("x", true), vec!["diff", "--no-color", "--staged", "--", "x"]);
    assert_eq!(diff_args("x", false), vec!["diff", "--no-color", "--", "x"]);
}

fn run_args(action: &CommitAction) -> Option<(CommitStage, Vec<String>)> {
    match action {
        CommitAction::Run(stage, args) => Some((*stage, args.clone())),
        CommitAction::Finish(_) => None,
    }
}

fn finish(action: CommitAction) -> Option<Result<String, String>> {
    match action {
        CommitAction::Run(_, _) => None,
        CommitAction::Finish(result) => Some(result),
    }
}

#[test]
fn a_blank_subject_runs_no_git() {
    assert_eq!(
        finish(commit_and_push("  \n")),
        Some(Err("commit subject is empty".to_string()))
    );
}

#[test]
fn commit_then_push() {
    let first = commit_and_push("Fix it");
    assert_eq!(
        run_args(&first),
        Some((CommitStage::Staging, vec!["add".to_string(), "-A".to_string()]))
    );
    let second = commit_step(CommitStage::Staging, "Fix it", Ok(String::new()));
    assert_eq!(
        run_args(&second),
        Some((
            CommitStage::Committing,
            vec!["commit".to_string(), "-m".to_string(), "Fix it".to_string()]
        ))
    );
    let third = commit_step(CommitStage::Committing, "Fix it", Ok(String::new()));
    assert_eq!(run_args(&third), Some((CommitStage::Pushing, vec!["push".to_string()])));
    assert_eq!(
        finish(commit_step(CommitStage::Pushing, "Fix it", Ok(String::new()))),
        Some(Ok("committed and pushed".to_string()))
    );
}

#[test]
fn failures_along_the_way() {
    assert_eq!(
        finish(commit_step(CommitStage::Staging, "s", Err("locked".to_string()))),
        Some(Err("locked".to_string()))
    );
    assert_eq!(
        finish(commit_step(CommitStage::Committing, "s", Err("nothing".to_string()))),
        Some(Err("commit failed: nothing".to_string()))
    );
    assert_eq!(
        finish(commit_step(CommitStage::Pushing, "s", Err(" no remote\n".to_string()))),
        Some(Ok("committed; push failed: no remote".to_string()))
    );
}

#[test]
fn untracked_files_show_as_additions() {
    assert_eq!(untracked_diff("a\nb\n"), "+a\n+b");
    assert_eq!(untracked_diff(""), "");
}

#[test]
fn changes_sort_by_path_keeping_ties_in_order() {
    let sorted = sort_changes(vec![
        change("b", ChangeKind::Modified, false),
        change("a", ChangeKind::Added, false),
        change("b", ChangeKind::Deleted, true),
    ]);
    let got: Vec<(String, ChangeKind)> = sorted.iter().map(|c| (c.path.clone(), c.kind)).collect();
    assert_eq!(
        got,
        vec![
            ("a".to_string(), ChangeKind::Added),
            ("b".to_string(), ChangeKind::Modified),
            ("b".to_string(), ChangeKind::Deleted),
        ]
    );
}

#[test]
fn ages_are_read_against_the_clock() {
    assert_eq!(relative_time_at(1_000, Some(1_059)), "just now");
    assert_eq!(relative_time_at(1_000, Some(1_120)), "2m");
    assert_eq!(relative_time_at(0, Some(7_200)), "2h");
    assert_eq!(relative_time_at(0, Some(3 * 86_400)), "3d");
    assert_eq!(relative_time_at(0, Some(2_592_000 * 5)), "5mo");
    assert_eq!(relative_time_at(5_000, Some(10)), "just now");
    assert_eq!(relative_time_at(5_000, None), "just now");
    assert_eq!(relative_time_at(-86_400, Some(0)), "1d");
}
