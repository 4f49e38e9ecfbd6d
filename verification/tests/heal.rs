use cargo_vibe::apply::AppliedFileFix;
use cargo_vibe::heal::{FileSummary, HealEvent, HealRun, HealStage, MAX_HEAL_ITERATIONS};
use cargo_vibe::path::{FilePath, PathPart};
use cargo_vibe::suggestion::ClippySuggestion;

fn parts(shown: &str) -> Vec<PathPart> {
    shown.split('/').map(|name| PathPart::Normal(name.as_bytes().to_vec())).collect()
}

fn path(shown: &str) -> FilePath {
    FilePath { shown: shown.to_string(), parts: parts(shown), resolved: parts(shown) }
}

fn suggestion() -> ClippySuggestion {
    ClippySuggestion {
        file_path: "a.rs".to_string(),
        byte_start: 0,
        byte_end: 0,
        replacement: "x".to_string(),
        lint: None,
    }
}

fn fix(file: &str, applied: usize, lints: &[&str]) -> AppliedFileFix {
    AppliedFileFix {
        file: path(file),
        applied,
        lints: lints.iter().map(|lint| lint.to_string()).collect(),
    }
}

#[test]
fn without_suggestions_there_is_one_pass_and_no_report() {
    let mut run = HealRun::new();
    assert_eq!(run.stage, HealStage::Lint);
    run.step(HealEvent::Found(Vec::new()));
    assert_eq!(run.stage, HealStage::Finished);
    assert_eq!(run.iteration, 1);
    assert_eq!(run.total, 0);
    assert_eq!(run.report(), Vec::<String>::new());
}

#[test]
fn passes_end_where_nothing_is_applied() {
    let mut run = HealRun::new();
    run.step(HealEvent::Found(vec![suggestion()]));
    assert_eq!(run.stage, HealStage::Apply(vec![suggestion()]));
    run.step(HealEvent::Applied(vec![fix("a.rs", 0, &[])]));
    assert_eq!(run.stage, HealStage::Finished);
    assert_eq!(run.report(), Vec::<String>::new());
}

#[test]
fn passes_are_bounded() {
    let mut run = HealRun::new();
    let mut runs = 0;
    while run.stage != HealStage::Finished {
        assert_eq!(run.stage, HealStage::Lint);
        runs += 1;
        assert_eq!(run.iteration, runs);
        run.step(HealEvent::Found(vec![suggestion()]));
        run.step(HealEvent::Applied(vec![fix("a.rs", 1, &["l"])]));
    }
    assert_eq!(runs, MAX_HEAL_ITERATIONS);
    assert_eq!(MAX_HEAL_ITERATIONS, 5);
    assert_eq!(run.total, 5);
    assert_eq!(run.per_file.len(), 1);
    assert_eq!(run.per_file[0].fixes, 5);
}

#[test]
fn the_summary_reports_all_fixes_by_file() {
    let mut run = HealRun::new();
    run.step(HealEvent::Found(vec![suggestion()]));
    run.step(HealEvent::Applied(vec![
        fix("src/b.rs", 2, &["z", "a"]),
        fix("src/a.rs", 1, &[]),
    ]));
    run.step(HealEvent::Found(vec![suggestion()]));
    run.step(HealEvent::Applied(vec![fix("src/b.rs", 3, &["m", "a"])]));
    run.step(HealEvent::Found(Vec::new()));
    assert_eq!(run.stage, HealStage::Finished);
    assert_eq!(run.total, 6);
    assert_eq!(
        run.report(),
        vec![
            "      Clippy Auto-Healer: auto-applied 6 fix(es) across 2 file(s):".to_string(),
            "        src/a.rs: 1 fix(es)".to_string(),
            "        src/b.rs: 5 fix(es) [a, m, z]".to_string(),
            "      These changes are part of your working tree and will be included in the risk-checked diff.".to_string(),
        ]
    );
    assert_eq!(run.per_file.iter().map(|f| f.fixes).sum::<usize>(), run.total);
}

#[test]
fn files_are_reported_in_order() {
    let mut run = HealRun::new();
    run.step(HealEvent::Found(vec![suggestion()]));
    let names = ["c", "a/b", "b", "a", "a.x"];
    run.step(HealEvent::Applied(names.iter().map(|name| fix(name, 1, &[])).collect()));
    let shown: Vec<&str> = run.per_file.iter().map(|f| f.file.shown.as_str()).collect();
    assert_eq!(shown, vec!["a", "a/b", "a.x", "b", "c"]);
}

#[test]
fn a_file_under_a_second_name_is_reported_under_the_first() {
    let mut run = HealRun::new();
    run.step(HealEvent::Found(vec![suggestion()]));
    run.step(HealEvent::Applied(vec![fix("m", 1, &["l"]), fix("z", 1, &[])]));
    run.step(HealEvent::Found(vec![suggestion()]));
    let mut second = fix("a/link", 2, &["k"]);
    second.file.resolved = parts("z");
    run.step(HealEvent::Applied(vec![second]));
    let lines: Vec<String> = run.per_file.iter().map(|f| f.line()).collect();
    assert_eq!(lines, vec!["        m: 1 fix(es) [l]", "        z: 3 fix(es) [k]"]);
    assert_eq!(run.total, 4);
}

#[test]
fn events_that_were_not_asked_for_change_nothing() {
    let mut run = HealRun::new();
    run.step(HealEvent::Applied(vec![fix("a.rs", 1, &[])]));
    assert_eq!(run, HealRun::new());
    run.step(HealEvent::Found(vec![suggestion()]));
    run.step(HealEvent::Found(Vec::new()));
    assert_eq!(run.stage, HealStage::Apply(vec![suggestion()]));
}

#[test]
fn a_count_that_does_not_fit_is_told_beforehand() {
    let mut run = HealRun::new();
    let most = HealEvent::Applied(vec![fix("a.rs", usize::MAX, &[])]);
    let more = HealEvent::Applied(vec![fix("a.rs", usize::MAX, &[]), fix("b.rs", 1, &[])]);
    assert!(run.fits(&more));
    run.step(HealEvent::Found(vec![suggestion()]));
    assert!(run.fits(&most));
    assert!(!run.fits(&more));
}

#[test]
fn a_summary_is_one_line() {
    let mut summary =
        FileSummary { file: path("src/x.rs"), fixes: 10, lints: vec!["clippy::a".to_string()] };
    assert_eq!(summary.line(), "        src/x.rs: 10 fix(es) [clippy::a]");
    summary.lints.push("clippy::b".to_string());
    assert_eq!(summary.line(), "        src/x.rs: 10 fix(es) [clippy::a, clippy::b]");
}
