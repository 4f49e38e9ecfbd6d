use cargo_vibe::check::ToolOutput;
use cargo_vibe::fix::{
    diff_cuts_cleanly, FixEvent, FixLoop, FixMove, FixStep, GateResult, Notice, VerifyReport,
    DIFF_LIMIT, DRIFT_LIMIT,
};

fn fix_loop(max_attempts: usize, auto_heal: bool) -> FixLoop {
    FixLoop::new("/project", "do it", max_attempts, "7", "HEAD", auto_heal)
}

fn line(s: &str) -> FixEvent {
    FixEvent::UserInput(s.to_string())
}

fn diff(s: &str) -> FixEvent {
    FixEvent::DiffRead(Some(s.to_string()))
}

fn output(success: bool, stdout: &str) -> Option<ToolOutput> {
    Some(ToolOutput { success, stdout: stdout.to_string() })
}

/// The step that `events` lead to, and all that the user was told on the way.
fn run(fixer: &FixLoop, events: Vec<FixEvent>) -> (FixStep, Vec<Notice>) {
    let FixMove { mut step, mut notices } = fixer.start();
    for event in events {
        let mut next = fixer.step(step, event);
        step = next.step;
        notices.append(&mut next.notices);
    }
    (step, notices)
}

#[test]
fn a_loop_holds_what_it_was_made_with() {
    let fixer = FixLoop::new("/p", "prompt", 3, "7.5", "main", true);
    assert_eq!(
        fixer,
        FixLoop {
            root: "/p".to_string(),
            prompt: "prompt".to_string(),
            max_attempts: 3,
            risk_threshold: "7.5".to_string(),
            since: "main".to_string(),
            auto_heal: true,
        }
    );
}

#[test]
fn a_loop_without_attempts_is_over_at_once() {
    let start = fix_loop(0, false).start();
    assert_eq!(
        start.step,
        FixStep::Finished { result: GateResult::TimedOut { attempts: 0 } }
    );
    assert_eq!(start.notices, Vec::new());
}

#[test]
fn an_attempt_that_passes_all_checks_ends_the_loop() {
    let (step, notices) = run(
        &fix_loop(2, false),
        vec![
            FixEvent::ContextBuilt { length: 12 },
            line("\n"),
            diff("+x"),
            FixEvent::RiskChecked(true),
            FixEvent::Verified { impact: true, drift: true },
        ],
    );
    assert_eq!(step, FixStep::Finished { result: GateResult::Passed });
    assert_eq!(
        notices,
        vec![
            Notice::AttemptStarted { attempt: 1, max: 2 },
            Notice::ContextReady { length: 12 },
            Notice::PromptShown,
            Notice::CheckingRisk,
            Notice::RiskPassed,
            Notice::Verifying,
            Notice::AllPassed,
        ]
    );
}

#[test]
fn the_user_can_quit() {
    for typed in ["q", " q\n", "\tq\r\n"] {
        let (step, _) =
            run(&fix_loop(3, true), vec![FixEvent::ContextBuilt { length: 0 }, line(typed)]);
        assert_eq!(
            step,
            FixStep::Finished { result: GateResult::Failed { reason: "user quit".to_string() } }
        );
    }
    let (step, _) = run(&fix_loop(3, false), vec![FixEvent::ContextBuilt { length: 0 }, line("qq")]);
    assert_eq!(step, FixStep::ReadDiff { attempt: 1 });
}

#[test]
fn the_healer_runs_before_the_diff_is_read_and_only_where_it_was_opted_in_to() {
    let start = || vec![FixEvent::ContextBuilt { length: 0 }, line("")];
    assert_eq!(run(&fix_loop(1, true), start()).0, FixStep::AutoHeal { attempt: 1 });
    assert_eq!(run(&fix_loop(1, false), start()).0, FixStep::ReadDiff { attempt: 1 });
    for (applied, told) in [
        (Some(0), vec![Notice::CheckingRisk]),
        (Some(4), vec![Notice::CheckingRisk, Notice::FixesInDiff { count: 4 }]),
        (None, vec![Notice::HealerFailed, Notice::CheckingRisk]),
    ] {
        let next = fix_loop(1, true).step(FixStep::AutoHeal { attempt: 1 }, FixEvent::Healed(applied));
        assert_eq!(next.step, FixStep::ReadDiff { attempt: 1 });
        assert_eq!(next.notices, told);
    }
}

#[test]
fn without_changes_the_risk_needs_no_check() {
    let fixer = fix_loop(1, false);
    let next = fixer.step(FixStep::ReadDiff { attempt: 1 }, diff(" \n"));
    assert_eq!(next.step, FixStep::Verify { attempt: 1 });
    assert_eq!(next.notices, vec![Notice::NoChanges, Notice::RiskPassed, Notice::Verifying]);
    let next = fixer.step(FixStep::ReadDiff { attempt: 1 }, FixEvent::DiffRead(None));
    assert_eq!(next.step, FixStep::Verify { attempt: 1 });
    assert_eq!(next.notices, vec![Notice::NoDiff, Notice::RiskPassed, Notice::Verifying]);
}

#[test]
fn a_risk_above_the_threshold_takes_another_attempt() {
    let fixer = fix_loop(2, false);
    let next = fixer.step(FixStep::CheckRisk { attempt: 1 }, FixEvent::RiskChecked(false));
    assert_eq!(next.step, FixStep::BuildContext { attempt: 2 });
    assert_eq!(
        next.notices,
        vec![
            Notice::RiskExceeded,
            Notice::RetryWithRisk,
            Notice::AttemptStarted { attempt: 2, max: 2 },
        ]
    );
    let next = fixer.step(FixStep::CheckRisk { attempt: 2 }, FixEvent::RiskChecked(false));
    assert_eq!(
        next.step,
        FixStep::Finished {
            result: GateResult::Failed {
                reason: "risk threshold exceeded after all attempts".to_string()
            }
        }
    );
    assert_eq!(next.notices, vec![Notice::RiskExceeded]);
}

#[test]
fn failed_checks_take_another_attempt_until_none_is_left() {
    let fixer = fix_loop(2, false);
    let next = fixer
        .step(FixStep::Verify { attempt: 1 }, FixEvent::Verified { impact: false, drift: true });
    assert_eq!(next.step, FixStep::BuildContext { attempt: 2 });
    assert_eq!(
        next.notices,
        vec![
            Notice::ImpactAffected,
            Notice::RetryWithFailures,
            Notice::AttemptStarted { attempt: 2, max: 2 },
        ]
    );
    let next = fixer
        .step(FixStep::Verify { attempt: 2 }, FixEvent::Verified { impact: false, drift: false });
    assert_eq!(
        next.step,
        FixStep::Finished { result: GateResult::TimedOut { attempts: 2 } }
    );
    assert_eq!(next.notices, vec![Notice::ImpactAffected, Notice::DriftStale]);
}

#[test]
fn a_loop_takes_no_more_than_its_attempts() {
    let fixer = fix_loop(3, true);
    let mut events = Vec::new();
    for _ in 0..10 {
        events.push(FixEvent::ContextBuilt { length: 1 });
        events.push(line(""));
        events.push(FixEvent::Healed(Some(1)));
        events.push(diff("+x"));
        events.push(FixEvent::RiskChecked(true));
        events.push(FixEvent::Verified { impact: true, drift: false });
    }
    let (step, notices) = run(&fixer, events);
    assert_eq!(step, FixStep::Finished { result: GateResult::TimedOut { attempts: 3 } });
    let started = notices.iter().filter(|n| matches!(n, Notice::AttemptStarted { .. })).count();
    assert_eq!(started, 3);
}

#[test]
fn events_that_do_not_answer_the_step_change_nothing() {
    let fixer = fix_loop(2, true);
    let next = fixer.step(FixStep::BuildContext { attempt: 1 }, FixEvent::RiskChecked(true));
    assert_eq!(next.step, FixStep::BuildContext { attempt: 1 });
    assert_eq!(next.notices, Vec::new());
    let over = || FixStep::Finished { result: GateResult::Passed };
    let next = fixer.step(over(), FixEvent::Verified { impact: false, drift: false });
    assert_eq!(next.step, over());
}

#[test]
fn the_context_is_that_of_the_tool_where_it_succeeds() {
    let fixer = fix_loop(1, false);
    assert_eq!(fixer.build_context(output(true, "packed"), Some("+x")), "packed");
    assert_eq!(
        fixer.build_context(output(false, "packed"), Some("+x")),
        "# Project Context\n\n## Recent Changes\n\n```diff\n+x\n```\n\n## Instructions\n\ndo it"
    );
    assert_eq!(
        fixer.build_context(None, None),
        "# Project Context\n\n## Instructions\n\ndo it"
    );
    assert_eq!(
        fixer.build_context(None, Some(" \n")),
        "# Project Context\n\n## Instructions\n\ndo it"
    );
}

#[test]
fn a_long_diff_is_cut_off() {
    let fixer = fix_loop(1, false);
    assert_eq!(DIFF_LIMIT, 4000);
    let exact = "x".repeat(4000);
    assert_eq!(
        fixer.build_context(None, Some(&exact)),
        format!(
            "# Project Context\n\n## Recent Changes\n\n```diff\n{exact}\n```\n\n## Instructions\n\ndo it"
        )
    );
    let long = format!("{}ä", "ö".repeat(2000));
    assert!(diff_cuts_cleanly(&long));
    assert_eq!(
        fixer.build_context(None, Some(&long)),
        format!(
            "# Project Context\n\n## Recent Changes\n\n```diff\n{}...\n(truncated)\n```\n\n## Instructions\n\ndo it",
            "ö".repeat(2000)
        )
    );
    let astride = format!("x{}", "ö".repeat(2000));
    assert!(!diff_cuts_cleanly(&astride));
    assert!(diff_cuts_cleanly("ö"));
}

#[test]
fn only_a_tool_that_ran_can_fail_a_check() {
    let fixer = fix_loop(1, false);
    assert!(fixer.check_risk(&None));
    assert!(fixer.check_risk(&output(true, "")));
    assert!(!fixer.check_risk(&output(false, "")));
    assert_eq!(
        fixer.verify(&None, &None),
        VerifyReport {
            impact: true,
            drift: true,
            divergences: 0,
            show_impact: false,
            show_drift: false,
        }
    );
}

#[test]
fn failures_of_the_checks_are_shown() {
    let fixer = fix_loop(1, false);
    let drift = r#"[{"rule": "lying_test"}, {"rule": "ghost_command"}]"#;
    let report = fixer.verify(&output(false, "3 tests"), &output(false, drift));
    assert_eq!(
        report,
        VerifyReport {
            impact: false,
            drift: false,
            divergences: 2,
            show_impact: true,
            show_drift: true,
        }
    );
    let report = fixer.verify(&output(true, "3 tests"), &output(true, "[]"));
    assert_eq!(
        report,
        VerifyReport {
            impact: true,
            drift: true,
            divergences: 0,
            show_impact: false,
            show_drift: false,
        }
    );
    assert!(!fixer.verify(&output(false, " \n"), &None).show_impact);
}

#[test]
fn a_long_drift_report_is_not_shown() {
    let fixer = fix_loop(1, false);
    assert_eq!(DRIFT_LIMIT, 2000);
    let just = format!("\"rule\"{}", "x".repeat(2000 - 6 - 1));
    assert!(fixer.verify(&None, &output(true, &just)).show_drift);
    let long = format!("\"rule\"{}", "x".repeat(2000 - 6));
    let report = fixer.verify(&None, &output(true, &long));
    assert!(!report.show_drift);
    assert_eq!(report.divergences, 1);
    assert!(report.drift);
}

#[test]
fn results_have_an_exit_code_and_a_message() {
    assert_eq!(GateResult::Passed.exit_code(), 0);
    assert_eq!(GateResult::Passed.message(), "cargo-vibe: fix loop completed successfully.");
    let failed = GateResult::Failed { reason: "user quit".to_string() };
    assert_eq!(failed.exit_code(), 1);
    assert_eq!(failed.message(), "cargo-vibe: fix loop failed: user quit");
    let over = GateResult::TimedOut { attempts: 12 };
    assert_eq!(over.exit_code(), 1);
    assert_eq!(over.message(), "cargo-vibe: fix loop exhausted 12 attempts without success.");
}
