use cargo_vibe::check::{
    check_report, output_or_skip_missing, report_format, tool_exit_code, CheckReport, LaunchFailure,
    ReportFormat, ToolOutput,
};
use cargo_vibe::finding::{count_severity, Confidence, Finding, Location, RuleId, Severity};
use cargo_vibe::json::Json;
use cargo_vibe::tool_report::{
    parse_drift_json, parse_impact_json, DriftDivergence, ImpactFinding,
};

fn text(s: &str) -> Json {
    Json::Text(s.to_string())
}

fn object(members: Vec<(&str, Json)>) -> Json {
    Json::Object(members.into_iter().map(|(name, value)| (name.to_string(), value)).collect())
}

fn impact(severity: &str, kind: Json) -> ImpactFinding {
    ImpactFinding {
        id: "f-1".to_string(),
        severity: severity.to_string(),
        evidence: "calls it".to_string(),
        suggested_action: None,
        kind,
    }
}

fn drift(rule: &str, severity: &str) -> DriftDivergence {
    DriftDivergence {
        rule: rule.to_string(),
        severity: severity.to_string(),
        file: "README.md".to_string(),
        line: 4,
        stated: "cargo run".to_string(),
        risk: "readers are misled".to_string(),
    }
}

fn impact_of(finding: ImpactFinding) -> Finding {
    parse_impact_json(&Some(vec![finding])).remove(0)
}

fn drift_of(divergence: DriftDivergence) -> Finding {
    parse_drift_json(&Some(vec![divergence])).remove(0)
}

#[test]
fn findings_of_cargo_impact_are_converted() {
    let mut found = impact(
        "high",
        object(vec![
            ("kind", text("test_reference")),
            ("test", object(vec![("file", text("tests/a.rs"))])),
            ("file", text("src/a.rs")),
        ]),
    );
    found.suggested_action = Some("run it".to_string());
    assert_eq!(
        impact_of(found),
        Finding {
            rule: RuleId::TestReference,
            severity: Severity::High,
            confidence: Confidence::Heuristic,
            location: Location { file: "tests/a.rs".to_string(), line: 1 },
            message: "calls it".to_string(),
            tool: "cargo-impact".to_string(),
            id: Some("f-1".to_string()),
            action: Some("run it".to_string()),
        }
    );
    assert_eq!(impact_of(impact("low", Json::Null)).action, Some(String::new()));
}

#[test]
fn severities_and_rules_of_cargo_impact() {
    for (name, severity) in [
        ("high", Severity::High),
        ("medium", Severity::Medium),
        ("low", Severity::Low),
        ("critical", Severity::Medium),
    ] {
        assert_eq!(impact_of(impact(name, Json::Null)).severity, severity);
    }
    for (name, rule) in [
        ("test_reference", RuleId::TestReference),
        ("trait_impl", RuleId::TraitImpl),
        ("ffi_signature_change", RuleId::FfiSignatureChange),
        ("build_script_changed", RuleId::BuildScriptChanged),
        ("other", RuleId::Other),
    ] {
        let kind = object(vec![("kind", text(name))]);
        assert_eq!(impact_of(impact("low", kind)).rule, rule);
    }
    let kind = object(vec![("kind", Json::Bool(true))]);
    assert_eq!(impact_of(impact("low", kind)).rule, RuleId::Other);
}

#[test]
fn the_file_of_a_finding_of_cargo_impact() {
    let file = |kind: Json| impact_of(impact("low", kind)).location.file;
    assert_eq!(file(object(vec![("file", text("a.rs"))])), "a.rs");
    assert_eq!(file(object(vec![("test", text("t")), ("file", text("a.rs"))])), "a.rs");
    // A file that the test names goes first, even where it is no text.
    let test = object(vec![("file", Json::Null)]);
    assert_eq!(file(object(vec![("test", test), ("file", text("a.rs"))])), "unknown");
    assert_eq!(file(object(vec![])), "unknown");
    assert_eq!(file(Json::Null), "unknown");
}

#[test]
fn divergences_of_spec_drift_are_converted() {
    assert_eq!(
        drift_of(drift("ghost_command", "critical")),
        Finding {
            rule: RuleId::GhostCommand,
            severity: Severity::Critical,
            confidence: Confidence::Deterministic,
            location: Location { file: "README.md".to_string(), line: 4 },
            message: "readers are misled — expected: cargo run".to_string(),
            tool: "spec-drift".to_string(),
            id: None,
            action: None,
        }
    );
    for (name, severity) in [
        ("critical", Severity::Critical),
        ("warning", Severity::High),
        ("notice", Severity::Medium),
    ] {
        assert_eq!(drift_of(drift("x", name)).severity, severity);
    }
    for (name, rule) in [
        ("symbol_absence", RuleId::SymbolAbsence),
        ("compile_failure", RuleId::CompileFailure),
        ("lying_test", RuleId::LyingTest),
        ("ghost_command", RuleId::GhostCommand),
        ("x", RuleId::Other),
    ] {
        assert_eq!(drift_of(drift(name, "notice")).rule, rule);
    }
}

#[test]
fn without_a_report_there_are_no_findings() {
    assert_eq!(parse_impact_json(&None), Vec::new());
    assert_eq!(parse_impact_json(&Some(Vec::new())), Vec::new());
    assert_eq!(parse_drift_json(&None), Vec::new());
}

#[test]
fn a_report_holds_the_findings_of_all_tools() {
    let risk = Some(ToolOutput {
        success: false,
        stdout: "🚨 Auth / Permission Gate: src/auth.rs:42 — auth check removed\n".to_string(),
    });
    let report = check_report(
        &risk,
        &Some(vec![impact("high", Json::Null), impact("low", Json::Null)]),
        &Some(vec![drift("x", "warning"), drift("x", "critical")]),
    );
    let tools: Vec<&str> = report.findings.iter().map(|f| f.tool.as_str()).collect();
    assert_eq!(
        tools,
        vec!["diff-risk", "cargo-impact", "cargo-impact", "spec-drift", "spec-drift"]
    );
    assert!(report.risk_failed);
    assert_eq!(report.critical, 2);
    assert_eq!(report.high, 2);
    assert_eq!(report.total_line(), "  Total: 5 finding(s) | Critical: 2 | High: 2");
    assert_eq!(count_severity(&report.findings, Severity::Low), 1);
}

#[test]
fn only_a_strict_check_fails() {
    let ok = |stdout: &str| Some(ToolOutput { success: true, stdout: stdout.to_string() });
    let empty = check_report(&None, &None, &None);
    assert_eq!(empty, CheckReport { findings: Vec::new(), risk_failed: false, critical: 0, high: 0 });
    assert_eq!(empty.exit_code(true), 0);
    assert_eq!(empty.exit_code(false), 0);
    let risky = check_report(&Some(ToolOutput { success: false, stdout: String::new() }), &None, &None);
    assert_eq!(risky.exit_code(true), 1);
    assert_eq!(risky.exit_code(false), 0);
    for (line, code) in [
        ("🚨 [x] a:1  m", 1),
        ("⚠️ [x] a:1  m", 1),
        ("🟡 [x] a:1  m", 0),
        ("✅ [x] a:1  m", 0),
    ] {
        let report = check_report(&ok(line), &None, &None);
        assert_eq!(report.findings.len(), 1);
        assert_eq!(report.exit_code(true), code);
        assert_eq!(report.exit_code(false), 0);
    }
}

#[test]
fn a_missing_tool_is_skipped() {
    assert_eq!(output_or_skip_missing(Ok(3), "diff-risk"), Ok(Some(3)));
    let missing: Result<i32, LaunchFailure> = Err(LaunchFailure::Missing);
    assert_eq!(output_or_skip_missing(missing, "diff-risk"), Ok(None));
    let other: Result<i32, LaunchFailure> = Err(LaunchFailure::Other("denied".to_string()));
    assert_eq!(
        output_or_skip_missing(other, "diff-risk"),
        Err("running diff-risk: denied".to_string())
    );
}

#[test]
fn formats_go_by_name() {
    assert_eq!(report_format("json"), ReportFormat::Json);
    assert_eq!(report_format("sarif"), ReportFormat::Sarif);
    assert_eq!(report_format("text"), ReportFormat::Text);
    assert_eq!(report_format("JSON"), ReportFormat::Text);
}

#[test]
fn tools_hand_their_failure_through() {
    assert_eq!(tool_exit_code(true), 0);
    assert_eq!(tool_exit_code(false), 1);
}

#[test]
fn a_finding_is_one_line_of_the_text_report() {
    let found = drift_of(drift("lying_test", "warning"));
    assert_eq!(
        found.line("⚠️", "lying_test"),
        "⚠️ [lying_test] README.md:4  readers are misled — expected: cargo run"
    );
}
