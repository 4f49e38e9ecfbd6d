use cargo_vibe::diff_risk::{
    parse_bracketed_finding, parse_diff_risk_finding, parse_findings_from_text, parse_location,
    parse_location_and_message, rule_from_diff_risk_label, rule_from_id, split_marker,
};
use cargo_vibe::finding::{Confidence, Finding, Location, RuleId, Severity};

#[test]
fn parses_diff_risk_human_output_without_banner() {
    let text = "\
🚨 DIFF RISK ASSESSMENT: [SCORE: 9.0/10.0 — CRITICAL RISK]

  🚨 Auth / Permission Gate: src/auth.rs:42 — auth check removed
  ⚠️ API Contract Change: src/lib.rs:7 — public function signature changed
";

    let findings = parse_findings_from_text(text, "diff-risk");

    assert_eq!(findings.len(), 2);
    assert_eq!(findings[0].rule, RuleId::AuthGate);
    assert_eq!(findings[0].severity, Severity::Critical);
    assert_eq!(findings[0].location.file, "src/auth.rs");
    assert_eq!(findings[0].location.line, 42);
    assert_eq!(findings[1].rule, RuleId::ApiContract);
    assert_eq!(findings[1].severity, Severity::High);
}

#[test]
fn parses_legacy_bracketed_diff_risk_output() {
    let text = "  🟡 [serde_drift] src/model.rs:12  serde field renamed";

    let findings = parse_findings_from_text(text, "diff-risk");

    assert_eq!(findings.len(), 1);
    assert_eq!(findings[0].rule, RuleId::SerdeDrift);
    assert_eq!(findings[0].severity, Severity::Medium);
    assert_eq!(findings[0].message, "serde field renamed");
}

#[test]
fn a_finding_carries_all_that_the_line_says() {
    let findings = parse_findings_from_text("🔵 [concurrency] src/a b.rs:3  lock  held ", "risk");
    assert_eq!(
        findings,
        vec![Finding {
            rule: RuleId::Concurrency,
            severity: Severity::Low,
            confidence: Confidence::Heuristic,
            location: Location { file: "src/a b.rs".to_string(), line: 3 },
            message: "lock  held".to_string(),
            tool: "risk".to_string(),
            id: None,
            action: None,
        }]
    );
}

#[test]
fn lines_without_a_finding_are_left_out() {
    let text = "\n   \t \n# a comment\ndiff-risk 1.0\n✅ No risky patterns detected.\n\
                DIFF RISK ASSESSMENT: none\nsome words\n[unclosed src/a.rs:1  x\n\
                Serde Schema Drift — no location\n";
    assert_eq!(parse_findings_from_text(text, "diff-risk"), Vec::new());
    assert_eq!(parse_findings_from_text("", "diff-risk"), Vec::new());
}

#[test]
fn a_carriage_return_ends_no_message() {
    let findings = parse_findings_from_text(
        "🚨 Serde Schema Drift: a.rs:1 — one\r\n⚠ Async Boundary Change: b.rs — two\r\n",
        "diff-risk",
    );
    assert_eq!(findings.len(), 2);
    assert_eq!(findings[0].message, "one");
    assert_eq!(findings[0].rule, RuleId::SerdeDrift);
    assert_eq!(findings[1].message, "two");
    assert_eq!(findings[1].rule, RuleId::AsyncBoundary);
    assert_eq!(findings[1].severity, Severity::High);
    assert_eq!(findings[1].location.file, "b.rs");
    assert_eq!(findings[1].location.line, 1);
}

#[test]
fn markers_stand_for_severities() {
    assert_eq!(split_marker("🚨 x"), (Severity::Critical, "x"));
    assert_eq!(split_marker("⚠️ x"), (Severity::High, "x"));
    assert_eq!(split_marker("⚠ x"), (Severity::High, "x"));
    assert_eq!(split_marker("🟡 x"), (Severity::Medium, "x"));
    assert_eq!(split_marker("✅ x"), (Severity::Low, "x"));
    assert_eq!(split_marker("🔵x "), (Severity::Low, "x"));
    assert_eq!(split_marker("  x "), (Severity::Medium, "x "));
    assert_eq!(split_marker(""), (Severity::Medium, ""));
}

#[test]
fn locations_end_in_a_line_number() {
    assert_eq!(parse_location("src/lib.rs:7"), ("src/lib.rs", 7));
    assert_eq!(parse_location("C:\\src\\lib.rs:+12"), ("C:\\src\\lib.rs", 12));
    assert_eq!(parse_location("src/lib.rs"), ("src/lib.rs", 1));
    assert_eq!(parse_location("src/lib.rs:x"), ("src/lib.rs:x", 1));
    assert_eq!(parse_location("src/lib.rs:"), ("src/lib.rs:", 1));
    assert_eq!(parse_location("a:4294967295"), ("a", 4294967295));
    assert_eq!(parse_location("a:4294967296"), ("a:4294967296", 1));
    assert_eq!(parse_location(""), ("", 1));
}

#[test]
fn two_blanks_end_a_location() {
    assert_eq!(
        parse_location_and_message("src/lib.rs:7   moved  on "),
        ("src/lib.rs", 7, "moved  on".to_string())
    );
    assert_eq!(parse_location_and_message("src/lib.rs:7 x"), ("src/lib.rs:7 x", 1, String::new()));
}

#[test]
fn only_their_own_form_is_read() {
    assert_eq!(parse_bracketed_finding("api_contract] a.rs:1  x", Severity::Low, "t"), None);
    assert_eq!(parse_bracketed_finding("[api_contract a.rs:1  x", Severity::Low, "t"), None);
    assert_eq!(parse_diff_risk_finding("API Contract Change: a.rs:1 - x", Severity::Low, "t"), None);
    assert_eq!(parse_diff_risk_finding("API Contract Change — a: b", Severity::Low, "t"), None);
    let f = parse_bracketed_finding("[]", Severity::Low, "t").unwrap();
    assert_eq!((f.rule, f.location.file.as_str(), f.location.line), (RuleId::Other, "", 1));
}

#[test]
fn rules_go_by_id_and_by_label() {
    assert_eq!(rule_from_id("api_contract"), RuleId::ApiContract);
    assert_eq!(rule_from_id("async_boundary"), RuleId::AsyncBoundary);
    assert_eq!(rule_from_id("serde_drift"), RuleId::SerdeDrift);
    assert_eq!(rule_from_id("auth_gate"), RuleId::AuthGate);
    assert_eq!(rule_from_id("concurrency"), RuleId::Concurrency);
    assert_eq!(rule_from_id("API Contract Change"), RuleId::Other);
    assert_eq!(rule_from_diff_risk_label("API Contract Change"), RuleId::ApiContract);
    assert_eq!(rule_from_diff_risk_label("Async Boundary Change"), RuleId::AsyncBoundary);
    assert_eq!(rule_from_diff_risk_label("Serde Schema Drift"), RuleId::SerdeDrift);
    assert_eq!(rule_from_diff_risk_label("Auth / Permission Gate"), RuleId::AuthGate);
    assert_eq!(rule_from_diff_risk_label("Concurrency / Memory Safety"), RuleId::Concurrency);
    assert_eq!(rule_from_diff_risk_label("auth_gate"), RuleId::Other);
}

#[test]
fn a_location_reads_back() {
    for (file, line) in [("src/a:b.rs", 0u32), ("", 7), ("x", 4294967295)] {
        let written = format!("{file}:{line}");
        assert_eq!(parse_location(&written), (file, line));
    }
}

#[test]
fn a_report_line_reads_back() {
    let written = Finding {
        rule: RuleId::AuthGate,
        severity: Severity::Critical,
        confidence: Confidence::Heuristic,
        location: Location { file: "src/auth gate.rs".to_string(), line: 42 },
        message: "check removed — twice".to_string(),
        tool: "diff-risk".to_string(),
        id: None,
        action: None,
    };
    let line = written.line("🚨", "auth_gate");
    assert_eq!(line, "🚨 [auth_gate] src/auth gate.rs:42  check removed — twice");
    assert_eq!(parse_findings_from_text(&line, "diff-risk"), vec![written]);
}

#[test]
fn a_labelled_line_reads_back() {
    let f = parse_diff_risk_finding(
        "Auth / Permission Gate: src/a — b.rs:9 — gone: here — now",
        Severity::High,
        "t",
    );
    // The dash in the name of the file ends the header.
    assert_eq!(f.as_ref().unwrap().location.file, "src/a");
    let f = parse_diff_risk_finding(
        "Auth / Permission Gate: src/a: b.rs:9 — gone: here — now",
        Severity::High,
        "t",
    )
    .unwrap();
    assert_eq!(f.rule, RuleId::AuthGate);
    assert_eq!(f.location.file, "src/a: b.rs");
    assert_eq!(f.location.line, 9);
    assert_eq!(f.message, "gone: here — now");
}
