use cargo_vibe::command::{
    clippy_args, drop_subcommand, fix_context_args, fix_drift_args, fix_impact_args, fix_risk_args,
    plan_check_drift, plan_check_impact, plan_check_risk, plan_context, plan_drift, plan_impact, plan_risk,
};
use cargo_vibe::config::{
    has_flag, risk_threshold, tool_enabled, tool_extra_args, VibeConfig, VibeSettings,
    VibeToolConfig,
};

fn strings(list: &[&str]) -> Vec<String> {
    list.iter().map(|s| s.to_string()).collect()
}

fn tool(enabled: Option<bool>, extra: &[&str]) -> VibeToolConfig {
    VibeToolConfig { enabled, threshold: None, extra_args: strings(extra) }
}

fn config() -> VibeConfig {
    VibeConfig {
        vibe: VibeSettings { threshold: None, token_budget: None },
        diff_risk: tool(None, &[]),
        cargo_impact: tool(None, &[]),
        spec_drift: tool(None, &[]),
        cargo_context: tool(None, &[]),
    }
}

#[test]
fn tools_run_unless_they_are_switched_off() {
    assert!(tool_enabled(None));
    assert!(tool_enabled(Some(&tool(None, &[]))));
    assert!(tool_enabled(Some(&tool(Some(true), &[]))));
    assert!(!tool_enabled(Some(&tool(Some(false), &[]))));
    let mut c = config();
    c.diff_risk = tool(Some(false), &["-v"]);
    c.cargo_impact = tool(Some(false), &[]);
    c.spec_drift = tool(Some(false), &[]);
    c.cargo_context = tool(Some(false), &[]);
    assert_eq!(plan_risk(Some("1"), "text", Some(&c)), None);
    assert_eq!(plan_check_risk(Some(&c)), None);
    assert_eq!(plan_check_impact("HEAD", Some(&c)), None);
    assert_eq!(plan_check_drift("HEAD", Some(&c)), None);
    assert_eq!(plan_impact("HEAD", true, "text", Some(&c)), None);
    assert_eq!(plan_drift(None, "text", "notice", Some(&c)), None);
    assert_eq!(plan_context("fix", None, Some(&c)), None);
}

#[test]
fn extra_arguments_are_those_of_the_project() {
    assert_eq!(tool_extra_args(None), &[] as &[String]);
    assert_eq!(tool_extra_args(Some(&tool(None, &["-a", "b"]))), strings(&["-a", "b"]).as_slice());
}

#[test]
fn a_flag_is_found_alone_or_with_a_value() {
    let args = strings(&["--confidence-min=0.9", "--verbose"]);
    assert!(has_flag(&args, "--confidence-min"));
    assert!(has_flag(&args, "--verbose"));
    assert!(!has_flag(&args, "--confidence"));
    assert!(!has_flag(&args, "--confidence-min=0.9x"));
    assert!(!has_flag(&strings(&["--confidence-minimum"]), "--confidence-min"));
    assert!(!has_flag(&[], "--verbose"));
}

#[test]
fn the_nearest_threshold_counts() {
    let mut c = config();
    assert_eq!(risk_threshold(None, None), "7");
    assert_eq!(risk_threshold(None, Some(&c)), "7");
    c.vibe.threshold = Some("5.5".to_string());
    assert_eq!(risk_threshold(None, Some(&c)), "5.5");
    c.diff_risk.threshold = Some("3".to_string());
    assert_eq!(risk_threshold(None, Some(&c)), "3");
    assert_eq!(risk_threshold(Some("1"), Some(&c)), "1");
    assert_eq!(risk_threshold(Some("1"), None), "1");
    assert_eq!(format!("{}", 7.0f32), "7");
}

#[test]
fn diff_risk_gets_its_threshold_and_format() {
    let mut c = config();
    c.diff_risk = tool(None, &["--quiet"]);
    assert_eq!(
        plan_risk(None, "json", Some(&c)),
        Some(strings(&["--threshold", "7", "--format", "json", "--quiet"]))
    );
    assert_eq!(
        plan_risk(Some("2.5"), "text", None),
        Some(strings(&["--threshold", "2.5", "--format", "text"]))
    );
}

#[test]
fn a_check_of_the_risk_gets_the_threshold_of_the_project() {
    let mut c = config();
    c.diff_risk = tool(None, &["--quiet"]);
    c.vibe.threshold = Some("4.5".to_string());
    assert_eq!(plan_check_risk(Some(&c)), Some(strings(&["--threshold", "4.5", "--quiet"])));
    assert_eq!(plan_check_risk(None), Some(strings(&["--threshold", "7"])));
}

#[test]
fn a_check_of_the_impact_has_a_lower_bound_of_confidence() {
    let mut c = config();
    assert_eq!(
        plan_check_impact("main", Some(&c)),
        Some(strings(&["--since", "main", "--format", "json", "--confidence-min", "0.5"]))
    );
    c.cargo_impact = tool(None, &["--confidence-min", "0.9"]);
    assert_eq!(
        plan_check_impact("main", Some(&c)),
        Some(strings(&["--since", "main", "--format", "json", "--confidence-min", "0.9"]))
    );
    c.cargo_impact = tool(None, &["--confidence-min=0.9"]);
    assert_eq!(
        plan_check_impact("main", Some(&c)),
        Some(strings(&["--since", "main", "--format", "json", "--confidence-min=0.9"]))
    );
}

#[test]
fn a_check_of_the_drift_reports_in_json() {
    assert_eq!(
        plan_check_drift("main", None),
        Some(strings(&["--format", "json", "--diff", "main"]))
    );
}

#[test]
fn tools_are_called_for_their_own_reports() {
    let mut c = config();
    c.cargo_impact = tool(None, &["-v"]);
    c.spec_drift = tool(Some(true), &["-v"]);
    assert_eq!(
        plan_impact("HEAD", true, "text", Some(&c)),
        Some(strings(&["--since", "HEAD", "--test", "-v"]))
    );
    assert_eq!(
        plan_impact("HEAD", false, "json", None),
        Some(strings(&["--since", "HEAD", "--format", "json"]))
    );
    assert_eq!(
        plan_drift(Some("main"), "text", "notice", Some(&c)),
        Some(strings(&["--format", "text", "--deny", "notice", "--diff", "main", "-v"]))
    );
    assert_eq!(
        plan_drift(None, "text", "notice", None),
        Some(strings(&["--format", "text", "--deny", "notice"]))
    );
}

#[test]
fn the_nearest_token_budget_counts() {
    let mut c = config();
    c.cargo_context = tool(None, &["-v"]);
    assert_eq!(plan_context("fix", None, None), Some(strings(&["--preset", "fix"])));
    assert_eq!(plan_context("fix", None, Some(&c)), Some(strings(&["--preset", "fix", "-v"])));
    c.vibe.token_budget = Some(8000);
    assert_eq!(
        plan_context("feature", None, Some(&c)),
        Some(strings(&["--preset", "feature", "--max-tokens", "8000", "-v"]))
    );
    assert_eq!(
        plan_context("feature", Some(16), Some(&c)),
        Some(strings(&["--preset", "feature", "--max-tokens", "16", "-v"]))
    );
}

#[test]
fn tools_are_called_between_two_attempts() {
    assert_eq!(fix_impact_args("main"), strings(&["--since", "main", "--fail-on", "high"]));
    assert_eq!(fix_drift_args(), strings(&["--format", "json", "--deny", "warning"]));
    assert_eq!(fix_risk_args("7"), strings(&["--threshold", "7"]));
    assert_eq!(fix_context_args(), strings(&["--preset", "fix"]));
    assert_eq!(clippy_args(), strings(&["clippy", "--all-targets", "--message-format=json"]));
}

#[test]
fn the_name_of_the_subcommand_is_dropped() {
    let mut args = vec![1, 2, 3];
    drop_subcommand(&mut args, Some("vibe"));
    assert_eq!(args, vec![1, 3]);
    drop_subcommand(&mut args, Some("check"));
    drop_subcommand(&mut args, None);
    assert_eq!(args, vec![1, 3]);
    let mut alone = vec![1];
    drop_subcommand(&mut alone, Some("vibe"));
    assert_eq!(alone, vec![1]);
}
