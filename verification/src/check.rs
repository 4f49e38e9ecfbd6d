//! The health check: what the tools found, and whether that is a failure.

use vstd::prelude::*;
use vstd::string::*;

use crate::diff_risk;
use crate::finding;
use crate::finding::{Finding, Severity};
use crate::number;
use crate::text;
use crate::tool_report;
use crate::tool_report::{DriftDivergence, ImpactFinding};

verus! {

/// What a tool left behind: whether it succeeded, and what it printed.
#[derive(Debug, PartialEq, Eq)]
pub struct ToolOutput {
    pub success: bool,
    pub stdout: String,
}

/// Why a tool did not run.
#[derive(Debug, PartialEq, Eq)]
pub enum LaunchFailure {
    /// It is not installed.
    Missing,
    /// Any other reason, in words.
    Other(String),
}

/// The result of a health check.
#[derive(Debug, PartialEq, Eq)]
pub struct CheckReport {
    pub findings: Vec<Finding>,
    pub risk_failed: bool,
    pub critical: usize,
    pub high: usize,
}

/// How a report is shown.
#[derive(Debug, Clone, Copy, PartialEq, Eq, Structural)]
pub enum ReportFormat {
    Text,
    Json,
    Sarif,
}

/// The findings of diff-risk. Where it did not run there are none.
pub open spec fn risk_findings(risk: Option<ToolOutput>) -> Seq<finding::FindingView> {
    match risk {
        Some(output) => diff_risk::findings_in(output.stdout@, "diff-risk"@),
        None => Seq::empty(),
    }
}

/// Whether diff-risk ran and failed.
pub open spec fn risk_exceeded(risk: Option<ToolOutput>) -> bool {
    risk matches Some(output) && !output.success
}

/// All findings: those of diff-risk, then those of cargo-impact, then those of spec-drift.
pub open spec fn all_findings(
    risk: Option<ToolOutput>,
    impact: Option<Vec<ImpactFinding>>,
    drift: Option<Vec<DriftDivergence>>,
) -> Seq<finding::FindingView> {
    risk_findings(risk) + tool_report::impact_findings(impact) + tool_report::drift_findings(drift)
}

/// Whether a check fails: only a strict one does, for a risk above the threshold or for
/// any finding of critical or high severity.
pub open spec fn check_fails(
    strict: bool,
    risk_failed: bool,
    findings: Seq<finding::FindingView>,
) -> bool {
    strict && (risk_failed || exists|i: int|
        0 <= i < findings.len() && ((#[trigger] findings[i]).severity == Severity::Critical
            || findings[i].severity == Severity::High))
}

/// The line that sums a report up.
pub open spec fn total_text(total: nat, critical: nat, high: nat) -> Seq<char> {
    "  Total: "@ + number::numeral(total) + " finding(s) | Critical: "@ + number::numeral(critical)
        + " | High: "@ + number::numeral(high)
}

/// The format with the given name. Any other name stands for text.
pub open spec fn format_called(name: Seq<char>) -> ReportFormat {
    if name == "json"@ {
        ReportFormat::Json
    } else if name == "sarif"@ {
        ReportFormat::Sarif
    } else {
        ReportFormat::Text
    }
}

/// The exit code of a check.
pub open spec fn check_code(
    strict: bool,
    risk_failed: bool,
    findings: Seq<finding::FindingView>,
) -> u8 {
    if check_fails(strict, risk_failed, findings) {
        1
    } else {
        0
    }
}

/// The exit code of a command that hands through whether a tool succeeded.
pub open spec fn tool_code(success: bool) -> u8 {
    if success {
        0
    } else {
        1
    }
}

/// The error of a tool that did not run.
pub open spec fn launch_message(tool: Seq<char>, reason: Seq<char>) -> Seq<char> {
    "running "@ + tool + ": "@ + reason
}

/// There is a finding of a severity if and only if they are counted.
proof fn lemma_count_of(list: Seq<finding::FindingView>, severity: Severity)
    ensures
        finding::count_of(list, severity) > 0 <==> exists|i: int|
            0 <= i < list.len() && (#[trigger] list[i]).severity == severity,
    decreases list.len(),
{
    if list.len() > 0 {
        let rest = list.drop_last();
        lemma_count_of(rest, severity);
        if finding::count_of(rest, severity) > 0 {
            let i = choose|i: int| 0 <= i < rest.len() && (#[trigger] rest[i]).severity == severity;
            assert(list[i].severity == severity);
        }
        if list.last().severity == severity {
            assert(list[list.len() - 1].severity == severity);
        }
        if exists|i: int| 0 <= i < list.len() && (#[trigger] list[i]).severity == severity {
            let i = choose|i: int| 0 <= i < list.len() && (#[trigger] list[i]).severity == severity;
            if i < rest.len() {
                assert(rest[i].severity == severity);
            }
        }
    }
}

impl CheckReport {
    /// Whether the counts are those of the findings.
    pub open spec fn counts_agree(&self) -> bool {
        &&& self.critical == finding::count_of(finding::views(self.findings@), Severity::Critical)
        &&& self.high == finding::count_of(finding::views(self.findings@), Severity::High)
    }

    /// The exit code of the check.
    pub fn exit_code(&self, strict: bool) -> (r: u8)
        requires
            self.counts_agree(),
        ensures
            r == check_code(strict, self.risk_failed, finding::views(self.findings@)),
    {
        proof {
            lemma_count_of(finding::views(self.findings@), Severity::Critical);
            lemma_count_of(finding::views(self.findings@), Severity::High);
        }
        if strict && (self.risk_failed || self.critical > 0 || self.high > 0) {
            1
        } else {
            0
        }
    }

    /// The line that sums the report up.
    pub fn total_line(&self) -> (r: String)
        ensures
            r@ == total_text(self.findings.len() as nat, self.critical as nat, self.high as nat),
    {
        let mut r = "  Total: ".to_owned();
        r.append(number::number_text(self.findings.len()).as_str());
        r.append(" finding(s) | Critical: ");
        r.append(number::number_text(self.critical).as_str());
        r.append(" | High: ");
        r.append(number::number_text(self.high).as_str());
        r
    }
}

/// Puts the findings of `more` behind those of `list`.
fn extend(list: &mut Vec<Finding>, more: Vec<Finding>)
    ensures
        finding::views(final(list)@) == finding::views(old(list)@) + finding::views(more@),
{
    let ghost before = finding::views(list@);
    let ghost added = finding::views(more@);
    let mut more = more;
    list.append(&mut more);
    assert(finding::views(list@) =~= before + added);
}

/// The report on what the tools left behind. A tool that did not run, or whose output
/// could not be decoded, adds nothing.
pub fn check_report(
    risk: &Option<ToolOutput>,
    impact: &Option<Vec<ImpactFinding>>,
    drift: &Option<Vec<DriftDivergence>>,
) -> (r: CheckReport)
    ensures
        finding::views(r.findings@) == all_findings(*risk, *impact, *drift),
        r.risk_failed == risk_exceeded(*risk),
        r.counts_agree(),
{
    let mut findings: Vec<Finding> = Vec::new();
    let mut risk_failed = false;
    assert(finding::views(findings@) =~= Seq::empty());
    if let Some(output) = risk {
        risk_failed = !output.success;
        findings = diff_risk::parse_findings_from_text(output.stdout.as_str(), "diff-risk");
    }
    assert(finding::views(findings@) == risk_findings(*risk));
    extend(&mut findings, tool_report::parse_impact_json(impact));
    extend(&mut findings, tool_report::parse_drift_json(drift));
    let critical = finding::count_severity(&findings, Severity::Critical);
    let high = finding::count_severity(&findings, Severity::High);
    CheckReport { findings, risk_failed, critical, high }
}

/// A check that is not strict never fails, and a strict one fails if and only if the risk
/// is above the threshold or a finding is of critical or high severity.
pub proof fn law_only_strict_checks_fail(risk_failed: bool, findings: Seq<finding::FindingView>)
    ensures
        !check_fails(false, risk_failed, findings),
        check_fails(true, risk_failed, findings) <==> risk_failed || finding::count_of(
            findings,
            Severity::Critical,
        ) > 0 || finding::count_of(findings, Severity::High) > 0,
{
    lemma_count_of(findings, Severity::Critical);
    lemma_count_of(findings, Severity::High);
}

/// A report holds every finding of cargo-impact and every one of spec-drift, whether or not
/// diff-risk ran, and of diff-risk all where it ran and none where it did not; nothing else
/// is in it.
pub proof fn law_no_tool_hides_the_findings_of_another(
    risk: Option<ToolOutput>,
    impact: Option<Vec<ImpactFinding>>,
    drift: Option<Vec<DriftDivergence>>,
)
    ensures
        ({
            let all = all_findings(risk, impact, drift);
            let own = match risk {
                Some(output) => diff_risk::findings_in(output.stdout@, "diff-risk"@),
                None => Seq::empty(),
            };
            let of_impact = tool_report::impact_findings(impact);
            let of_drift = tool_report::drift_findings(drift);
            &&& all.len() == own.len() + of_impact.len() + of_drift.len()
            &&& all.take(own.len() as int) == own
            &&& all.skip(own.len() as int) == of_impact + of_drift
            &&& forall|i: int|
                0 <= i < of_impact.len() ==> all.contains(#[trigger] of_impact[i])
            &&& forall|i: int| 0 <= i < of_drift.len() ==> all.contains(#[trigger] of_drift[i])
            &&& all_findings(None, impact, drift) == of_impact + of_drift
        }),
{
    let all = all_findings(risk, impact, drift);
    let own = risk_findings(risk);
    let of_impact = tool_report::impact_findings(impact);
    let of_drift = tool_report::drift_findings(drift);
    assert(all.take(own.len() as int) =~= own);
    assert(all.skip(own.len() as int) =~= of_impact + of_drift);
    assert(all_findings(None, impact, drift) =~= of_impact + of_drift);
    assert forall|i: int| 0 <= i < of_impact.len() implies all.contains(
        #[trigger] of_impact[i],
    ) by {
        assert(all[own.len() + i] == of_impact[i]);
    }
    assert forall|i: int| 0 <= i < of_drift.len() implies all.contains(
        #[trigger] of_drift[i],
    ) by {
        assert(all[own.len() + of_impact.len() + i] == of_drift[i]);
    }
}

/// The risk counts as exceeded if and only if diff-risk ran without success.
pub proof fn law_only_a_failed_run_exceeds_the_risk(output: ToolOutput)
    ensures
        risk_exceeded(Some(output)) == !output.success,
        !risk_exceeded(None),
{
}

/// A strict check fails for any single finding of critical or high severity, wherever it
/// stands and whatever tool it comes from, and for an exceeded risk alone; without these it
/// does not fail, and one that is not strict never does.
pub proof fn law_one_grave_finding_fails_a_strict_check(
    risk_failed: bool,
    findings: Seq<finding::FindingView>,
    i: int,
)
    ensures
        0 <= i < findings.len() && (findings[i].severity == Severity::Critical
            || findings[i].severity == Severity::High) ==> check_fails(true, risk_failed, findings),
        risk_failed ==> check_fails(true, risk_failed, findings),
        !risk_failed && (forall|k: int|
            0 <= k < findings.len() ==> (#[trigger] findings[k]).severity == Severity::Low
                || findings[k].severity == Severity::Medium) ==> !check_fails(
            true,
            risk_failed,
            findings,
        ),
        !check_fails(false, risk_failed, findings),
{
}

/// A report is shown as JSON or SARIF only where that is asked for, and then always; the
/// total names the number of all findings, of the critical and of the high ones.
pub proof fn law_formats_and_totals(name: Seq<char>, total: nat, critical: nat, high: nat)
    ensures
        format_called(name) == ReportFormat::Json <==> name == "json"@,
        format_called(name) == ReportFormat::Sarif <==> name == "sarif"@,
        total_text(total, critical, high) == "  Total: "@ + number::numeral(total)
            + " finding(s) | Critical: "@ + number::numeral(critical) + " | High: "@
            + number::numeral(high),
{
    reveal_strlit("json");
    reveal_strlit("sarif");
    assert("json"@.len() != "sarif"@.len());
}

/// The exit code is one for a strict check with an exceeded risk or with any finding of
/// critical or high severity, and for a tool without success; else it is zero. The error of a
/// tool that did not run names the tool and the reason.
pub proof fn law_exit_codes(
    risk_failed: bool,
    findings: Seq<finding::FindingView>,
    tool: Seq<char>,
    reason: Seq<char>,
)
    ensures
        check_code(false, risk_failed, findings) == 0,
        check_code(true, risk_failed, findings) == 1 <==> risk_failed || exists|i: int|
            0 <= i < findings.len() && ((#[trigger] findings[i]).severity == Severity::Critical
                || findings[i].severity == Severity::High),
        check_code(true, risk_failed, findings) <= 1,
        tool_code(true) == 0,
        tool_code(false) == 1,
        launch_message(tool, reason) == "running "@ + tool + ": "@ + reason,
{
}

/// What a tool left behind, where it ran; nothing where it is not installed; else the
/// error.
pub fn output_or_skip_missing<T>(run: Result<T, LaunchFailure>, tool: &str) -> (r: Result<
    Option<T>,
    String,
>)
    ensures
        match run {
            Ok(output) => r == Ok::<Option<T>, String>(Some(output)),
            Err(LaunchFailure::Missing) => r == Ok::<Option<T>, String>(None),
            Err(LaunchFailure::Other(reason)) => r matches Err(message) && message@
                == launch_message(tool@, reason@),
        },
{
    match run {
        Ok(output) => Ok(Some(output)),
        Err(LaunchFailure::Missing) => Ok(None),
        Err(LaunchFailure::Other(reason)) => {
            let mut message = "running ".to_owned();
            message.append(tool);
            message.append(": ");
            message.append(reason.as_str());
            Err(message)
        },
    }
}

/// How a report is shown, by the name of the format. Any other name stands for text.
pub fn report_format(name: &str) -> (r: ReportFormat)
    ensures
        r == format_called(name@),
{
    if text::same(name, "json") {
        ReportFormat::Json
    } else if text::same(name, "sarif") {
        ReportFormat::Sarif
    } else {
        ReportFormat::Text
    }
}

/// The exit code of a command that hands through what a tool did.
pub fn tool_exit_code(success: bool) -> (r: u8)
    ensures
        r == tool_code(success),
{
    if success {
        0
    } else {
        1
    }
}

} // verus!
