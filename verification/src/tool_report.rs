//! Findings out of the reports of cargo-impact and spec-drift.

use vstd::prelude::*;
use vstd::string::*;

use crate::finding;
use crate::finding::{Confidence, Finding, Location, RuleId, Severity};
use crate::json;
use crate::json::Json;
use crate::text;

verus! {

/// A finding as cargo-impact writes it.
#[derive(Debug, PartialEq, Eq)]
pub struct ImpactFinding {
    pub id: String,
    pub severity: String,
    pub evidence: String,
    pub suggested_action: Option<String>,
    /// All members of the finding that are not named above.
    pub kind: Json,
}

/// A divergence as spec-drift writes it.
#[derive(Debug, PartialEq, Eq)]
pub struct DriftDivergence {
    pub rule: String,
    pub severity: String,
    pub file: String,
    pub line: u32,
    pub stated: String,
    pub risk: String,
}

/// What a finding of cargo-impact says.
pub struct ImpactView {
    pub id: Seq<char>,
    pub severity: Seq<char>,
    pub evidence: Seq<char>,
    pub suggested_action: Option<Seq<char>>,
    pub kind: json::JsonTree,
}

/// What a divergence says.
pub struct DriftView {
    pub rule: Seq<char>,
    pub severity: Seq<char>,
    pub file: Seq<char>,
    pub line: u32,
    pub stated: Seq<char>,
    pub risk: Seq<char>,
}

impl View for ImpactFinding {
    type V = ImpactView;

    open spec fn view(&self) -> ImpactView {
        ImpactView {
            id: self.id@,
            severity: self.severity@,
            evidence: self.evidence@,
            suggested_action: text::opt_text(self.suggested_action),
            kind: self.kind@,
        }
    }
}

impl View for DriftDivergence {
    type V = DriftView;

    open spec fn view(&self) -> DriftView {
        DriftView {
            rule: self.rule@,
            severity: self.severity@,
            file: self.file@,
            line: self.line,
            stated: self.stated@,
            risk: self.risk@,
        }
    }
}

/// The severity that cargo-impact calls `name`.
pub open spec fn impact_severity(name: Seq<char>) -> Severity {
    if name == "high"@ {
        Severity::High
    } else if name == "low"@ {
        Severity::Low
    } else {
        Severity::Medium
    }
}

/// The rule of a finding of cargo-impact, by its member `kind`.
pub open spec fn impact_rule(kind: json::JsonTree) -> RuleId {
    let name = kind.text_member("kind"@);
    if name == Some("test_reference"@) {
        RuleId::TestReference
    } else if name == Some("trait_impl"@) {
        RuleId::TraitImpl
    } else if name == Some("ffi_signature_change"@) {
        RuleId::FfiSignatureChange
    } else if name == Some("build_script_changed"@) {
        RuleId::BuildScriptChanged
    } else {
        RuleId::Other
    }
}

/// The member that names the file: `file` of the member `test`, or else `file`.
pub open spec fn impact_file_member(kind: json::JsonTree) -> Option<json::JsonTree> {
    let of_test = match kind.member("test"@) {
        Some(test) => test.member("file"@),
        None => None,
    };
    match of_test {
        Some(value) => Some(value),
        None => kind.member("file"@),
    }
}

/// The file of a finding of cargo-impact, where it names one by a text.
pub open spec fn impact_file(kind: json::JsonTree) -> Seq<char> {
    match impact_file_member(kind) {
        Some(value) => match value.text() {
            Some(name) => name,
            None => "unknown"@,
        },
        None => "unknown"@,
    }
}

/// The finding that a finding of cargo-impact stands for.
pub open spec fn from_impact(f: ImpactView) -> finding::FindingView {
    finding::FindingView {
        rule: impact_rule(f.kind),
        severity: impact_severity(f.severity),
        confidence: Confidence::Heuristic,
        file: impact_file(f.kind),
        line: 1,
        message: f.evidence,
        tool: "cargo-impact"@,
        id: Some(f.id),
        action: match f.suggested_action {
            Some(action) => Some(action),
            None => Some(Seq::empty()),
        },
    }
}

/// The severity that spec-drift calls `name`.
pub open spec fn drift_severity(name: Seq<char>) -> Severity {
    if name == "critical"@ {
        Severity::Critical
    } else if name == "warning"@ {
        Severity::High
    } else {
        Severity::Medium
    }
}

/// The rule that spec-drift calls `name`.
pub open spec fn drift_rule(name: Seq<char>) -> RuleId {
    if name == "symbol_absence"@ {
        RuleId::SymbolAbsence
    } else if name == "compile_failure"@ {
        RuleId::CompileFailure
    } else if name == "lying_test"@ {
        RuleId::LyingTest
    } else if name == "ghost_command"@ {
        RuleId::GhostCommand
    } else {
        RuleId::Other
    }
}

/// The finding that a divergence stands for.
pub open spec fn from_drift(d: DriftView) -> finding::FindingView {
    finding::FindingView {
        rule: drift_rule(d.rule),
        severity: drift_severity(d.severity),
        confidence: Confidence::Deterministic,
        file: d.file,
        line: d.line,
        message: d.risk + " — expected: "@ + d.stated,
        tool: "spec-drift"@,
        id: None,
        action: None,
    }
}

/// The findings that the report of cargo-impact stands for. Without a report there are
/// none.
pub open spec fn impact_findings(report: Option<Vec<ImpactFinding>>) -> Seq<finding::FindingView> {
    match report {
        Some(list) => list@.map_values(|f: ImpactFinding| from_impact(f@)),
        None => Seq::empty(),
    }
}

/// The findings that the report of spec-drift stands for. Without a report there are
/// none.
pub open spec fn drift_findings(report: Option<Vec<DriftDivergence>>) -> Seq<finding::FindingView> {
    match report {
        Some(list) => list@.map_values(|d: DriftDivergence| from_drift(d@)),
        None => Seq::empty(),
    }
}

/// A finding of cargo-impact keeps its evidence, its name and what it suggests, and is one of
/// cargo-impact, heuristic and without a line; its severity and rule are those that it names,
/// any other name standing for medium and for none of the rules.
pub proof fn law_impact_findings_are_kept(f: ImpactView)
    ensures
        ({
            let found = from_impact(f);
            let kind = f.kind.member("kind"@);
            &&& found.message == f.evidence
            &&& found.id == Some(f.id)
            &&& f.suggested_action is Some ==> found.action == f.suggested_action
            &&& f.suggested_action is None ==> found.action == Some(Seq::<char>::empty())
            &&& found.tool == "cargo-impact"@
            &&& found.confidence == Confidence::Heuristic
            &&& found.line == 1
            &&& found.severity == Severity::High <==> f.severity == "high"@
            &&& found.severity == Severity::Low <==> f.severity == "low"@
            &&& found.severity != Severity::Critical
            &&& found.rule == RuleId::TestReference <==> kind == Some(
                json::JsonTree::Text("test_reference"@),
            )
            &&& found.rule == RuleId::TraitImpl <==> kind == Some(
                json::JsonTree::Text("trait_impl"@),
            )
            &&& found.rule == RuleId::FfiSignatureChange <==> kind == Some(
                json::JsonTree::Text("ffi_signature_change"@),
            )
            &&& found.rule == RuleId::BuildScriptChanged <==> kind == Some(
                json::JsonTree::Text("build_script_changed"@),
            )
            &&& found.rule == RuleId::TestReference || found.rule == RuleId::TraitImpl
                || found.rule == RuleId::FfiSignatureChange || found.rule
                == RuleId::BuildScriptChanged || found.rule == RuleId::Other
        }),
{
    reveal_strlit("high");
    reveal_strlit("low");
    reveal_strlit("test_reference");
    reveal_strlit("trait_impl");
    reveal_strlit("ffi_signature_change");
    reveal_strlit("build_script_changed");
    assert("high"@.len() != "low"@.len());
    assert("test_reference"@.len() == 14);
    assert("trait_impl"@.len() == 10);
    assert("ffi_signature_change"@.len() == 20);
    assert("build_script_changed"@.len() == 20);
    assert("ffi_signature_change"@[0] == 'f');
    assert("build_script_changed"@[0] == 'b');
    json::law_documents_are_read_as_what_they_are(f.kind, "kind"@);
}

/// The file of a finding of cargo-impact is the one that its test names, or else the one that
/// it names itself; where that is no text, or neither names one, it is unknown.
pub proof fn law_file_of_an_impact_finding(f: ImpactView)
    ensures
        ({
            let of_test = match f.kind.member("test"@) {
                Some(test) => test.member("file"@),
                None => None,
            };
            let own = f.kind.member("file"@);
            &&& of_test matches Some(json::JsonTree::Text(name)) ==> from_impact(f).file == name
            &&& of_test is None ==> (own matches Some(json::JsonTree::Text(name)) ==> from_impact(
                f,
            ).file == name)
            &&& of_test is Some && !(of_test matches Some(json::JsonTree::Text(_)))
                ==> from_impact(f).file == "unknown"@
            &&& of_test is None && !(own matches Some(json::JsonTree::Text(_))) ==> from_impact(
                f,
            ).file == "unknown"@
        }),
{
}

/// A divergence keeps its file and line, and says its risk and what was stated; it is one of
/// spec-drift and deterministic; its severity and rule are those that it names, any other
/// name standing for medium and for none of the rules.
pub proof fn law_divergences_are_kept(d: DriftView)
    ensures
        ({
            let found = from_drift(d);
            &&& found.file == d.file
            &&& found.line == d.line
            &&& found.message == d.risk + " — expected: "@ + d.stated
            &&& found.id is None
            &&& found.action is None
            &&& found.tool == "spec-drift"@
            &&& found.confidence == Confidence::Deterministic
            &&& found.severity == Severity::Critical <==> d.severity == "critical"@
            &&& found.severity == Severity::High <==> d.severity == "warning"@
            &&& found.severity != Severity::Low
            &&& found.rule == RuleId::SymbolAbsence <==> d.rule == "symbol_absence"@
            &&& found.rule == RuleId::CompileFailure <==> d.rule == "compile_failure"@
            &&& found.rule == RuleId::LyingTest <==> d.rule == "lying_test"@
            &&& found.rule == RuleId::GhostCommand <==> d.rule == "ghost_command"@
            &&& found.rule == RuleId::SymbolAbsence || found.rule == RuleId::CompileFailure
                || found.rule == RuleId::LyingTest || found.rule == RuleId::GhostCommand
                || found.rule == RuleId::Other
        }),
{
    reveal_strlit("critical");
    reveal_strlit("warning");
    reveal_strlit("symbol_absence");
    reveal_strlit("compile_failure");
    reveal_strlit("lying_test");
    reveal_strlit("ghost_command");
    assert("critical"@.len() != "warning"@.len());
    assert("symbol_absence"@.len() == 14);
    assert("compile_failure"@.len() == 15);
    assert("lying_test"@.len() == 10);
    assert("ghost_command"@.len() == 13);
}

/// Every finding of a report and every divergence is converted, in its order, and nothing
/// else is.
pub proof fn law_reports_are_converted_one_by_one(
    impact: Vec<ImpactFinding>,
    drift: Vec<DriftDivergence>,
)
    ensures
        impact_findings(None) == Seq::<finding::FindingView>::empty(),
        drift_findings(None) == Seq::<finding::FindingView>::empty(),
        impact_findings(Some(impact)).len() == impact@.len(),
        drift_findings(Some(drift)).len() == drift@.len(),
        forall|i: int|
            0 <= i < impact@.len() ==> #[trigger] impact_findings(Some(impact))[i] == from_impact(
                impact@[i]@,
            ),
        forall|i: int|
            0 <= i < drift@.len() ==> #[trigger] drift_findings(Some(drift))[i] == from_drift(
                drift@[i]@,
            ),
{
}

/// The rule of a finding of cargo-impact, by its member `kind`.
fn rule_from_kind(kind: &Json) -> (r: RuleId)
    ensures
        r == impact_rule(kind@),
{
    match kind.text_member("kind") {
        Some(name) => {
            if text::same(name, "test_reference") {
                RuleId::TestReference
            } else if text::same(name, "trait_impl") {
                RuleId::TraitImpl
            } else if text::same(name, "ffi_signature_change") {
                RuleId::FfiSignatureChange
            } else if text::same(name, "build_script_changed") {
                RuleId::BuildScriptChanged
            } else {
                RuleId::Other
            }
        },
        None => RuleId::Other,
    }
}

/// The file of a finding of cargo-impact.
fn file_from_kind(kind: &Json) -> (r: String)
    ensures
        r@ == impact_file(kind@),
{
    let of_test = match kind.get("test") {
        Some(test) => test.get("file"),
        None => None,
    };
    let member = match of_test {
        Some(value) => Some(value),
        None => kind.get("file"),
    };
    match member {
        Some(value) => match value.as_str() {
            Some(name) => name.to_owned(),
            None => "unknown".to_owned(),
        },
        None => "unknown".to_owned(),
    }
}

/// The finding that a finding of cargo-impact stands for.
fn convert_impact(f: &ImpactFinding) -> (r: Finding)
    ensures
        r@ == from_impact(f@),
{
    let severity = if text::same(f.severity.as_str(), "high") {
        Severity::High
    } else if text::same(f.severity.as_str(), "low") {
        Severity::Low
    } else {
        Severity::Medium
    };
    let action = match &f.suggested_action {
        Some(action) => action.clone(),
        None => String::new(),
    };
    Finding {
        rule: rule_from_kind(&f.kind),
        severity,
        confidence: Confidence::Heuristic,
        location: Location { file: file_from_kind(&f.kind), line: 1 },
        message: f.evidence.clone(),
        tool: "cargo-impact".to_owned(),
        id: Some(f.id.clone()),
        action: Some(action),
    }
}

/// The finding that a divergence stands for.
fn convert_drift(d: &DriftDivergence) -> (r: Finding)
    ensures
        r@ == from_drift(d@),
{
    let severity = if text::same(d.severity.as_str(), "critical") {
        Severity::Critical
    } else if text::same(d.severity.as_str(), "warning") {
        Severity::High
    } else {
        Severity::Medium
    };
    let rule = if text::same(d.rule.as_str(), "symbol_absence") {
        RuleId::SymbolAbsence
    } else if text::same(d.rule.as_str(), "compile_failure") {
        RuleId::CompileFailure
    } else if text::same(d.rule.as_str(), "lying_test") {
        RuleId::LyingTest
    } else if text::same(d.rule.as_str(), "ghost_command") {
        RuleId::GhostCommand
    } else {
        RuleId::Other
    };
    let mut message = d.risk.clone();
    message.append(" — expected: ");
    message.append(d.stated.as_str());
    Finding {
        rule,
        severity,
        confidence: Confidence::Deterministic,
        location: Location { file: d.file.clone(), line: d.line },
        message,
        tool: "spec-drift".to_owned(),
        id: None,
        action: None,
    }
}

/// The findings that the report of cargo-impact stands for, where its output could be
/// decoded.
pub fn parse_impact_json(report: &Option<Vec<ImpactFinding>>) -> (r: Vec<Finding>)
    ensures
        finding::views(r@) == impact_findings(*report),
{
    let mut r: Vec<Finding> = Vec::new();
    match report {
        Some(list) => {
            for i in 0..list.len()
                invariant
                    r.len() == i,
                    forall|k: int| 0 <= k < i ==> (#[trigger] r@[k])@ == from_impact(list@[k]@),
            {
                r.push(convert_impact(&list[i]));
            }
        },
        None => {},
    }
    assert(finding::views(r@) =~= impact_findings(*report));
    r
}

/// The findings that the report of spec-drift stands for, where its output could be
/// decoded.
pub fn parse_drift_json(report: &Option<Vec<DriftDivergence>>) -> (r: Vec<Finding>)
    ensures
        finding::views(r@) == drift_findings(*report),
{
    let mut r: Vec<Finding> = Vec::new();
    match report {
        Some(list) => {
            for i in 0..list.len()
                invariant
                    r.len() == i,
                    forall|k: int| 0 <= k < i ==> (#[trigger] r@[k])@ == from_drift(list@[k]@),
            {
                r.push(convert_drift(&list[i]));
            }
        },
        None => {},
    }
    assert(finding::views(r@) =~= drift_findings(*report));
    r
}

} // verus!
