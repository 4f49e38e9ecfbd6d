//! Findings, as every tool reports them.

use vstd::prelude::*;
use vstd::string::*;

use crate::number;
use crate::text;

verus! {

/// How grave a finding is.
#[derive(Debug, Clone, Copy, PartialEq, Eq, Structural)]
pub enum Severity {
    Low,
    Medium,
    High,
    Critical,
}

/// How sure a tool is of a finding.
#[derive(Debug, Clone, Copy, PartialEq, Eq, Structural)]
pub enum Confidence {
    Heuristic,
    Deterministic,
}

/// The rule that a finding is about.
#[derive(Debug, Clone, Copy, PartialEq, Eq, Structural)]
pub enum RuleId {
    ApiContract,
    AsyncBoundary,
    SerdeDrift,
    AuthGate,
    Concurrency,
    TestReference,
    TraitImpl,
    FfiSignatureChange,
    BuildScriptChanged,
    SymbolAbsence,
    CompileFailure,
    LyingTest,
    GhostCommand,
    Other,
}

/// A line of a file.
#[derive(Debug, PartialEq, Eq)]
pub struct Location {
    pub file: String,
    pub line: u32,
}

/// A finding of one of the tools.
#[derive(Debug, PartialEq, Eq)]
pub struct Finding {
    pub rule: RuleId,
    pub severity: Severity,
    pub confidence: Confidence,
    pub location: Location,
    pub message: String,
    /// The tool that reported it.
    pub tool: String,
    /// The name that the tool gave to it, if any.
    pub id: Option<String>,
    /// What the tool suggests to do, if it says so.
    pub action: Option<String>,
}

/// What a finding says.
pub struct FindingView {
    pub rule: RuleId,
    pub severity: Severity,
    pub confidence: Confidence,
    pub file: Seq<char>,
    pub line: u32,
    pub message: Seq<char>,
    pub tool: Seq<char>,
    pub id: Option<Seq<char>>,
    pub action: Option<Seq<char>>,
}

impl View for Finding {
    type V = FindingView;

    open spec fn view(&self) -> FindingView {
        FindingView {
            rule: self.rule,
            severity: self.severity,
            confidence: self.confidence,
            file: self.location.file@,
            line: self.location.line,
            message: self.message@,
            tool: self.tool@,
            id: text::opt_text(self.id),
            action: text::opt_text(self.action),
        }
    }
}

/// What the findings of `list` say.
pub open spec fn views(list: Seq<Finding>) -> Seq<FindingView> {
    list.map_values(|f: Finding| f@)
}

/// How many findings of `list` have the given severity.
pub open spec fn count_of(list: Seq<FindingView>, severity: Severity) -> nat
    decreases list.len(),
{
    if list.len() == 0 {
        0
    } else {
        count_of(list.drop_last(), severity) + if list.last().severity == severity {
            1nat
        } else {
            0nat
        }
    }
}

/// Counting is the length of what is left of the list where all other severities are taken
/// out; and so the counts of the four severities add up to the length of the list.
pub proof fn law_every_finding_is_counted_once(list: Seq<FindingView>, severity: Severity)
    ensures
        count_of(list, severity) == list.filter(|f: FindingView| f.severity == severity).len(),
        count_of(list, Severity::Low) + count_of(list, Severity::Medium) + count_of(
            list,
            Severity::High,
        ) + count_of(list, Severity::Critical) == list.len(),
    decreases list.len(),
{
    reveal(Seq::filter);
    if list.len() > 0 {
        law_every_finding_is_counted_once(list.drop_last(), severity);
    }
}

/// How many findings of `list` have the given severity.
pub fn count_severity(list: &Vec<Finding>, severity: Severity) -> (r: usize)
    ensures
        r == count_of(views(list@), severity),
        r <= list.len(),
{
    let ghost all = views(list@);
    let mut n: usize = 0;
    for i in 0..list.len()
        invariant
            all == views(list@),
            n == count_of(all.take(i as int), severity),
            n <= i,
    {
        assert(all.take(i + 1).drop_last() == all.take(i as int));
        assert(all.take(i + 1).last() == list@[i as int]@);
        if list[i].severity == severity {
            n = n + 1;
        }
    }
    assert(all.take(list.len() as int) == all);
    n
}

/// The line of the text report for a finding, given the marker of its severity and the
/// name of its rule.
pub open spec fn report_line(marker: Seq<char>, rule: Seq<char>, finding: FindingView) -> Seq<char> {
    marker + " ["@ + rule + "] "@ + finding.file + ":"@ + number::numeral(finding.line as nat)
        + "  "@ + finding.message
}

/// A line of the text report holds, in this order and with nothing left out, the marker, the
/// name of the rule, the file, the line and the message.
pub proof fn law_report_line_holds_all(
    marker: Seq<char>,
    rule: Seq<char>,
    finding: FindingView,
)
    ensures
        report_line(marker, rule, finding) == marker + seq![' ', '['] + rule + seq![']', ' ']
            + finding.file + seq![':'] + number::numeral(finding.line as nat) + seq![' ', ' ']
            + finding.message,
{
    reveal_strlit(" [");
    reveal_strlit("] ");
    reveal_strlit(":");
    reveal_strlit("  ");
    assert(" ["@ =~= seq![' ', '[']);
    assert("] "@ =~= seq![']', ' ']);
    assert(":"@ =~= seq![':']);
    assert("  "@ =~= seq![' ', ' ']);
}

impl Finding {
    /// The line of the text report for the finding.
    pub fn line(&self, marker: &str, rule: &str) -> (r: String)
        ensures
            r@ == report_line(marker@, rule@, self@),
    {
        let mut r = marker.to_owned();
        r.append(" [");
        r.append(rule);
        r.append("] ");
        r.append(self.location.file.as_str());
        r.append(":");
        r.append(number::number_text(self.location.line as usize).as_str());
        r.append("  ");
        r.append(self.message.as_str());
        r
    }
}

} // verus!
