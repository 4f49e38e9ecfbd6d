//! Reading the text that diff-risk prints.

use vstd::prelude::*;

use crate::finding;
use crate::finding::{Confidence, Finding, Location, RuleId, Severity};
use crate::number;
use crate::text;

verus! {

/// The rule with the name `id`.
pub open spec fn rule_of_id(id: Seq<char>) -> RuleId {
    if id == "api_contract"@ {
        RuleId::ApiContract
    } else if id == "async_boundary"@ {
        RuleId::AsyncBoundary
    } else if id == "serde_drift"@ {
        RuleId::SerdeDrift
    } else if id == "auth_gate"@ {
        RuleId::AuthGate
    } else if id == "concurrency"@ {
        RuleId::Concurrency
    } else {
        RuleId::Other
    }
}

/// The rule that diff-risk calls `label`.
pub open spec fn rule_of_label(label: Seq<char>) -> RuleId {
    if label == "API Contract Change"@ {
        RuleId::ApiContract
    } else if label == "Async Boundary Change"@ {
        RuleId::AsyncBoundary
    } else if label == "Serde Schema Drift"@ {
        RuleId::SerdeDrift
    } else if label == "Auth / Permission Gate"@ {
        RuleId::AuthGate
    } else if label == "Concurrency / Memory Safety"@ {
        RuleId::Concurrency
    } else {
        RuleId::Other
    }
}

/// The severity that the marker at the start of a line stands for, and what follows the
/// marker. A line without a marker is of medium severity.
pub open spec fn marked(line: Seq<char>) -> (Severity, Seq<char>) {
    let t = text::trimmed_start(line);
    if text::has_prefix(t, "🚨"@) {
        (Severity::Critical, text::trimmed(t.skip("🚨"@.len() as int)))
    } else if text::has_prefix(t, "⚠️"@) {
        (Severity::High, text::trimmed(t.skip("⚠️"@.len() as int)))
    } else if text::has_prefix(t, "⚠"@) {
        (Severity::High, text::trimmed(t.skip("⚠"@.len() as int)))
    } else if text::has_prefix(t, "🟡"@) {
        (Severity::Medium, text::trimmed(t.skip("🟡"@.len() as int)))
    } else if text::has_prefix(t, "✅"@) {
        (Severity::Low, text::trimmed(t.skip("✅"@.len() as int)))
    } else if text::has_prefix(t, "🔵"@) {
        (Severity::Low, text::trimmed(t.skip("🔵"@.len() as int)))
    } else {
        (Severity::Medium, t)
    }
}

/// The file and line that a location names. Without a line number behind the last colon
/// all of it is the file, and the line is the first.
pub open spec fn located(location: Seq<char>) -> (Seq<char>, u32) {
    match text::split_last(location, ":"@) {
        Some((file, line)) => match number::u32_of(line) {
            Some(n) => (file, n),
            None => (location, 1),
        },
        None => (location, 1),
    }
}

/// The file, line and message of a text in which two blanks end the location.
pub open spec fn located_message(s: Seq<char>) -> (Seq<char>, u32, Seq<char>) {
    let (location, message) = match text::split_first(s, "  "@) {
        Some((location, message)) => (location, message),
        None => (s, Seq::empty()),
    };
    let (file, line) = located(text::trimmed(location));
    (file, line, text::trimmed(message))
}

/// A finding of diff-risk.
pub open spec fn risk_finding(
    rule: RuleId,
    severity: Severity,
    file: Seq<char>,
    line: u32,
    message: Seq<char>,
    tool: Seq<char>,
) -> finding::FindingView {
    finding::FindingView {
        rule,
        severity,
        confidence: Confidence::Heuristic,
        file,
        line,
        message,
        tool,
        id: None,
        action: None,
    }
}

/// The finding of a text of the form `[rule] file:line  message`.
pub open spec fn bracketed(
    s: Seq<char>,
    severity: Severity,
    tool: Seq<char>,
) -> Option<finding::FindingView> {
    if !text::has_prefix(s, "["@) {
        None
    } else {
        match text::split_first(s.skip("["@.len() as int), "]"@) {
            Some((id, after)) => {
                let (file, line, message) = located_message(text::trimmed(after));
                Some(risk_finding(rule_of_id(id), severity, file, line, message, tool))
            },
            None => None,
        }
    }
}

/// The finding of a text of the form `label: file:line — message`.
pub open spec fn labelled(
    s: Seq<char>,
    severity: Severity,
    tool: Seq<char>,
) -> Option<finding::FindingView> {
    match text::split_first(s, " — "@) {
        Some((header, message)) => match text::split_first(header, ": "@) {
            Some((label, location)) => {
                let (file, line) = located(location);
                Some(
                    risk_finding(
                        rule_of_label(label),
                        severity,
                        file,
                        line,
                        text::trimmed(message),
                        tool,
                    ),
                )
            },
            None => None,
        },
        None => None,
    }
}

/// The finding of one line, if it holds one. Blank lines, comments, lines that diff-risk
/// writes about itself, the banner and the all-clear hold none.
pub open spec fn line_finding(line: Seq<char>, tool: Seq<char>) -> Option<finding::FindingView> {
    let t = text::trimmed(line);
    let (severity, rest) = marked(t);
    if t.len() == 0 || text::has_prefix(t, "#"@) || text::has_prefix(t, "diff-risk"@) {
        None
    } else if text::has_prefix(rest, "DIFF RISK ASSESSMENT"@) || rest
        == "No risky patterns detected."@ {
        None
    } else {
        match bracketed(rest, severity, tool) {
            Some(f) => Some(f),
            None => labelled(rest, severity, tool),
        }
    }
}

/// The findings of several lines, in their order.
pub open spec fn findings_of(lines: Seq<Seq<char>>, tool: Seq<char>) -> Seq<finding::FindingView>
    decreases lines.len(),
{
    if lines.len() == 0 {
        Seq::empty()
    } else {
        let earlier = findings_of(lines.drop_last(), tool);
        match line_finding(lines.last(), tool) {
            Some(f) => earlier.push(f),
            None => earlier,
        }
    }
}

/// The findings in the text that diff-risk printed.
pub open spec fn findings_in(output: Seq<char>, tool: Seq<char>) -> Seq<finding::FindingView> {
    findings_of(text::lines_of(output), tool)
}

/// A location that was written as a file, a colon and a line number reads back as that
/// file and line.
pub proof fn law_location_reads_back(file: Seq<char>, line: u32)
    ensures
        located(file + ":"@ + number::numeral(line as nat)) == (file, line),
{
    reveal_strlit(":");
    let digits = number::numeral(line as nat);
    let s = file + ":"@ + digits;
    let n = file.len() as int;
    number::law_numeral_reads_back(line);
    number::lemma_numeral_value(line as nat);
    assert(":"@ =~= seq![':']);
    assert(s.subrange(n, n + 1) == ":"@);
    assert forall|j: int| n < j <= s.len() implies !#[trigger] text::matches_at(s, ":"@, j) by {
        if text::matches_at(s, ":"@, j) {
            assert(s.subrange(j, j + 1)[0] == s[j]);
            assert(number::is_digit(digits[j - n - 1]));
        }
    }
    text::lemma_rfind_upto(s, ":"@, s.len() as int, n);
    assert(s.take(n) == file);
    assert(s.skip(n + 1) == digits);
}

/// Whether `s` begins and ends with something else than white space.
pub open spec fn is_tight(s: Seq<char>) -> bool {
    s.len() > 0 && !text::is_white(s.first()) && !text::is_white(s.last())
}

/// Whether `pattern` stands somewhere in `s`.
pub open spec fn occurs(s: Seq<char>, pattern: Seq<char>) -> bool {
    exists|i: int| text::matches_at(s, pattern, i)
}

/// The text that a finding has behind its marker in the text report.
pub open spec fn bracket_text(
    rule: Seq<char>,
    file: Seq<char>,
    line: u32,
    message: Seq<char>,
) -> Seq<char> {
    "["@ + rule + "] "@ + file + ":"@ + number::numeral(line as nat) + "  "@ + message
}

/// A location and a message with two blanks between them are told apart.
proof fn lemma_located_message(file: Seq<char>, line: u32, message: Seq<char>)
    requires
        is_tight(file),
        !occurs(file, "  "@),
        is_tight(message),
    ensures
        located_message(file + ":"@ + number::numeral(line as nat) + "  "@ + message) == (
            file,
            line,
            message,
        ),
{
    reveal_strlit(":");
    reveal_strlit("  ");
    let gap = "  "@;
    let digits = number::numeral(line as nat);
    let location = file + ":"@ + digits;
    let s = location + gap + message;
    number::lemma_numeral_value(line as nat);
    assert(s == file + ":"@ + digits + gap + message);
    assert(gap =~= seq![' ', ' ']);
    assert(":"@ =~= seq![':']);
    assert forall|i: int| 0 <= i < location.len() implies !#[trigger] text::matches_at(s, gap, i) by {
        if text::matches_at(s, gap, i) {
            assert(s.subrange(i, i + 2)[0] == s[i]);
            assert(s.subrange(i, i + 2)[1] == s[i + 1]);
            if i >= file.len() {
                assert(s[i] == location[i]);
                if i > file.len() {
                    assert(number::is_digit(digits[i - file.len() - 1]));
                }
            } else if i + 1 < file.len() {
                assert(s.subrange(i, i + 2) =~= file.subrange(i, i + 2));
                assert(text::matches_at(file, gap, i));
            } else {
                assert(s[i + 1] == location[file.len() as int]);
            }
        }
    }
    text::lemma_split_first(location, gap, message);
    assert(digits.len() > 0);
    assert(location.last() == digits.last());
    assert(number::is_digit(digits[digits.len() - 1]));
    text::lemma_trimmed_same(location);
    law_location_reads_back(file, line);
    text::lemma_trimmed_same(message);
}

/// A finding in brackets reads back: its rule by name, its file, line and message. The
/// name holds no closing bracket, the file no two blanks side by side, and neither the
/// file nor the message begins or ends with white space.
pub proof fn law_bracketed_finding_reads_back(
    rule: Seq<char>,
    file: Seq<char>,
    line: u32,
    message: Seq<char>,
    severity: Severity,
    tool: Seq<char>,
)
    requires
        !rule.contains(']'),
        is_tight(file),
        !occurs(file, "  "@),
        is_tight(message),
    ensures
        bracketed(bracket_text(rule, file, line, message), severity, tool) == Some(
            risk_finding(rule_of_id(rule), severity, file, line, message, tool),
        ),
{
    reveal_strlit("[");
    reveal_strlit("]");
    reveal_strlit("] ");
    let s = bracket_text(rule, file, line, message);
    let body = file + ":"@ + number::numeral(line as nat) + "  "@ + message;
    let after = seq![' '] + body;
    let rest = rule + "]"@ + after;
    assert("["@ =~= seq!['[']);
    assert("]"@ =~= seq![']']);
    assert("] "@ =~= seq![']', ' ']);
    assert(s == "["@ + rest);
    assert(s.take(1) == "["@);
    assert(s.skip(1) == rest);
    assert forall|i: int| 0 <= i < rule.len() implies !#[trigger] text::matches_at(rest, "]"@, i) by {
        if text::matches_at(rest, "]"@, i) {
            assert(rest.subrange(i, i + 1)[0] == rest[i]);
            assert(rest[i] == rule[i]);
        }
    }
    text::lemma_split_first(rule, "]"@, after);
    assert(after.drop_first() == body);
    assert(text::is_white(' '));
    assert(body.first() == file.first());
    assert(body.last() == message.last());
    text::lemma_trimmed_same(body);
    assert(text::trimmed_start(after) == text::trimmed_start(body));
    lemma_located_message(file, line, message);
}

/// The text that diff-risk writes for a finding behind its marker.
pub open spec fn label_text(
    label: Seq<char>,
    file: Seq<char>,
    line: u32,
    message: Seq<char>,
) -> Seq<char> {
    label + ": "@ + file + ":"@ + number::numeral(line as nat) + " — "@ + message
}

/// A finding with a label reads back: its rule by label, its file, line and message. The
/// label holds no colon with a blank behind it, label and file hold no dash between
/// blanks, and the message neither begins nor ends with white space.
pub proof fn law_labelled_finding_reads_back(
    label: Seq<char>,
    file: Seq<char>,
    line: u32,
    message: Seq<char>,
    severity: Severity,
    tool: Seq<char>,
)
    requires
        !occurs(label, ": "@),
        !occurs(label + ": "@ + file, " — "@),
        is_tight(message),
    ensures
        labelled(label_text(label, file, line, message), severity, tool) == Some(
            risk_finding(rule_of_label(label), severity, file, line, message, tool),
        ),
{
    reveal_strlit(":");
    reveal_strlit(": ");
    reveal_strlit(" — ");
    let dash = " — "@;
    let colon = ": "@;
    let digits = number::numeral(line as nat);
    let location = file + ":"@ + digits;
    let start = label + colon + file;
    let header = label + colon + location;
    let s = header + dash + message;
    number::lemma_numeral_value(line as nat);
    assert(":"@ =~= seq![':']);
    assert(colon =~= seq![':', ' ']);
    assert(dash =~= seq![' ', '—', ' ']);
    assert(s =~= label_text(label, file, line, message));
    assert(header =~= start + ":"@ + digits);
    assert forall|i: int| 0 <= i < header.len() implies !#[trigger] text::matches_at(s, dash, i) by {
        if text::matches_at(s, dash, i) {
            let found = s.subrange(i, i + 3);
            assert(found[0] == s[i] && found[1] == s[i + 1] && found[2] == s[i + 2]);
            assert(s[i] == header[i]);
            if i >= start.len() {
                if i > start.len() {
                    assert(number::is_digit(digits[i - start.len() - 1]));
                }
            } else if i + 2 < start.len() {
                assert(found =~= start.subrange(i, i + 3));
                assert(text::matches_at(start, dash, i));
            } else if i + 2 == start.len() {
                assert(s[i + 2] == header[start.len() as int]);
            } else {
                assert(s[i + 1] == header[start.len() as int]);
            }
        }
    }
    text::lemma_split_first(header, dash, message);
    assert forall|i: int| 0 <= i < label.len() implies !#[trigger] text::matches_at(
        header,
        colon,
        i,
    ) by {
        if text::matches_at(header, colon, i) {
            let found = header.subrange(i, i + 2);
            assert(found[0] == header[i] && found[1] == header[i + 1]);
            if i + 1 < label.len() {
                assert(found =~= label.subrange(i, i + 2));
                assert(text::matches_at(label, colon, i));
            } else {
                assert(header[i + 1] == colon[0]);
            }
        }
    }
    text::lemma_split_first(label, colon, location);
    law_location_reads_back(file, line);
    text::lemma_trimmed_same(message);
}

/// The severity that a marker stands for.
pub open spec fn severity_of(marker: Seq<char>) -> Option<Severity> {
    if marker == "🚨"@ {
        Some(Severity::Critical)
    } else if marker == "⚠️"@ || marker == "⚠"@ {
        Some(Severity::High)
    } else if marker == "🟡"@ {
        Some(Severity::Medium)
    } else if marker == "✅"@ || marker == "🔵"@ {
        Some(Severity::Low)
    } else {
        None
    }
}

/// A marker, then a blank and more, is told apart into its severity and the rest.
proof fn lemma_marked(marker: Seq<char>, rest: Seq<char>)
    requires
        severity_of(marker) is Some,
        is_tight(rest),
    ensures
        ({
            let line = marker + seq![' '] + rest;
            &&& marked(line) == (severity_of(marker)->0, rest)
            &&& is_tight(line)
            &&& !text::has_prefix(line, "#"@)
            &&& !text::has_prefix(line, "diff-risk"@)
        }),
{
    reveal_strlit("🚨");
    reveal_strlit("⚠️");
    reveal_strlit("⚠");
    reveal_strlit("🟡");
    reveal_strlit("✅");
    reveal_strlit("🔵");
    reveal_strlit("#");
    reveal_strlit("diff-risk");
    let line = marker + seq![' '] + rest;
    let n = marker.len() as int;
    assert(line.first() == marker.first());
    assert(line.last() == rest.last());
    text::lemma_trimmed_same(line);
    assert(line.take(n) == marker);
    assert(line.skip(n) == seq![' '] + rest);
    assert((seq![' '] + rest).drop_first() == rest);
    assert(text::is_white(' '));
    text::lemma_trimmed_same(rest);
    assert(text::trimmed(line.skip(n)) == rest);
    assert(line[0] == marker[0]);
    assert(n == 1 ==> line[1] == ' ');
    assert(line.take(1)[0] == marker[0]);
    assert(line.take(2)[0] == line[0] && line.take(2)[1] == line[1]);
    assert("diff-risk"@.len() <= line.len() ==> line.take("diff-risk"@.len() as int)[0] == line[0]);
}

/// A line of the text report reads back as the finding that it was written for.
pub proof fn law_report_line_reads_back(
    marker: Seq<char>,
    rule: Seq<char>,
    found: finding::FindingView,
    tool: Seq<char>,
)
    requires
        severity_of(marker) is Some,
        !rule.contains(']'),
        is_tight(found.file),
        !occurs(found.file, "  "@),
        is_tight(found.message),
    ensures
        line_finding(finding::report_line(marker, rule, found), tool) == Some(
            risk_finding(
                rule_of_id(rule),
                severity_of(marker)->0,
                found.file,
                found.line,
                found.message,
                tool,
            ),
        ),
{
    reveal_strlit(" [");
    reveal_strlit("[");
    reveal_strlit("DIFF RISK ASSESSMENT");
    reveal_strlit("No risky patterns detected.");
    let rest = bracket_text(rule, found.file, found.line, found.message);
    let line = finding::report_line(marker, rule, found);
    assert(" ["@ =~= seq![' '] + "["@);
    assert(line =~= marker + seq![' '] + rest);
    assert(rest.first() == '[');
    assert(rest.last() == found.message.last());
    lemma_marked(marker, rest);
    text::lemma_trimmed_same(line);
    law_bracketed_finding_reads_back(
        rule,
        found.file,
        found.line,
        found.message,
        severity_of(marker)->0,
        tool,
    );
    assert(rest[0] == '[');
    assert("No risky patterns detected."@[0] == 'N');
    assert("DIFF RISK ASSESSMENT"@.len() <= rest.len() ==> rest.take(
        "DIFF RISK ASSESSMENT"@.len() as int,
    )[0] == rest[0]);
}

/// Each rule has one name and one label, and anything else names none.
pub proof fn law_names_and_labels_of_the_rules(s: Seq<char>)
    ensures
        rule_of_id(s) == RuleId::ApiContract <==> s == "api_contract"@,
        rule_of_id(s) == RuleId::AsyncBoundary <==> s == "async_boundary"@,
        rule_of_id(s) == RuleId::SerdeDrift <==> s == "serde_drift"@,
        rule_of_id(s) == RuleId::AuthGate <==> s == "auth_gate"@,
        rule_of_id(s) == RuleId::Concurrency <==> s == "concurrency"@,
        rule_of_id(s) == RuleId::Other <==> s != "api_contract"@ && s != "async_boundary"@ && s
            != "serde_drift"@ && s != "auth_gate"@ && s != "concurrency"@,
        rule_of_label(s) == RuleId::ApiContract <==> s == "API Contract Change"@,
        rule_of_label(s) == RuleId::AsyncBoundary <==> s == "Async Boundary Change"@,
        rule_of_label(s) == RuleId::SerdeDrift <==> s == "Serde Schema Drift"@,
        rule_of_label(s) == RuleId::AuthGate <==> s == "Auth / Permission Gate"@,
        rule_of_label(s) == RuleId::Concurrency <==> s == "Concurrency / Memory Safety"@,
        rule_of_label(s) == RuleId::Other <==> s != "API Contract Change"@ && s
            != "Async Boundary Change"@ && s != "Serde Schema Drift"@ && s
            != "Auth / Permission Gate"@ && s != "Concurrency / Memory Safety"@,
{
    reveal_strlit("api_contract");
    reveal_strlit("async_boundary");
    reveal_strlit("serde_drift");
    reveal_strlit("auth_gate");
    reveal_strlit("concurrency");
    reveal_strlit("API Contract Change");
    reveal_strlit("Async Boundary Change");
    reveal_strlit("Serde Schema Drift");
    reveal_strlit("Auth / Permission Gate");
    reveal_strlit("Concurrency / Memory Safety");
    assert("api_contract"@.len() == 12);
    assert("async_boundary"@.len() == 14);
    assert("serde_drift"@.len() == 11 && "serde_drift"@[0] == 's');
    assert("auth_gate"@.len() == 9);
    assert("concurrency"@.len() == 11 && "concurrency"@[0] == 'c');
    assert("API Contract Change"@.len() == 19);
    assert("Async Boundary Change"@.len() == 21);
    assert("Serde Schema Drift"@.len() == 18);
    assert("Auth / Permission Gate"@.len() == 22);
    assert("Concurrency / Memory Safety"@.len() == 27);
}

/// What each marker stands for.
pub proof fn law_severities_of_the_markers()
    ensures
        severity_of("🚨"@) == Some(Severity::Critical),
        severity_of("⚠️"@) == Some(Severity::High),
        severity_of("⚠"@) == Some(Severity::High),
        severity_of("🟡"@) == Some(Severity::Medium),
        severity_of("✅"@) == Some(Severity::Low),
        severity_of("🔵"@) == Some(Severity::Low),
{
    reveal_strlit("🚨");
    reveal_strlit("⚠️");
    reveal_strlit("⚠");
    reveal_strlit("🟡");
    reveal_strlit("✅");
    reveal_strlit("🔵");
    assert("🚨"@[0] != "⚠"@[0] && "🚨"@[0] != "🟡"@[0] && "🚨"@[0] != "✅"@[0] && "🚨"@[0]
        != "🔵"@[0]);
    assert("⚠️"@[0] != "🚨"@[0] && "⚠"@[0] != "🚨"@[0]);
    assert("🟡"@[0] != "🚨"@[0] && "🟡"@[0] != "⚠"@[0] && "🟡"@[0] != "⚠️"@[0]);
    assert("✅"@[0] != "🚨"@[0] && "✅"@[0] != "⚠"@[0] && "✅"@[0] != "⚠️"@[0] && "✅"@[0]
        != "🟡"@[0]);
    assert("🔵"@[0] != "🚨"@[0] && "🔵"@[0] != "⚠"@[0] && "🔵"@[0] != "⚠️"@[0] && "🔵"@[0]
        != "🟡"@[0]);
}

/// A finding of diff-risk says what it is made of, is heuristic, and has neither a name nor a
/// suggestion.
pub proof fn law_fields_of_a_risk_finding(
    rule: RuleId,
    severity: Severity,
    file: Seq<char>,
    line: u32,
    message: Seq<char>,
    tool: Seq<char>,
)
    ensures
        ({
            let f = risk_finding(rule, severity, file, line, message, tool);
            &&& f.rule == rule && f.severity == severity && f.file == file && f.line == line
            &&& f.message == message && f.tool == tool
            &&& f.confidence == Confidence::Heuristic && f.id is None && f.action is None
        }),
{
}

/// A location is told apart into a file and a line wherever a number stands behind its last
/// colon, also with zeros and a plus sign before it.
pub proof fn law_locations_with_a_line(file: Seq<char>, plus: bool, zeros: nat, line: u32)
    ensures
        located(
            file + seq![':'] + (number::plus_sign(plus) + number::zeros(zeros) + number::numeral(
                line as nat,
            )),
        ) == (file, line),
{
    reveal_strlit(":");
    assert(":"@ =~= seq![':']);
    let digits = number::plus_sign(plus) + number::zeros(zeros) + number::numeral(line as nat);
    let s = file + seq![':'] + digits;
    let n = file.len() as int;
    number::law_padded_numerals_are_read(plus, zeros, line);
    number::law_numerals_are_shortest(line as nat);
    assert forall|j: int| 0 <= j < digits.len() implies digits[j] != ':' by {
        let signs = number::plus_sign(plus).len() as int;
        if j >= signs + zeros {
            assert(digits[j] == number::numeral(line as nat)[j - signs - zeros]);
            assert('0' <= number::numeral(line as nat)[j - signs - zeros] <= '9');
        }
    }
    assert(s.subrange(n, n + 1) =~= ":"@);
    assert forall|j: int| n < j <= s.len() implies !#[trigger] text::matches_at(s, ":"@, j) by {
        if text::matches_at(s, ":"@, j) {
            assert(s.subrange(j, j + 1)[0] == s[j]);
            assert(s[j] == digits[j - n - 1]);
        }
    }
    text::lemma_rfind_upto(s, ":"@, s.len() as int, n);
    assert(s.take(n) =~= file);
    assert(s.skip(n + 1) =~= digits);
}

/// Any other location is a file as a whole, at its first line.
pub proof fn law_locations_without_a_line(location: Seq<char>) -> (padding: (bool, nat))
    ensures
        ({
            let (file, line) = located(location);
            ||| file == location && line == 1
            ||| location == file + seq![':'] + (number::plus_sign(padding.0) + number::zeros(
                padding.1,
            ) + number::numeral(line as nat))
        }),
{
    reveal_strlit(":");
    assert(":"@ =~= seq![':']);
    text::law_split_at_the_last(location, ":"@);
    match text::split_last(location, ":"@) {
        Some((file, rest)) => match number::u32_of(rest) {
            Some(line) => number::law_only_padded_numerals_are_read(rest),
            None => (false, 0),
        },
        None => (false, 0),
    }
}

/// What stands before the first two blanks is the location, what stands behind them the
/// message, both without the white space around them; without two blanks all is location.
pub proof fn law_two_blanks_end_the_location(before: Seq<char>, after: Seq<char>)
    requires
        forall|i: int|
            0 <= i < before.len() ==> !#[trigger] text::matches_at(
                before + "  "@ + after,
                "  "@,
                i,
            ),
    ensures
        located_message(before + "  "@ + after) == (
            located(text::trimmed(before)).0,
            located(text::trimmed(before)).1,
            text::trimmed(after),
        ),
        !occurs(before, "  "@) ==> located_message(before) == (
            located(text::trimmed(before)).0,
            located(text::trimmed(before)).1,
            Seq::<char>::empty(),
        ),
{
    text::lemma_split_first(before, "  "@, after);
    text::lemma_find_from(before, "  "@, 0);
    assert(text::trimmed(Seq::<char>::empty()) == Seq::<char>::empty());
    if !occurs(before, "  "@) {
        if let Some(i) = text::find_from(before, "  "@, 0) {
            assert(text::matches_at(before, "  "@, i));
        }
    }
}

/// A text is a finding in brackets if and only if it begins with a bracket that is closed;
/// the rule is the one of the name in the brackets, and the rest is location and message.
pub proof fn law_findings_in_brackets(
    id: Seq<char>,
    after: Seq<char>,
    s: Seq<char>,
    severity: Severity,
    tool: Seq<char>,
)
    requires
        !id.contains(']'),
    ensures
        ({
            let (file, line, message) = located_message(text::trimmed(after));
            bracketed(seq!['['] + id + seq![']'] + after, severity, tool) == Some(
                risk_finding(rule_of_id(id), severity, file, line, message, tool),
            )
        }),
        bracketed(s, severity, tool) is Some <==> s.len() > 0 && s[0] == '[' && s.skip(1).contains(
            ']',
        ),
{
    reveal_strlit("[");
    reveal_strlit("]");
    assert("["@ =~= seq!['[']);
    assert("]"@ =~= seq![']']);
    let all = seq!['['] + id + seq![']'] + after;
    let rest = id + "]"@ + after;
    assert(all.take(1) =~= "["@);
    assert(all.skip(1) =~= rest);
    assert forall|i: int| 0 <= i < id.len() implies !#[trigger] text::matches_at(rest, "]"@, i) by {
        if text::matches_at(rest, "]"@, i) {
            assert(rest.subrange(i, i + 1)[0] == rest[i]);
            assert(id.contains(id[i]));
        }
    }
    text::lemma_split_first(id, "]"@, after);
    if s.len() > 0 {
        assert(s.take(1)[0] == s[0]);
        if s[0] == '[' {
            assert(s.take(1) =~= "["@);
        }
        let inner = s.skip(1);
        text::lemma_find_from(inner, "]"@, 0);
        match text::find_from(inner, "]"@, 0) {
            Some(i) => {
                assert(inner.subrange(i, i + 1)[0] == inner[i]);
                assert(inner.contains(inner[i]));
            },
            None => {
                if inner.contains(']') {
                    let k = choose|k: int| 0 <= k < inner.len() && inner[k] == ']';
                    assert(inner.subrange(k, k + 1) =~= "]"@);
                    assert(text::matches_at(inner, "]"@, k));
                }
            },
        }
    }
}

/// What stands before the first dash between blanks is the header, what stands before the
/// first colon with a blank behind it in the header is the label, and the rest of the header
/// the location; without one of the two there is no finding.
pub proof fn law_findings_with_a_label(
    label: Seq<char>,
    location: Seq<char>,
    message: Seq<char>,
    severity: Severity,
    tool: Seq<char>,
)
    requires
        forall|i: int|
            0 <= i < label.len() + 2 + location.len() ==> !#[trigger] text::matches_at(
                label + ": "@ + location + " — "@ + message,
                " — "@,
                i,
            ),
        forall|i: int|
            0 <= i < label.len() ==> !#[trigger] text::matches_at(
                label + ": "@ + location,
                ": "@,
                i,
            ),
    ensures
        labelled(label + ": "@ + location + " — "@ + message, severity, tool) == Some(
            risk_finding(
                rule_of_label(label),
                severity,
                located(location).0,
                located(location).1,
                text::trimmed(message),
                tool,
            ),
        ),
        !occurs(message, " — "@) ==> labelled(message, severity, tool) is None,
{
    reveal_strlit(": ");
    assert(": "@.len() == 2);
    text::lemma_split_first(label + ": "@ + location, " — "@, message);
    text::lemma_split_first(label, ": "@, location);
    text::lemma_find_from(message, " — "@, 0);
    if !occurs(message, " — "@) {
        if let Some(i) = text::find_from(message, " — "@, 0) {
            assert(text::matches_at(message, " — "@, i));
        }
    }
}

/// A header without a colon and a blank behind it gives no finding.
pub proof fn law_headers_need_a_label(
    header: Seq<char>,
    message: Seq<char>,
    severity: Severity,
    tool: Seq<char>,
)
    requires
        forall|i: int|
            0 <= i < header.len() ==> !#[trigger] text::matches_at(
                header + " — "@ + message,
                " — "@,
                i,
            ),
        !occurs(header, ": "@),
    ensures
        labelled(header + " — "@ + message, severity, tool) is None,
{
    text::lemma_split_first(header, " — "@, message);
    text::lemma_find_from(header, ": "@, 0);
    if let Some(i) = text::find_from(header, ": "@, 0) {
        assert(text::matches_at(header, ": "@, i));
    }
}

/// Whether `s` is white space only.
pub open spec fn all_white(s: Seq<char>) -> bool {
    forall|i: int| 0 <= i < s.len() ==> text::is_white(#[trigger] s[i])
}

/// Whether the text behind a marker is the banner or the all-clear.
pub open spec fn is_no_finding(rest: Seq<char>) -> bool {
    text::has_prefix(rest, "DIFF RISK ASSESSMENT"@) || rest == "No risky patterns detected."@
}

/// What a marker is told apart from, whatever white space stands around.
proof fn lemma_marked_text(
    marker: Seq<char>,
    gap: Seq<char>,
    rest: Seq<char>,
)
    requires
        severity_of(marker) is Some,
        all_white(gap),
        is_tight(rest),
        gap.len() > 0 || rest.first() != '\u{fe0f}',
    ensures
        ({
            let line = marker + gap + rest;
            &&& marked(line) == (severity_of(marker)->0, rest)
            &&& is_tight(line)
            &&& !text::has_prefix(line, "#"@)
            &&& !text::has_prefix(line, "diff-risk"@)
        }),
{
    reveal_strlit("🚨");
    reveal_strlit("⚠️");
    reveal_strlit("⚠");
    reveal_strlit("🟡");
    reveal_strlit("✅");
    reveal_strlit("🔵");
    reveal_strlit("#");
    reveal_strlit("diff-risk");
    let line = marker + gap + rest;
    let n = marker.len() as int;
    assert(line.first() == marker.first());
    assert(line.last() == rest.last());
    text::lemma_trimmed_same(line);
    assert(line.take(n) =~= marker);
    assert(line.skip(n) =~= gap + rest);
    text::law_trimming_takes_white_space_only(gap, rest, Seq::empty());
    assert(gap + rest + Seq::empty() =~= gap + rest);
    assert(text::trimmed(line.skip(n)) == rest);
    assert(line[0] == marker[0]);
    let second = if gap.len() > 0 {
        gap[0]
    } else {
        rest[0]
    };
    assert(n == 1 ==> line[1] == second);
    assert(gap.len() > 0 ==> text::is_white(gap[0]));
    assert(line.take(1)[0] == marker[0]);
    assert(line.take(2)[0] == line[0] && line.take(2)[1] == line[1]);
    assert("diff-risk"@.len() <= line.len() ==> line.take("diff-risk"@.len() as int)[0] == line[0]);
}

/// A line of a marker and a text holds the finding that the text is, in brackets or else with
/// a label, at the severity of the marker, whichever that is and whatever white space stands
/// around; the banner and the all-clear hold none.
pub proof fn law_lines_with_a_marker(
    before: Seq<char>,
    marker: Seq<char>,
    gap: Seq<char>,
    rest: Seq<char>,
    behind: Seq<char>,
    tool: Seq<char>,
)
    requires
        severity_of(marker) is Some,
        all_white(before),
        all_white(gap),
        all_white(behind),
        is_tight(rest),
        gap.len() > 0 || rest.first() != '\u{fe0f}',
    ensures
        ({
            let found = line_finding(before + (marker + gap + rest) + behind, tool);
            let severity = severity_of(marker)->0;
            let in_brackets = bracketed(rest, severity, tool);
            &&& is_no_finding(rest) ==> found is None
            &&& !is_no_finding(rest) && in_brackets is Some ==> found == in_brackets
            &&& !is_no_finding(rest) && in_brackets is None ==> found == labelled(
                rest,
                severity,
                tool,
            )
        }),
{
    let line = marker + gap + rest;
    lemma_marked_text(marker, gap, rest);
    text::law_trimming_takes_white_space_only(before, line, behind);
}

/// A line without a marker holds the finding that it is, at medium severity, unless it is a
/// comment, one that diff-risk writes about itself, the banner or the all-clear.
pub proof fn law_lines_without_a_marker(
    before: Seq<char>,
    rest: Seq<char>,
    behind: Seq<char>,
    tool: Seq<char>,
)
    requires
        all_white(before),
        all_white(behind),
        is_tight(rest),
        !text::has_prefix(rest, "🚨"@),
        !text::has_prefix(rest, "⚠"@),
        !text::has_prefix(rest, "🟡"@),
        !text::has_prefix(rest, "✅"@),
        !text::has_prefix(rest, "🔵"@),
    ensures
        ({
            let found = line_finding(before + rest + behind, tool);
            let in_brackets = bracketed(rest, Severity::Medium, tool);
            let skipped = text::has_prefix(rest, "#"@) || text::has_prefix(rest, "diff-risk"@)
                || is_no_finding(rest);
            &&& skipped ==> found is None
            &&& !skipped && in_brackets is Some ==> found == in_brackets
            &&& !skipped && in_brackets is None ==> found == labelled(
                rest,
                Severity::Medium,
                tool,
            )
        }),
{
    reveal_strlit("⚠️");
    reveal_strlit("⚠");
    text::law_trimming_takes_white_space_only(before, rest, behind);
    text::lemma_trimmed_same(rest);
    assert(rest.len() >= 1 ==> rest.take(1)[0] == rest[0]);
    if text::has_prefix(rest, "⚠️"@) {
        assert(rest.take(2)[0] == "⚠️"@[0]);
        assert(rest.take(1) =~= "⚠"@);
    }
}

/// A line of white space holds no finding.
pub proof fn law_blank_lines_hold_nothing(blank: Seq<char>, tool: Seq<char>)
    requires
        all_white(blank),
    ensures
        line_finding(blank, tool) is None,
{
    text::law_trimming_takes_white_space_only(blank, Seq::empty(), Seq::empty());
    assert(blank + Seq::empty() + Seq::<char>::empty() =~= blank);
}

/// A line that diff-risk writes, of a marker, a blank, a label, a location and a message,
/// reads back as the finding that it was written for, at the severity of the marker,
/// whichever that is.
pub proof fn law_labelled_line_reads_back(
    marker: Seq<char>,
    label: Seq<char>,
    file: Seq<char>,
    line: u32,
    message: Seq<char>,
    tool: Seq<char>,
)
    requires
        severity_of(marker) is Some,
        is_tight(label),
        label.first() != '[',
        !text::has_prefix(label_text(label, file, line, message), "DIFF RISK ASSESSMENT"@),
        !occurs(label, ": "@),
        !occurs(label + ": "@ + file, " — "@),
        is_tight(message),
    ensures
        line_finding(marker + seq![' '] + label_text(label, file, line, message), tool) == Some(
            risk_finding(
                rule_of_label(label),
                severity_of(marker)->0,
                file,
                line,
                message,
                tool,
            ),
        ),
{
    reveal_strlit("[");
    reveal_strlit(": ");
    reveal_strlit("No risky patterns detected.");
    let rest = label_text(label, file, line, message);
    let severity = severity_of(marker)->0;
    assert(rest.first() == label.first());
    assert(rest.last() == message.last());
    assert(rest.take(1)[0] == rest[0]);
    assert("["@[0] == '[');
    assert(bracketed(rest, severity, tool) is None);
    assert(rest != "No risky patterns detected."@) by {
        let n = label.len() as int;
        assert(": "@[0] == ':');
        assert(rest[n] == ':');
        if rest == "No risky patterns detected."@ {
            assert("No risky patterns detected."@[n] == ':');
        }
    }
    law_labelled_finding_reads_back(label, file, line, message, severity, tool);
    assert(text::is_white(' '));
    law_lines_with_a_marker(Seq::empty(), marker, seq![' '], rest, Seq::empty(), tool);
    assert(Seq::empty() + (marker + seq![' '] + rest) + Seq::empty() =~= marker + seq![' ']
        + rest);
}

/// The findings of several lines are those of each line that holds one, in their order.
pub proof fn law_findings_are_read_line_by_line(lines: Seq<Seq<char>>, tool: Seq<char>)
    ensures
        findings_of(lines, tool) == lines.map_values(
            |line: Seq<char>| line_finding(line, tool),
        ).filter(|f: Option<finding::FindingView>| f is Some).map_values(
            |f: Option<finding::FindingView>| f->0,
        ),
    decreases lines.len(),
{
    reveal(Seq::filter);
    let found = lines.map_values(|line: Seq<char>| line_finding(line, tool));
    if lines.len() > 0 {
        let rest = lines.drop_last();
        law_findings_are_read_line_by_line(rest, tool);
        assert(found.drop_last() =~= rest.map_values(|line: Seq<char>| line_finding(line, tool)));
        assert(found.last() == line_finding(lines.last(), tool));
    }
    assert(findings_of(lines, tool) =~= found.filter(
        |f: Option<finding::FindingView>| f is Some,
    ).map_values(|f: Option<finding::FindingView>| f->0));
}

/// The findings of a text are that of its first line, where it holds one, and then those of
/// the rest, whether a line ends in a newline alone or in a carriage return and a newline.
pub proof fn law_text_is_read_line_by_line(line: Seq<char>, rest: Seq<char>, tool: Seq<char>)
    requires
        !line.contains('\n'),
    ensures
        ({
            let first = match line_finding(line, tool) {
                Some(f) => seq![f],
                None => Seq::empty(),
            };
            &&& line.len() == 0 || line.last() != '\r' ==> findings_in(
                line + seq!['\n'] + rest,
                tool,
            ) == first + findings_in(rest, tool)
            &&& findings_in(line + seq!['\r', '\n'] + rest, tool) == first + findings_in(rest, tool)
            &&& line.len() > 0 ==> findings_in(line, tool) == first
            &&& findings_in(Seq::empty(), tool) == Seq::<finding::FindingView>::empty()
        }),
{
    text::law_lines_end_at_newlines(line, rest);
    lemma_findings_behind(line, text::lines_of(rest), tool);
    lemma_findings_behind(line, Seq::empty(), tool);
    assert(text::lines_of(Seq::empty()) =~= Seq::empty());
    assert(seq![line] + Seq::<Seq<char>>::empty() =~= seq![line]);
    let first = match line_finding(line, tool) {
        Some(f) => seq![f],
        None => Seq::empty(),
    };
    assert(first + findings_of(Seq::empty(), tool) =~= first);
}

/// The findings of a line and of those that follow it.
proof fn lemma_findings_behind(line: Seq<char>, lines: Seq<Seq<char>>, tool: Seq<char>)
    ensures
        findings_of(seq![line] + lines, tool) == match line_finding(line, tool) {
            Some(f) => seq![f],
            None => Seq::empty(),
        } + findings_of(lines, tool),
    decreases lines.len(),
{
    let all = seq![line] + lines;
    let first = match line_finding(line, tool) {
        Some(f) => seq![f],
        None => Seq::empty(),
    };
    if lines.len() == 0 {
        assert(all.drop_last() =~= Seq::empty());
        assert(all.last() == line);
        assert(findings_of(all.drop_last(), tool) =~= Seq::empty());
        assert(findings_of(all, tool) =~= first + findings_of(lines, tool));
    } else {
        lemma_findings_behind(line, lines.drop_last(), tool);
        assert(all.drop_last() =~= seq![line] + lines.drop_last());
        assert(all.last() == lines.last());
        assert(findings_of(all, tool) =~= first + findings_of(lines, tool));
    }
}

/// The rule with the name `id`.
pub fn rule_from_id(id: &str) -> (r: RuleId)
    ensures
        r == rule_of_id(id@),
{
    if text::same(id, "api_contract") {
        RuleId::ApiContract
    } else if text::same(id, "async_boundary") {
        RuleId::AsyncBoundary
    } else if text::same(id, "serde_drift") {
        RuleId::SerdeDrift
    } else if text::same(id, "auth_gate") {
        RuleId::AuthGate
    } else if text::same(id, "concurrency") {
        RuleId::Concurrency
    } else {
        RuleId::Other
    }
}

/// The rule that diff-risk calls `label`.
pub fn rule_from_diff_risk_label(label: &str) -> (r: RuleId)
    ensures
        r == rule_of_label(label@),
{
    if text::same(label, "API Contract Change") {
        RuleId::ApiContract
    } else if text::same(label, "Async Boundary Change") {
        RuleId::AsyncBoundary
    } else if text::same(label, "Serde Schema Drift") {
        RuleId::SerdeDrift
    } else if text::same(label, "Auth / Permission Gate") {
        RuleId::AuthGate
    } else if text::same(label, "Concurrency / Memory Safety") {
        RuleId::Concurrency
    } else {
        RuleId::Other
    }
}

/// The severity that the marker at the start of a line stands for, and what follows the
/// marker.
pub fn split_marker(line: &str) -> (r: (Severity, &str))
    ensures
        (r.0, r.1@) == marked(line@),
{
    let trimmed = text::trim_start(line);
    if let Some(rest) = text::strip_prefix(trimmed, "🚨") {
        (Severity::Critical, text::trim(rest))
    } else if let Some(rest) = text::strip_prefix(trimmed, "⚠️") {
        (Severity::High, text::trim(rest))
    } else if let Some(rest) = text::strip_prefix(trimmed, "⚠") {
        (Severity::High, text::trim(rest))
    } else if let Some(rest) = text::strip_prefix(trimmed, "🟡") {
        (Severity::Medium, text::trim(rest))
    } else if let Some(rest) = text::strip_prefix(trimmed, "✅") {
        (Severity::Low, text::trim(rest))
    } else if let Some(rest) = text::strip_prefix(trimmed, "🔵") {
        (Severity::Low, text::trim(rest))
    } else {
        (Severity::Medium, trimmed)
    }
}

/// The file and line that a location names.
pub fn parse_location(location: &str) -> (r: (&str, u32))
    ensures
        (r.0@, r.1) == located(location@),
{
    if let Some((file, line)) = text::rsplit_once(location, ":") {
        if let Some(n) = number::parse_u32(line) {
            return (file, n);
        }
    }
    (location, 1)
}

/// The file, line and message of a text in which two blanks end the location.
pub fn parse_location_and_message(s: &str) -> (r: (&str, u32, String))
    ensures
        (r.0@, r.1, r.2@) == located_message(s@),
{
    match text::split_once(s, "  ") {
        Some((location, message)) => {
            let (file, line) = parse_location(text::trim(location));
            (file, line, text::trim(message).to_owned())
        },
        None => {
            let (file, line) = parse_location(text::trim(s));
            proof {
                assert(text::trimmed(Seq::<char>::empty()) == Seq::<char>::empty());
            }
            (file, line, String::new())
        },
    }
}

/// A finding of diff-risk.
fn make_finding(
    rule: RuleId,
    severity: Severity,
    file: &str,
    line: u32,
    message: String,
    tool: &str,
) -> (r: Finding)
    ensures
        r@ == risk_finding(rule, severity, file@, line, message@, tool@),
{
    Finding {
        rule,
        severity,
        confidence: Confidence::Heuristic,
        location: Location { file: file.to_owned(), line },
        message,
        tool: tool.to_owned(),
        id: None,
        action: None,
    }
}

/// The finding of a text of the form `[rule] file:line  message`.
pub fn parse_bracketed_finding(s: &str, severity: Severity, tool: &str) -> (r: Option<Finding>)
    ensures
        match r {
            Some(f) => bracketed(s@, severity, tool@) == Some(f@),
            None => bracketed(s@, severity, tool@) is None,
        },
{
    let rest = match text::strip_prefix(s, "[") {
        Some(rest) => rest,
        None => return None,
    };
    let (id, after) = match text::split_once(rest, "]") {
        Some((id, after)) => (id, after),
        None => return None,
    };
    let rule = rule_from_id(id);
    let (file, line, message) = parse_location_and_message(text::trim(after));
    Some(make_finding(rule, severity, file, line, message, tool))
}

/// The finding of a text of the form `label: file:line — message`.
pub fn parse_diff_risk_finding(s: &str, severity: Severity, tool: &str) -> (r: Option<Finding>)
    ensures
        match r {
            Some(f) => labelled(s@, severity, tool@) == Some(f@),
            None => labelled(s@, severity, tool@) is None,
        },
{
    let (header, message) = match text::split_once(s, " — ") {
        Some((header, message)) => (header, message),
        None => return None,
    };
    let (label, location) = match text::split_once(header, ": ") {
        Some((label, location)) => (label, location),
        None => return None,
    };
    let (file, line) = parse_location(location);
    let rule = rule_from_diff_risk_label(label);
    Some(make_finding(rule, severity, file, line, text::trim(message).to_owned(), tool))
}

/// The finding of one line, if it holds one.
fn parse_line(line: &str, tool: &str) -> (r: Option<Finding>)
    ensures
        match r {
            Some(f) => line_finding(line@, tool@) == Some(f@),
            None => line_finding(line@, tool@) is None,
        },
{
    let line = text::trim(line);
    if line.is_empty() || text::starts_with(line, "#") || text::starts_with(line, "diff-risk") {
        return None;
    }
    let (severity, rest) = split_marker(line);
    if text::starts_with(rest, "DIFF RISK ASSESSMENT") || text::same(
        rest,
        "No risky patterns detected.",
    ) {
        return None;
    }
    match parse_bracketed_finding(rest, severity, tool) {
        Some(f) => Some(f),
        None => parse_diff_risk_finding(rest, severity, tool),
    }
}

/// The findings in the text that diff-risk printed.
pub fn parse_findings_from_text(output: &str, tool: &str) -> (r: Vec<Finding>)
    ensures
        finding::views(r@) == findings_in(output@, tool@),
{
    let lines = text::lines(output);
    let ghost all = text::texts(lines@);
    let mut r: Vec<Finding> = Vec::new();
    assert(finding::views(r@) =~= findings_of(all.take(0), tool@));
    for i in 0..lines.len()
        invariant
            all == text::texts(lines@),
            finding::views(r@) == findings_of(all.take(i as int), tool@),
    {
        let ghost before = finding::views(r@);
        assert(all.take(i + 1).drop_last() == all.take(i as int));
        assert(all.take(i + 1).last() == lines@[i as int]@);
        if let Some(f) = parse_line(lines[i].as_str(), tool) {
            r.push(f);
            assert(finding::views(r@) =~= before.push(f@));
        }
    }
    assert(all.take(lines.len() as int) == all);
    r
}

} // verus!
