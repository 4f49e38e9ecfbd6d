//! The fix loop: context, LLM, risk check, impact and drift check, and again with the
//! results where one of them fails.

use vstd::prelude::*;
use vstd::string::*;
use vstd::utf8::*;

use crate::apply;
use crate::apply::ApplyRun;
use crate::check::ToolOutput;
use crate::number;
use crate::path::FilePath;
use crate::suggestion;
use crate::suggestion::ClippySuggestion;
use crate::text;

verus! {

/// Result of a fix loop run.
#[derive(Debug, PartialEq, Eq)]
pub enum GateResult {
    Passed,
    Failed { reason: String },
    TimedOut { attempts: usize },
}

/// Orchestrated fix loop: context, LLM, risk check, impact verify, drift check.
#[derive(Debug, PartialEq, Eq)]
pub struct FixLoop {
    pub root: String,
    pub prompt: String,
    pub max_attempts: usize,
    /// The risk threshold, as the decimal text that is handed to diff-risk.
    pub risk_threshold: String,
    pub since: String,
    pub auto_heal: bool,
}

/// What has to be done next. All but the last belong to an attempt, counted from one on.
#[derive(Debug, PartialEq, Eq)]
pub enum FixStep {
    /// Build the context for the LLM.
    BuildContext { attempt: usize },
    /// Wait until the user applied the changes of the LLM, or quits.
    AwaitUser { attempt: usize },
    /// Run the Clippy Auto-Healer.
    AutoHeal { attempt: usize },
    /// Read the diff.
    ReadDiff { attempt: usize },
    /// Score the risk of the diff.
    CheckRisk { attempt: usize },
    /// Check impact and drift.
    Verify { attempt: usize },
    /// Nothing: the loop ended with this result.
    Finished { result: GateResult },
}

/// What was done.
#[derive(Debug, PartialEq, Eq)]
pub enum FixEvent {
    /// The context has this many bytes.
    ContextBuilt { length: usize },
    /// The user typed this line.
    UserInput(String),
    /// The healer applied so many suggestions, or failed.
    Healed(Option<usize>),
    /// The diff, where there is one.
    DiffRead(Option<String>),
    /// Whether the risk is acceptable.
    RiskChecked(bool),
    /// Whether impact and drift are acceptable.
    Verified { impact: bool, drift: bool },
}

/// What the user is told on the way.
#[derive(Debug, Clone, Copy, PartialEq, Eq, Structural)]
pub enum Notice {
    AttemptStarted { attempt: usize, max: usize },
    ContextReady { length: usize },
    PromptShown,
    HealerFailed,
    CheckingRisk,
    FixesInDiff { count: usize },
    NoChanges,
    NoDiff,
    RiskExceeded,
    RetryWithRisk,
    RiskPassed,
    Verifying,
    AllPassed,
    ImpactAffected,
    DriftStale,
    RetryWithFailures,
}

/// What a result says.
pub enum GateView {
    Passed,
    Failed { reason: Seq<char> },
    TimedOut { attempts: usize },
}

/// What a step says.
pub enum StepView {
    BuildContext { attempt: usize },
    AwaitUser { attempt: usize },
    AutoHeal { attempt: usize },
    ReadDiff { attempt: usize },
    CheckRisk { attempt: usize },
    Verify { attempt: usize },
    Finished { result: GateView },
}

/// What an event says.
pub enum EventView {
    ContextBuilt { length: usize },
    UserInput(Seq<char>),
    Healed(Option<usize>),
    DiffRead(Option<Seq<char>>),
    RiskChecked(bool),
    Verified { impact: bool, drift: bool },
}

impl View for GateResult {
    type V = GateView;

    open spec fn view(&self) -> GateView {
        match self {
            GateResult::Passed => GateView::Passed,
            GateResult::Failed { reason } => GateView::Failed { reason: reason@ },
            GateResult::TimedOut { attempts } => GateView::TimedOut { attempts: *attempts },
        }
    }
}

impl View for FixStep {
    type V = StepView;

    open spec fn view(&self) -> StepView {
        match self {
            FixStep::BuildContext { attempt } => StepView::BuildContext { attempt: *attempt },
            FixStep::AwaitUser { attempt } => StepView::AwaitUser { attempt: *attempt },
            FixStep::AutoHeal { attempt } => StepView::AutoHeal { attempt: *attempt },
            FixStep::ReadDiff { attempt } => StepView::ReadDiff { attempt: *attempt },
            FixStep::CheckRisk { attempt } => StepView::CheckRisk { attempt: *attempt },
            FixStep::Verify { attempt } => StepView::Verify { attempt: *attempt },
            FixStep::Finished { result } => StepView::Finished { result: result@ },
        }
    }
}

impl View for FixEvent {
    type V = EventView;

    open spec fn view(&self) -> EventView {
        match self {
            FixEvent::ContextBuilt { length } => EventView::ContextBuilt { length: *length },
            FixEvent::UserInput(line) => EventView::UserInput(line@),
            FixEvent::Healed(applied) => EventView::Healed(*applied),
            FixEvent::DiffRead(diff) => EventView::DiffRead(text::opt_text(*diff)),
            FixEvent::RiskChecked(passed) => EventView::RiskChecked(*passed),
            FixEvent::Verified { impact, drift } => EventView::Verified {
                impact: *impact,
                drift: *drift,
            },
        }
    }
}

/// What the loop goes by: how many attempts there may be, and whether the healer may run.
pub struct LoopRules {
    pub max: usize,
    pub auto_heal: bool,
}

/// Whether the user asked to end the loop.
pub open spec fn is_quit(line: Seq<char>) -> bool {
    text::trimmed(line) == "q"@
}

/// Whether there is nothing in a diff to check.
pub open spec fn is_unchanged(diff: Option<Seq<char>>) -> bool {
    match diff {
        Some(d) => text::trimmed(d).len() == 0,
        None => true,
    }
}

/// A step, and what the user is told on the way to it.
#[verifier::ext_equal]
pub struct Move {
    pub step: StepView,
    pub notices: Seq<Notice>,
}

impl LoopRules {
    /// The start of the attempt with the given number, where there may be so many.
    pub open spec fn begin(self, attempt: int) -> Move {
        if attempt <= self.max {
            Move {
                step: StepView::BuildContext { attempt: attempt as usize },
                notices: seq![Notice::AttemptStarted { attempt: attempt as usize, max: self.max }],
            }
        } else {
            Move {
                step: StepView::Finished { result: GateView::TimedOut { attempts: self.max } },
                notices: Seq::empty(),
            }
        }
    }

    /// Where `event` leads from `step`. One that does not answer the step leads nowhere.
    pub open spec fn next(self, step: StepView, event: EventView) -> Move {
        match (step, event) {
            (StepView::BuildContext { attempt }, EventView::ContextBuilt { length }) => Move {
                step: StepView::AwaitUser { attempt },
                notices: seq![Notice::ContextReady { length }, Notice::PromptShown],
            },
            (StepView::AwaitUser { attempt }, EventView::UserInput(line)) => if is_quit(line) {
                Move {
                    step: StepView::Finished { result: GateView::Failed { reason: "user quit"@ } },
                    notices: Seq::empty(),
                }
            } else if self.auto_heal {
                Move { step: StepView::AutoHeal { attempt }, notices: Seq::empty() }
            } else {
                Move { step: StepView::ReadDiff { attempt }, notices: seq![Notice::CheckingRisk] }
            },
            (StepView::AutoHeal { attempt }, EventView::Healed(applied)) => Move {
                step: StepView::ReadDiff { attempt },
                notices: match applied {
                    Some(count) => if count > 0 {
                        seq![Notice::CheckingRisk, Notice::FixesInDiff { count }]
                    } else {
                        seq![Notice::CheckingRisk]
                    },
                    None => seq![Notice::HealerFailed, Notice::CheckingRisk],
                },
            },
            (StepView::ReadDiff { attempt }, EventView::DiffRead(diff)) => if is_unchanged(diff) {
                Move {
                    step: StepView::Verify { attempt },
                    notices: seq![
                        if diff is Some {
                            Notice::NoChanges
                        } else {
                            Notice::NoDiff
                        },
                        Notice::RiskPassed,
                        Notice::Verifying,
                    ],
                }
            } else {
                Move { step: StepView::CheckRisk { attempt }, notices: Seq::empty() }
            },
            (StepView::CheckRisk { attempt }, EventView::RiskChecked(passed)) => if passed {
                Move {
                    step: StepView::Verify { attempt },
                    notices: seq![Notice::RiskPassed, Notice::Verifying],
                }
            } else if attempt < self.max {
                let start = self.begin(attempt + 1);
                Move {
                    step: start.step,
                    notices: seq![Notice::RiskExceeded, Notice::RetryWithRisk] + start.notices,
                }
            } else {
                Move {
                    step: StepView::Finished {
                        result: GateView::Failed {
                            reason: "risk threshold exceeded after all attempts"@,
                        },
                    },
                    notices: seq![Notice::RiskExceeded],
                }
            },
            (StepView::Verify { attempt }, EventView::Verified { impact, drift }) => if impact
                && drift {
                Move {
                    step: StepView::Finished { result: GateView::Passed },
                    notices: seq![Notice::AllPassed],
                }
            } else {
                let start = self.begin(attempt + 1);
                let first: Seq<Notice> = if impact {
                    Seq::empty()
                } else {
                    seq![Notice::ImpactAffected]
                };
                let second: Seq<Notice> = if drift {
                    Seq::empty()
                } else {
                    seq![Notice::DriftStale]
                };
                let third: Seq<Notice> = if attempt < self.max {
                    seq![Notice::RetryWithFailures]
                } else {
                    Seq::empty()
                };
                Move { step: start.step, notices: first + second + third + start.notices }
            },
            _ => Move { step, notices: Seq::empty() },
        }
    }

    /// The step that a run with `events` has come to.
    pub open spec fn run(self, events: Seq<EventView>) -> StepView
        decreases events.len(),
    {
        if events.len() == 0 {
            self.begin(1).step
        } else {
            self.next(self.run(events.drop_last()), events.last()).step
        }
    }

    /// Whether a step is one that the loop can come to.
    pub open spec fn allows(self, step: StepView) -> bool {
        match attempt_of(step) {
            Some(attempt) => 1 <= attempt <= self.max && (step is AutoHeal ==> self.auto_heal),
            None => step matches StepView::Finished { result: GateView::TimedOut { attempts } }
                ==> attempts == self.max,
        }
    }

    /// How many steps are left at most.
    pub open spec fn steps_left(self, step: StepView) -> int {
        match step {
            StepView::BuildContext { attempt } => (self.max - attempt) * 6 + 6,
            StepView::AwaitUser { attempt } => (self.max - attempt) * 6 + 5,
            StepView::AutoHeal { attempt } => (self.max - attempt) * 6 + 4,
            StepView::ReadDiff { attempt } => (self.max - attempt) * 6 + 3,
            StepView::CheckRisk { attempt } => (self.max - attempt) * 6 + 2,
            StepView::Verify { attempt } => (self.max - attempt) * 6 + 1,
            StepView::Finished { .. } => 0,
        }
    }
}

/// The attempt that a step belongs to.
pub open spec fn attempt_of(step: StepView) -> Option<usize> {
    match step {
        StepView::BuildContext { attempt } => Some(attempt),
        StepView::AwaitUser { attempt } => Some(attempt),
        StepView::AutoHeal { attempt } => Some(attempt),
        StepView::ReadDiff { attempt } => Some(attempt),
        StepView::CheckRisk { attempt } => Some(attempt),
        StepView::Verify { attempt } => Some(attempt),
        StepView::Finished { .. } => None,
    }
}

/// Whether `event` answers `step`.
pub open spec fn answers(step: StepView, event: EventView) -> bool {
    match step {
        StepView::BuildContext { .. } => event is ContextBuilt,
        StepView::AwaitUser { .. } => event is UserInput,
        StepView::AutoHeal { .. } => event is Healed,
        StepView::ReadDiff { .. } => event is DiffRead,
        StepView::CheckRisk { .. } => event is RiskChecked,
        StepView::Verify { .. } => event is Verified,
        StepView::Finished { .. } => false,
    }
}

/// Whether `event` clears the risk at `step`.
pub open spec fn clears_risk(step: StepView, event: EventView) -> bool {
    ||| step is CheckRisk && event == EventView::RiskChecked(true)
    ||| step is ReadDiff && (event matches EventView::DiffRead(diff) && is_unchanged(diff))
}

/// Whatever happens, no attempt is made beyond the maximum, the healer is never asked for
/// unless it was opted in to, and a loop that ran out of attempts reports their number.
pub proof fn law_loop_keeps_to_its_rules(rules: LoopRules, events: Seq<EventView>)
    ensures
        rules.allows(rules.run(events)),
    decreases events.len(),
{
    if events.len() > 0 {
        law_loop_keeps_to_its_rules(rules, events.drop_last());
    }
}

/// Without the opt-in the healer is never asked for.
pub proof fn law_healer_is_opt_in(rules: LoopRules, events: Seq<EventView>)
    requires
        !rules.auto_heal,
    ensures
        !(rules.run(events) is AutoHeal),
{
    law_loop_keeps_to_its_rules(rules, events);
}

/// Every event that answers a step brings the loop nearer to its end, and any other
/// changes nothing. So at most six steps are made for each attempt.
pub proof fn law_loop_ends(rules: LoopRules, step: StepView, event: EventView)
    requires
        rules.allows(step),
    ensures
        0 <= rules.steps_left(rules.next(step, event).step),
        rules.steps_left(rules.begin(1).step) <= rules.max * 6,
        answers(step, event) ==> rules.steps_left(rules.next(step, event).step)
            < rules.steps_left(step),
        !answers(step, event) ==> rules.next(step, event).step == step && rules.next(
            step,
            event,
        ).notices.len() == 0,
{
}

/// Impact and drift are checked only once the risk of the same attempt was cleared.
proof fn lemma_verify_after_risk(rules: LoopRules, events: Seq<EventView>) -> (j: int)
    requires
        rules.run(events) is Verify,
    ensures
        0 <= j < events.len(),
        clears_risk(rules.run(events.take(j)), events[j]),
        attempt_of(rules.run(events.take(j))) == attempt_of(rules.run(events)),
    decreases events.len(),
{
    let rest = events.drop_last();
    assert(events.take(events.len() - 1) == rest);
    if rules.run(rest) is Verify {
        let j = lemma_verify_after_risk(rules, rest);
        assert(rest.take(j) == events.take(j));
        j
    } else {
        events.len() - 1
    }
}

/// The loop passes only where one attempt cleared the risk and then passed both the
/// impact and the drift check.
pub proof fn law_passing_takes_every_check(rules: LoopRules, events: Seq<EventView>) -> (r: (
    int,
    int,
))
    requires
        rules.run(events) == (StepView::Finished { result: GateView::Passed }),
    ensures
        0 <= r.0 < r.1 < events.len(),
        clears_risk(rules.run(events.take(r.0)), events[r.0]),
        rules.run(events.take(r.1)) is Verify,
        attempt_of(rules.run(events.take(r.0))) == attempt_of(rules.run(events.take(r.1))),
        events[r.1] == (EventView::Verified { impact: true, drift: true }),
    decreases events.len(),
{
    let rest = events.drop_last();
    assert(events.take(events.len() - 1) == rest);
    if rules.run(rest) is Finished {
        let (j, k) = law_passing_takes_every_check(rules, rest);
        assert(rest.take(j) == events.take(j));
        assert(rest.take(k) == events.take(k));
        (j, k)
    } else {
        let j = lemma_verify_after_risk(rules, rest);
        assert(rest.take(j) == events.take(j));
        (j, events.len() - 1)
    }
}

/// Where the healer was opted in to, the diff is read only after the healer ran in the same
/// attempt: what it changed is part of the diff whose risk is checked.
pub proof fn law_healing_precedes_the_diff(rules: LoopRules, events: Seq<EventView>) -> (j: int)
    requires
        rules.auto_heal,
        rules.run(events) is ReadDiff,
    ensures
        0 <= j < events.len(),
        rules.run(events.take(j)) is AutoHeal,
        events[j] is Healed,
        attempt_of(rules.run(events.take(j))) == attempt_of(rules.run(events)),
    decreases events.len(),
{
    let rest = events.drop_last();
    assert(events.take(events.len() - 1) == rest);
    if rules.run(rest) is ReadDiff {
        let j = law_healing_precedes_the_diff(rules, rest);
        assert(rest.take(j) == events.take(j));
        j
    } else {
        events.len() - 1
    }
}

/// A loop that ended stays as it ended.
pub proof fn law_result_is_final(rules: LoopRules, events: Seq<EventView>, event: EventView)
    requires
        rules.run(events) is Finished,
    ensures
        rules.run(events.push(event)) == rules.run(events),
{
    assert(events.push(event).drop_last() == events);
}

/// A step that was come to, and what the user is told on the way to it.
#[derive(Debug, PartialEq, Eq)]
pub struct FixMove {
    pub step: FixStep,
    pub notices: Vec<Notice>,
}

impl View for FixMove {
    type V = Move;

    open spec fn view(&self) -> Move {
        Move { step: self.step@, notices: self.notices@ }
    }
}

/// What the impact check and the drift check came to, and what of it is shown.
#[derive(Debug, Clone, Copy, PartialEq, Eq, Structural)]
pub struct VerifyReport {
    pub impact: bool,
    pub drift: bool,
    /// How many divergences spec-drift reported.
    pub divergences: usize,
    /// Whether the output of cargo-impact is shown.
    pub show_impact: bool,
    /// Whether the output of spec-drift is shown.
    pub show_drift: bool,
}

/// How many bytes of a diff go into the context at most.
pub const DIFF_LIMIT: usize = 4000;

/// From how many bytes on the output of spec-drift is not shown.
pub const DRIFT_LIMIT: usize = 2000;

/// A diff as it goes into the context: what is beyond the limit is cut off.
pub open spec fn shortened(diff: Seq<char>) -> Seq<char> {
    let bytes = encode_utf8(diff);
    if bytes.len() > DIFF_LIMIT {
        decode_utf8(bytes.take(DIFF_LIMIT as int)) + "...\n(truncated)"@
    } else {
        diff
    }
}

/// Whether no character of a diff stands astride the limit.
pub open spec fn cuts_cleanly(diff: Seq<char>) -> bool {
    let bytes = encode_utf8(diff);
    bytes.len() > DIFF_LIMIT ==> is_char_boundary(bytes, DIFF_LIMIT as int)
}

/// The part of the context that shows a diff: nothing where there is nothing in it.
pub open spec fn changes_section(diff: Option<Seq<char>>) -> Seq<char> {
    if is_unchanged(diff) {
        Seq::empty()
    } else {
        "## Recent Changes\n\n```diff\n"@ + shortened(diff->0) + "\n```\n\n"@
    }
}

/// The context where cargo-context gives none.
pub open spec fn minimal_context(diff: Option<Seq<char>>, prompt: Seq<char>) -> Seq<char> {
    "# Project Context\n\n"@ + changes_section(diff) + "## Instructions\n\n"@ + prompt
}

/// Whether a tool either could not run or succeeded.
pub open spec fn did_not_fail(output: Option<ToolOutput>) -> bool {
    output matches Some(o) ==> o.success
}

/// Whether the output of cargo-impact is shown: where it failed and printed something.
pub open spec fn shows_impact(output: Option<ToolOutput>) -> bool {
    output matches Some(o) && !o.success && text::trimmed(o.stdout@).len() > 0
}

/// Whether the output of spec-drift is shown: where it speaks of divergences and is short.
pub open spec fn shows_drift(output: Option<ToolOutput>) -> bool {
    output matches Some(o) && divergence_count(output) > 0 && text::trimmed(o.stdout@).len() > 0
        && encode_utf8(o.stdout@).len() < DRIFT_LIMIT
}

/// The context for the LLM: what cargo-context gave where it succeeded, else a minimal one.
pub open spec fn context_of(
    assembled: Option<ToolOutput>,
    diff: Option<Seq<char>>,
    prompt: Seq<char>,
) -> Seq<char> {
    match assembled {
        Some(o) => if o.success {
            o.stdout@
        } else {
            minimal_context(diff, prompt)
        },
        None => minimal_context(diff, prompt),
    }
}

/// The exit code for a result.
pub open spec fn code_of(result: GateView) -> u8 {
    match result {
        GateView::Passed => 0,
        _ => 1,
    }
}

/// What the user is told of a result.
pub open spec fn message_of(result: GateView) -> Seq<char> {
    match result {
        GateView::Passed => "cargo-vibe: fix loop completed successfully."@,
        GateView::Failed { reason } => "cargo-vibe: fix loop failed: "@ + reason,
        GateView::TimedOut { attempts } => "cargo-vibe: fix loop exhausted "@ + number::numeral(
            attempts as nat,
        ) + " attempts without success."@,
    }
}

/// How many divergences a report of spec-drift speaks of.
pub open spec fn divergence_count(output: Option<ToolOutput>) -> nat {
    match output {
        Some(o) => text::count_from(o.stdout@, "\"rule\""@, 0),
        None => 0,
    }
}

/// An attempt that passes the impact and the drift check ends the loop as passed, whatever its
/// number, and any other does not: it is followed by the next attempt, or by the end where
/// none is left.
pub proof fn law_every_attempt_can_pass(
    rules: LoopRules,
    attempt: usize,
    impact: bool,
    drift: bool,
)
    ensures
        ({
            let next = rules.next(
                StepView::Verify { attempt },
                EventView::Verified { impact, drift },
            ).step;
            &&& next == (StepView::Finished { result: GateView::Passed }) <==> impact && drift
            &&& !(impact && drift) && attempt < rules.max ==> next == (StepView::BuildContext {
                attempt: (attempt + 1) as usize,
            })
            &&& !(impact && drift) && attempt >= rules.max ==> next == (StepView::Finished {
                result: GateView::TimedOut { attempts: rules.max },
            })
        }),
{
}

/// A risk that passes leads to the other checks of the same attempt, whatever its number; one
/// that does not leads to the next attempt, or fails the loop where none is left.
pub proof fn law_every_attempt_is_scored(rules: LoopRules, attempt: usize)
    ensures
        rules.next(StepView::CheckRisk { attempt }, EventView::RiskChecked(true)).step == (
        StepView::Verify { attempt }),
        attempt < rules.max ==> rules.next(
            StepView::CheckRisk { attempt },
            EventView::RiskChecked(false),
        ).step == (StepView::BuildContext { attempt: (attempt + 1) as usize }),
        attempt >= rules.max ==> rules.next(
            StepView::CheckRisk { attempt },
            EventView::RiskChecked(false),
        ).step == (StepView::Finished {
            result: GateView::Failed { reason: "risk threshold exceeded after all attempts"@ },
        }),
{
}

/// A diff with anything but white space in it is scored; without one the same attempt goes on
/// to the other checks.
pub proof fn law_changes_are_scored(rules: LoopRules, attempt: usize, diff: Seq<char>)
    ensures
        ({
            let next = rules.next(
                StepView::ReadDiff { attempt },
                EventView::DiffRead(Some(diff)),
            ).step;
            let blank = forall|i: int| 0 <= i < diff.len() ==> text::is_white(#[trigger] diff[i]);
            &&& blank ==> next == (StepView::Verify { attempt })
            &&& !blank ==> next == (StepView::CheckRisk { attempt })
        }),
        rules.next(StepView::ReadDiff { attempt }, EventView::DiffRead(None)).step == (
        StepView::Verify { attempt }),
{
    lemma_blank(diff);
}

/// A text is blank if and only if it is white space only.
proof fn lemma_blank(s: Seq<char>)
    ensures
        text::trimmed(s).len() == 0 <==> forall|i: int|
            0 <= i < s.len() ==> text::is_white(#[trigger] s[i]),
{
    if forall|i: int| 0 <= i < s.len() ==> text::is_white(#[trigger] s[i]) {
        text::law_trimming_takes_white_space_only(s, Seq::empty(), Seq::empty());
        assert(s + Seq::empty() + Seq::<char>::empty() =~= s);
    } else {
        let (before, behind) = text::law_trimmed_is_the_middle(s);
        if text::trimmed(s).len() == 0 {
            assert(s =~= before + behind);
            assert forall|i: int| 0 <= i < s.len() implies text::is_white(#[trigger] s[i]) by {
                if i < before.len() {
                    assert(s[i] == before[i]);
                } else {
                    assert(s[i] == behind[i - before.len()]);
                }
            }
        }
    }
}

/// Only the letter q, with white space around it or not, ends the loop; after any other line
/// the attempt goes on, by way of the healer if and only if it was opted in to.
pub proof fn law_only_q_quits(
    rules: LoopRules,
    attempt: usize,
    before: Seq<char>,
    line: Seq<char>,
    behind: Seq<char>,
)
    requires
        forall|i: int| 0 <= i < before.len() ==> text::is_white(#[trigger] before[i]),
        forall|i: int| 0 <= i < behind.len() ==> text::is_white(#[trigger] behind[i]),
        line.len() > 0 ==> !text::is_white(line.first()) && !text::is_white(line.last()),
    ensures
        ({
            let move_on = rules.next(
                StepView::AwaitUser { attempt },
                EventView::UserInput(before + line + behind),
            );
            let next = move_on.step;
            &&& line == seq!['q'] || rules.auto_heal ==> move_on.notices.len() == 0
            &&& line != seq!['q'] && !rules.auto_heal ==> move_on.notices == seq![
                Notice::CheckingRisk,
            ]
            &&& line == seq!['q'] ==> next == (StepView::Finished {
                result: GateView::Failed { reason: "user quit"@ },
            })
            &&& line != seq!['q'] && rules.auto_heal ==> next == (StepView::AutoHeal { attempt })
            &&& line != seq!['q'] && !rules.auto_heal ==> next == (StepView::ReadDiff { attempt })
        }),
{
    reveal_strlit("q");
    assert("q"@ =~= seq!['q']);
    text::law_trimming_takes_white_space_only(before, line, behind);
}

/// The loop starts with its first attempt where there may be one, every context is shown to
/// the user, and whatever the healer did the diff is read next.
pub proof fn law_attempts_go_on(
    rules: LoopRules,
    attempt: usize,
    length: usize,
    applied: Option<usize>,
)
    ensures
        rules.max > 0 ==> rules.run(Seq::empty()) == (StepView::BuildContext { attempt: 1 }),
        rules.max == 0 ==> rules.run(Seq::empty()) == (StepView::Finished {
            result: GateView::TimedOut { attempts: 0 },
        }),
        rules.next(StepView::BuildContext { attempt }, EventView::ContextBuilt { length }).step
            == (StepView::AwaitUser { attempt }),
        rules.next(StepView::AutoHeal { attempt }, EventView::Healed(applied)).step == (
        StepView::ReadDiff { attempt }),
{
}

/// Before every attempt the user is told its number and the maximum, and how the one before
/// it failed: by the risk, or by the impact, the drift or both.
pub proof fn law_user_is_told_of_failures(
    rules: LoopRules,
    attempt: usize,
    impact: bool,
    drift: bool,
)
    ensures
        ({
            let told = rules.next(
                StepView::Verify { attempt },
                EventView::Verified { impact, drift },
            ).notices;
            let again = Notice::AttemptStarted {
                attempt: (attempt + 1) as usize,
                max: rules.max,
            };
            &&& told.contains(Notice::AllPassed) <==> impact && drift
            &&& impact && drift ==> told.len() == 1
            &&& told.contains(Notice::ImpactAffected) <==> !impact
            &&& told.contains(Notice::DriftStale) <==> !drift
            &&& told.contains(Notice::RetryWithFailures) <==> !(impact && drift) && attempt
                < rules.max
            &&& !(impact && drift) && attempt < rules.max ==> told.last() == again
        }),
        ({
            let told = rules.next(
                StepView::CheckRisk { attempt },
                EventView::RiskChecked(false),
            ).notices;
            &&& told.first() == Notice::RiskExceeded
            &&& attempt < rules.max ==> told == seq![
                Notice::RiskExceeded,
                Notice::RetryWithRisk,
                Notice::AttemptStarted { attempt: (attempt + 1) as usize, max: rules.max },
            ]
            &&& attempt >= rules.max ==> told == seq![Notice::RiskExceeded]
        }),
        rules.next(StepView::CheckRisk { attempt }, EventView::RiskChecked(true)).notices
            == seq![Notice::RiskPassed, Notice::Verifying],
        rules.max > 0 ==> rules.begin(1).notices == seq![
            Notice::AttemptStarted { attempt: 1, max: rules.max },
        ],
{
    let told = rules.next(
        StepView::Verify { attempt },
        EventView::Verified { impact, drift },
    ).notices;
    let again = Notice::AttemptStarted { attempt: (attempt + 1) as usize, max: rules.max };
    if impact && drift {
        assert(told =~= seq![Notice::AllPassed]);
        assert(told[0] == Notice::AllPassed);
    } else {
        let first: Seq<Notice> = if impact {
            Seq::empty()
        } else {
            seq![Notice::ImpactAffected]
        };
        let second: Seq<Notice> = if drift {
            Seq::empty()
        } else {
            seq![Notice::DriftStale]
        };
        let n = (first.len() + second.len()) as int;
        if attempt < rules.max {
            assert(told =~= first + second + seq![Notice::RetryWithFailures, again]);
            assert(told[n] == Notice::RetryWithFailures);
        } else {
            assert(told =~= first + second);
        }
        if !impact {
            assert(told[0] == Notice::ImpactAffected);
        }
        if !drift {
            assert(told[first.len() as int] == Notice::DriftStale);
        }
    }
    let risk = rules.next(StepView::CheckRisk { attempt }, EventView::RiskChecked(false)).notices;
    if attempt < rules.max {
        assert(risk =~= seq![
            Notice::RiskExceeded,
            Notice::RetryWithRisk,
            Notice::AttemptStarted { attempt: (attempt + 1) as usize, max: rules.max },
        ]);
    }
}

/// The user is told the length of the context, that the healer failed where it did, how many
/// fixes it made where it made any, and why the risk needed no check.
pub proof fn law_user_is_told_of_the_work(
    rules: LoopRules,
    attempt: usize,
    length: usize,
    count: usize,
    diff: Seq<char>,
)
    ensures
        rules.next(StepView::BuildContext { attempt }, EventView::ContextBuilt { length }).notices
            == seq![Notice::ContextReady { length }, Notice::PromptShown],
        ({
            let told = rules.next(
                StepView::AutoHeal { attempt },
                EventView::Healed(Some(count)),
            ).notices;
            &&& count > 0 ==> told == seq![Notice::CheckingRisk, Notice::FixesInDiff { count }]
            &&& count == 0 ==> told == seq![Notice::CheckingRisk]
        }),
        rules.next(StepView::AutoHeal { attempt }, EventView::Healed(None)).notices == seq![
            Notice::HealerFailed,
            Notice::CheckingRisk,
        ],
        rules.next(StepView::ReadDiff { attempt }, EventView::DiffRead(None)).notices == seq![
            Notice::NoDiff,
            Notice::RiskPassed,
            Notice::Verifying,
        ],
        ({
            let told = rules.next(
                StepView::ReadDiff { attempt },
                EventView::DiffRead(Some(diff)),
            ).notices;
            let blank = forall|i: int| 0 <= i < diff.len() ==> text::is_white(#[trigger] diff[i]);
            &&& blank ==> told == seq![Notice::NoChanges, Notice::RiskPassed, Notice::Verifying]
            &&& !blank ==> told.len() == 0
        }),
{
    lemma_blank(diff);
}

/// A diff of at most four thousand bytes goes into the context whole; of a longer one the
/// first four thousand bytes do, and a mark that it was cut off.
pub proof fn law_diffs_are_cut_at_four_thousand_bytes(diff: Seq<char>)
    ensures
        encode_utf8(diff).len() <= 4000 ==> shortened(diff) == diff && cuts_cleanly(diff),
        encode_utf8(diff).len() > 4000 ==> {
            let kept = decode_utf8(encode_utf8(diff).take(4000));
            &&& shortened(diff) == kept + "...\n(truncated)"@
            &&& cuts_cleanly(diff) ==> encode_utf8(kept) == encode_utf8(diff).take(4000)
            &&& cuts_cleanly(diff) <==> is_char_boundary(encode_utf8(diff), 4000)
        },
{
    let bytes = encode_utf8(diff);
    if bytes.len() > 4000 && cuts_cleanly(diff) {
        encode_utf8_valid_utf8(diff);
        valid_utf8_split(bytes, 4000);
        assert(bytes.subrange(0, 4000) =~= bytes.take(4000));
        decode_utf8_encode_utf8(bytes.take(4000));
    }
}

/// The context is what cargo-context gave where it succeeded. Else it has a title, a part for
/// the diff where anything but white space is in it, and the instructions, which end with
/// the whole prompt.
pub proof fn law_parts_of_the_context(
    assembled: ToolOutput,
    diff: Seq<char>,
    prompt: Seq<char>,
)
    ensures
        ({
            let title = "# Project Context\n\n"@;
            let instructions = "## Instructions\n\n"@ + prompt;
            let changes = "## Recent Changes\n\n```diff\n"@ + shortened(diff) + "\n```\n\n"@;
            let blank = forall|i: int| 0 <= i < diff.len() ==> text::is_white(#[trigger] diff[i]);
            &&& assembled.success ==> context_of(Some(assembled), Some(diff), prompt)
                == assembled.stdout@
            &&& assembled.success ==> context_of(Some(assembled), None, prompt)
                == assembled.stdout@
            &&& !assembled.success ==> context_of(Some(assembled), Some(diff), prompt)
                == context_of(None, Some(diff), prompt)
            &&& !assembled.success ==> context_of(Some(assembled), None, prompt) == context_of(
                None,
                None,
                prompt,
            )
            &&& context_of(None, None, prompt) == title + instructions
            &&& blank ==> context_of(None, Some(diff), prompt) == title + instructions
            &&& !blank ==> context_of(None, Some(diff), prompt) == title + changes + instructions
        }),
{
    let title = "# Project Context\n\n"@;
    let instructions = "## Instructions\n\n"@ + prompt;
    let changes = "## Recent Changes\n\n```diff\n"@ + shortened(diff) + "\n```\n\n"@;
    lemma_blank(diff);
    assert(minimal_context(None, prompt) =~= title + instructions);
    if is_unchanged(Some(diff)) {
        assert(minimal_context(Some(diff), prompt) =~= title + instructions);
    } else {
        assert(minimal_context(Some(diff), prompt) =~= title + changes + instructions);
    }
}

/// A check fails if and only if its tool ran without success; the divergences are counted
/// whether it did or not; a failed impact check is shown unless it printed nothing, and
/// divergences are shown unless they take two thousand bytes or more.
pub proof fn law_checks_go_by_success(output: ToolOutput)
    ensures
        did_not_fail(None),
        did_not_fail(Some(output)) == output.success,
        divergence_count(None) == 0,
        divergence_count(Some(output)) == text::count_from(output.stdout@, "\"rule\""@, 0),
        !shows_impact(None),
        !shows_drift(None),
        shows_impact(Some(output)) <==> !output.success && exists|i: int|
            0 <= i < output.stdout@.len() && !text::is_white(#[trigger] output.stdout@[i]),
        shows_drift(Some(output)) <==> divergence_count(Some(output)) > 0 && encode_utf8(
            output.stdout@,
        ).len() < 2000,
{
    lemma_blank(output.stdout@);
    if divergence_count(Some(output)) > 0 {
        lemma_rule_is_not_blank(output.stdout@);
    }
}

/// A text in which a divergence is named is not blank.
proof fn lemma_rule_is_not_blank(s: Seq<char>)
    requires
        text::count_from(s, "\"rule\""@, 0) > 0,
    ensures
        text::trimmed(s).len() > 0,
{
    reveal_strlit("\"rule\"");
    let pattern = "\"rule\""@;
    text::law_occurrences_are_counted(s, pattern);
    text::law_split_at_the_first(s, pattern);
    let (before, after) = text::split_first(s, pattern).unwrap();
    assert(pattern[1] == 'r');
    assert(s[before.len() as int + 1] == 'r');
    assert(!text::is_white('r'));
    lemma_blank(s);
}

/// Only a loop that passed has the exit code zero, and the message tells the reason of a
/// failure, or the number of attempts.
pub proof fn law_codes_and_messages(reason: Seq<char>, attempts: usize)
    ensures
        code_of(GateView::Passed) == 0,
        code_of(GateView::Failed { reason }) == 1,
        code_of(GateView::TimedOut { attempts }) == 1,
        message_of(GateView::Passed) == "cargo-vibe: fix loop completed successfully."@,
        message_of(GateView::Failed { reason }) == "cargo-vibe: fix loop failed: "@ + reason,
        message_of(GateView::TimedOut { attempts }) == "cargo-vibe: fix loop exhausted "@
            + number::numeral(attempts as nat) + " attempts without success."@,
{
}

/// The start of the attempt with the given number.
fn begin_attempt(attempt: usize, max: usize) -> (r: FixMove)
    requires
        attempt <= max,
    ensures
        r@ == (LoopRules { max, auto_heal: false }).begin(attempt as int),
{
    let mut notices: Vec<Notice> = Vec::new();
    notices.push(Notice::AttemptStarted { attempt, max });
    FixMove { step: FixStep::BuildContext { attempt }, notices }
}

impl FixLoop {
    /// What the loop goes by.
    pub open spec fn rules(&self) -> LoopRules {
        LoopRules { max: self.max_attempts, auto_heal: self.auto_heal }
    }

    /// A fix loop on the project at `root`.
    pub fn new(
        root: &str,
        prompt: &str,
        max_attempts: usize,
        risk_threshold: &str,
        since: &str,
        auto_heal: bool,
    ) -> (r: FixLoop)
        ensures
            r.root@ == root@,
            r.prompt@ == prompt@,
            r.max_attempts == max_attempts,
            r.risk_threshold@ == risk_threshold@,
            r.since@ == since@,
            r.auto_heal == auto_heal,
    {
        FixLoop {
            root: root.to_owned(),
            prompt: prompt.to_owned(),
            max_attempts,
            risk_threshold: risk_threshold.to_owned(),
            since: since.to_owned(),
            auto_heal,
        }
    }

    /// The first step.
    pub fn start(&self) -> (r: FixMove)
        ensures
            r@ == self.rules().begin(1),
    {
        if self.max_attempts >= 1 {
            begin_attempt(1, self.max_attempts)
        } else {
            self.time_out(Vec::new())
        }
    }

    /// The end of a loop that has no attempt left.
    fn time_out(&self, notices: Vec<Notice>) -> (r: FixMove)
        ensures
            r@ == (Move {
                step: StepView::Finished {
                    result: GateView::TimedOut { attempts: self.max_attempts },
                },
                notices: notices@,
            }),
    {
        FixMove {
            step: FixStep::Finished { result: GateResult::TimedOut { attempts: self.max_attempts } },
            notices,
        }
    }

    /// The start of the attempt behind the given one, or the end.
    fn retry(&self, attempt: usize, told: Vec<Notice>) -> (r: FixMove)
        ensures
            r@.step == self.rules().begin(attempt + 1).step,
            r@.notices == told@ + self.rules().begin(attempt + 1).notices,
    {
        let mut told = told;
        if attempt < self.max_attempts {
            let mut next = begin_attempt(attempt + 1, self.max_attempts);
            told.append(&mut next.notices);
            FixMove { step: next.step, notices: told }
        } else {
            self.time_out(told)
        }
    }

    /// Where the line that the user typed leads.
    fn after_input(&self, attempt: usize, line: &str) -> (r: FixMove)
        ensures
            r@ == self.rules().next(
                StepView::AwaitUser { attempt },
                EventView::UserInput(line@),
            ),
    {
        let mut notices: Vec<Notice> = Vec::new();
        if text::same(text::trim(line), "q") {
            FixMove {
                step: FixStep::Finished {
                    result: GateResult::Failed { reason: "user quit".to_owned() },
                },
                notices,
            }
        } else if self.auto_heal {
            FixMove { step: FixStep::AutoHeal { attempt }, notices }
        } else {
            notices.push(Notice::CheckingRisk);
            FixMove { step: FixStep::ReadDiff { attempt }, notices }
        }
    }

    /// Where it leads that the healer ran.
    fn after_healing(&self, attempt: usize, applied: Option<usize>) -> (r: FixMove)
        ensures
            r@ == self.rules().next(StepView::AutoHeal { attempt }, EventView::Healed(applied)),
    {
        let mut notices: Vec<Notice> = Vec::new();
        match applied {
            Some(count) => {
                notices.push(Notice::CheckingRisk);
                if count > 0 {
                    notices.push(Notice::FixesInDiff { count });
                }
            },
            None => {
                notices.push(Notice::HealerFailed);
                notices.push(Notice::CheckingRisk);
            },
        }
        FixMove { step: FixStep::ReadDiff { attempt }, notices }
    }

    /// Where it leads that the diff was read.
    fn after_diff(&self, attempt: usize, diff: &Option<String>) -> (r: FixMove)
        ensures
            r@ == self.rules().next(
                StepView::ReadDiff { attempt },
                EventView::DiffRead(text::opt_text(*diff)),
            ),
    {
        let mut notices: Vec<Notice> = Vec::new();
        match diff {
            Some(d) => {
                if !text::is_blank(d.as_str()) {
                    return FixMove { step: FixStep::CheckRisk { attempt }, notices };
                }
                notices.push(Notice::NoChanges);
            },
            None => {
                notices.push(Notice::NoDiff);
            },
        }
        notices.push(Notice::RiskPassed);
        notices.push(Notice::Verifying);
        FixMove { step: FixStep::Verify { attempt }, notices }
    }

    /// Where it leads that the risk was scored.
    fn after_risk(&self, attempt: usize, passed: bool) -> (r: FixMove)
        ensures
            r@ == self.rules().next(StepView::CheckRisk { attempt }, EventView::RiskChecked(passed)),
    {
        let mut notices: Vec<Notice> = Vec::new();
        if passed {
            notices.push(Notice::RiskPassed);
            notices.push(Notice::Verifying);
            return FixMove { step: FixStep::Verify { attempt }, notices };
        }
        notices.push(Notice::RiskExceeded);
        if attempt < self.max_attempts {
            notices.push(Notice::RetryWithRisk);
            self.retry(attempt, notices)
        } else {
            FixMove {
                step: FixStep::Finished {
                    result: GateResult::Failed {
                        reason: "risk threshold exceeded after all attempts".to_owned(),
                    },
                },
                notices,
            }
        }
    }

    /// Where it leads that impact and drift were checked.
    fn after_checks(&self, attempt: usize, impact: bool, drift: bool) -> (r: FixMove)
        ensures
            r@ == self.rules().next(
                StepView::Verify { attempt },
                EventView::Verified { impact, drift },
            ),
    {
        let mut notices: Vec<Notice> = Vec::new();
        if impact && drift {
            notices.push(Notice::AllPassed);
            return FixMove {
                step: FixStep::Finished { result: GateResult::Passed },
                notices,
            };
        }
        if !impact {
            notices.push(Notice::ImpactAffected);
        }
        if !drift {
            notices.push(Notice::DriftStale);
        }
        if attempt < self.max_attempts {
            notices.push(Notice::RetryWithFailures);
        }
        self.retry(attempt, notices)
    }

    /// Where `event` leads from `step`. One that does not answer the step leads nowhere.
    pub fn step(&self, step: FixStep, event: FixEvent) -> (r: FixMove)
        ensures
            r@ == self.rules().next(step@, event@),
    {
        match (step, event) {
            (FixStep::BuildContext { attempt }, FixEvent::ContextBuilt { length }) => {
                let mut notices: Vec<Notice> = Vec::new();
                notices.push(Notice::ContextReady { length });
                notices.push(Notice::PromptShown);
                FixMove { step: FixStep::AwaitUser { attempt }, notices }
            },
            (FixStep::AwaitUser { attempt }, FixEvent::UserInput(line)) => self.after_input(
                attempt,
                line.as_str(),
            ),
            (FixStep::AutoHeal { attempt }, FixEvent::Healed(applied)) => self.after_healing(
                attempt,
                applied,
            ),
            (FixStep::ReadDiff { attempt }, FixEvent::DiffRead(diff)) => self.after_diff(
                attempt,
                &diff,
            ),
            (FixStep::CheckRisk { attempt }, FixEvent::RiskChecked(passed)) => self.after_risk(
                attempt,
                passed,
            ),
            (
                FixStep::Verify { attempt },
                FixEvent::Verified { impact, drift },
            ) => self.after_checks(attempt, impact, drift),
            (step, _) => FixMove { step, notices: Vec::new() },
        }
    }

    /// The context for the LLM: what cargo-context gave where it succeeded, else a minimal
    /// one from the diff and the prompt. A diff that is cut off is cut between two
    /// characters.
    pub fn build_context(&self, assembled: Option<ToolOutput>, diff: Option<&str>) -> (r: String)
        requires
            assembled matches Some(o) && o.success || is_unchanged(text::opt_str(diff))
                || cuts_cleanly(diff->0@),
        ensures
            r@ == context_of(assembled, text::opt_str(diff), self.prompt@),
    {
        if let Some(output) = assembled {
            if output.success {
                return output.stdout;
            }
        }
        let mut r = "# Project Context\n\n".to_owned();
        if let Some(d) = diff {
            if !text::is_blank(d) {
                r.append("## Recent Changes\n\n```diff\n");
                if d.as_bytes().len() > DIFF_LIMIT {
                    let kept = d.split_at(DIFF_LIMIT).0;
                    proof {
                        encode_utf8_decode_utf8(kept@);
                        assert(encode_utf8(kept@) == encode_utf8(d@).take(DIFF_LIMIT as int));
                    }
                    r.append(kept);
                    r.append("...\n(truncated)");
                } else {
                    r.append(d);
                }
                r.append("\n```\n\n");
            }
        }
        r.append("## Instructions\n\n");
        r.append(self.prompt.as_str());
        assert(r@ =~= minimal_context(text::opt_str(diff), self.prompt@));
        r
    }

    /// Whether the risk is acceptable: where there was nothing to score, or where diff-risk
    /// succeeded.
    pub fn check_risk(&self, output: &Option<ToolOutput>) -> (r: bool)
        ensures
            r == did_not_fail(*output),
    {
        match output {
            Some(o) => o.success,
            None => true,
        }
    }

    /// What the impact check and the drift check came to. A tool that could not run is
    /// skipped.
    pub fn verify(&self, impact: &Option<ToolOutput>, drift: &Option<ToolOutput>) -> (r:
        VerifyReport)
        ensures
            r.impact == did_not_fail(*impact),
            r.drift == did_not_fail(*drift),
            r.divergences == divergence_count(*drift),
            r.show_impact == shows_impact(*impact),
            r.show_drift == shows_drift(*drift),
    {
        let (impact_ok, show_impact) = match impact {
            Some(o) => (o.success, !o.success && !text::is_blank(o.stdout.as_str())),
            None => (true, false),
        };
        proof {
            reveal_strlit("\"rule\"");
        }
        let (drift_ok, divergences, show_drift) = match drift {
            Some(o) => {
                let report = o.stdout.as_str();
                let count = text::count_matches(report, "\"rule\"");
                let shown = count > 0 && !text::is_blank(report) && report.as_bytes().len()
                    < DRIFT_LIMIT;
                (o.success, count, shown)
            },
            None => (true, 0, false),
        };
        VerifyReport { impact: impact_ok, drift: drift_ok, divergences, show_impact, show_drift }
    }

    /// The run that applies `suggestions` to the files at or below `root`. The suggestion at
    /// each index is for the file at the same index of `targets`. All suggestions for one
    /// file are in one group, by whatever paths they name it.
    pub fn apply_suggestions(
        &self,
        suggestions: &Vec<ClippySuggestion>,
        targets: &Vec<FilePath>,
        root: &FilePath,
    ) -> (r: ApplyRun)
        requires
            suggestions.len() == targets.len(),
        ensures
            r@ == apply::start_of(
                apply::path_views(targets@),
                suggestion::views(suggestions@),
                root@,
            ),
            r@.valid(),
            apply::groups_differ(r@.groups),
    {
        proof {
            let files = apply::path_views(targets@);
            let list = suggestion::views(suggestions@);
            apply::lemma_grouped_differ(files, list);
            apply::lemma_inside(apply::grouped(files, list), root@);
        }
        ApplyRun::new(apply::groups_inside(apply::group_by_file(suggestions, targets), root))
    }
}

/// Whether no character of a diff stands astride the limit of the context.
pub fn diff_cuts_cleanly(diff: &str) -> (r: bool)
    ensures
        r == cuts_cleanly(diff@),
{
    if diff.as_bytes().len() > DIFF_LIMIT {
        diff.is_char_boundary(DIFF_LIMIT)
    } else {
        true
    }
}

impl GateResult {
    /// The exit code of the fix loop: zero only where it passed.
    pub fn exit_code(&self) -> (r: u8)
        ensures
            r == code_of(self@),
    {
        match self {
            GateResult::Passed => 0,
            GateResult::Failed { .. } => 1,
            GateResult::TimedOut { .. } => 1,
        }
    }

    /// What the user is told at the end.
    pub fn message(&self) -> (r: String)
        ensures
            r@ == message_of(self@),
    {
        match self {
            GateResult::Passed => "cargo-vibe: fix loop completed successfully.".to_owned(),
            GateResult::Failed { reason } => {
                let mut r = "cargo-vibe: fix loop failed: ".to_owned();
                r.append(reason.as_str());
                r
            },
            GateResult::TimedOut { attempts } => {
                let mut r = "cargo-vibe: fix loop exhausted ".to_owned();
                r.append(number::number_text(*attempts).as_str());
                r.append(" attempts without success.");
                r
            },
        }
    }
}

} // verus!
