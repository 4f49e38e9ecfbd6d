//! The Clippy Auto-Healer: passes of linting and applying what the linter suggests, and
//! the summary of what they changed.

use vstd::prelude::*;
use vstd::string::*;

use crate::apply;
use crate::apply::AppliedFileFix;
use crate::number;
use crate::order;
use crate::path;
use crate::path::FilePath;
use crate::suggestion;
use crate::suggestion::ClippySuggestion;
use crate::text;

verus! {

/// Maximum number of clippy auto-heal passes per attempt.
pub const MAX_HEAL_ITERATIONS: usize = 5;

/// What was changed in one file.
#[derive(Debug, PartialEq, Eq)]
pub struct FileSummary {
    pub file: FilePath,
    pub fixes: usize,
    /// The lints that were fixed, in ascending order, each once.
    pub lints: Vec<String>,
}

/// What a summary says.
pub struct SummaryView {
    pub file: path::PathView,
    pub fixes: int,
    pub lints: Seq<Seq<char>>,
}

impl View for FileSummary {
    type V = SummaryView;

    open spec fn view(&self) -> SummaryView {
        SummaryView {
            file: self.file@,
            fixes: self.fixes as int,
            lints: text::texts(self.lints@),
        }
    }
}

/// What the summaries of `list` say.
pub open spec fn summary_views(list: Seq<FileSummary>) -> Seq<SummaryView> {
    list.map_values(|summary: FileSummary| summary@)
}

/// What has to be done next.
#[derive(Debug, PartialEq, Eq)]
pub enum HealStage {
    /// Run the linter.
    Lint,
    /// Apply these suggestions.
    Apply(Vec<ClippySuggestion>),
    /// Nothing: no further pass is wanted.
    Finished,
}

/// What was done.
#[derive(Debug, PartialEq, Eq)]
pub enum HealEvent {
    /// The linter had these suggestions.
    Found(Vec<ClippySuggestion>),
    /// These files were changed.
    Applied(Vec<AppliedFileFix>),
}

/// The passes so far.
#[derive(Debug, PartialEq, Eq)]
pub struct HealRun {
    /// The number of the current pass, from one on.
    pub iteration: usize,
    /// How many suggestions were applied in all passes.
    pub total: usize,
    /// What was changed, by file, in ascending order of the paths.
    pub per_file: Vec<FileSummary>,
    pub stage: HealStage,
}

/// What a stage says.
pub enum StageView {
    Lint,
    Apply(Seq<suggestion::SuggestionView>),
    Finished,
}

/// What an event says.
pub enum EventView {
    Found(Seq<suggestion::SuggestionView>),
    Applied(Seq<apply::FixView>),
}

/// What is said of the passes so far.
pub struct HealView {
    pub iteration: int,
    pub total: int,
    pub per_file: Seq<SummaryView>,
    pub stage: StageView,
}

impl View for HealStage {
    type V = StageView;

    open spec fn view(&self) -> StageView {
        match self {
            HealStage::Lint => StageView::Lint,
            HealStage::Apply(list) => StageView::Apply(suggestion::views(list@)),
            HealStage::Finished => StageView::Finished,
        }
    }
}

impl View for HealEvent {
    type V = EventView;

    open spec fn view(&self) -> EventView {
        match self {
            HealEvent::Found(list) => EventView::Found(suggestion::views(list@)),
            HealEvent::Applied(fixes) => EventView::Applied(apply::fix_views(fixes@)),
        }
    }
}

impl View for HealRun {
    type V = HealView;

    open spec fn view(&self) -> HealView {
        HealView {
            iteration: self.iteration as int,
            total: self.total as int,
            per_file: summary_views(self.per_file@),
            stage: self.stage@,
        }
    }
}

/// How many suggestions were applied to the files of `fixes`.
pub open spec fn applied_in(fixes: Seq<apply::FixView>) -> int
    decreases fixes.len(),
{
    if fixes.len() == 0 {
        0
    } else {
        applied_in(fixes.drop_last()) + fixes.last().applied
    }
}

/// How many fixes the summaries of `list` report.
pub open spec fn fixes_in(list: Seq<SummaryView>) -> int
    decreases list.len(),
{
    if list.len() == 0 {
        0
    } else {
        fixes_in(list.drop_last()) + list.last().fixes
    }
}

/// The summary of a file to which nothing but `fix` was done.
pub open spec fn first_summary(fix: apply::FixView) -> SummaryView {
    SummaryView {
        file: fix.file,
        fixes: fix.applied as int,
        lints: order::sorted(fix.lints.to_set()),
    }
}

/// A summary with `fix` added to it.
pub open spec fn next_summary(summary: SummaryView, fix: apply::FixView) -> SummaryView {
    SummaryView {
        file: summary.file,
        fixes: summary.fixes + fix.applied,
        lints: order::sorted(summary.lints.to_set().union(fix.lints.to_set())),
    }
}

/// Where in `list` the summary of a file stands, if there is one.
pub open spec fn summary_of(list: Seq<SummaryView>, file: path::PathView) -> Option<int>
    decreases list.len(),
{
    if list.len() == 0 {
        None
    } else if list.last().file.resolved == file.resolved {
        Some(list.len() - 1)
    } else {
        summary_of(list.drop_last(), file)
    }
}

/// Where in `list` the summary of a further file belongs: before those whose paths come
/// behind its own.
pub open spec fn place_of(list: Seq<SummaryView>, file: path::PathView) -> int
    decreases list.len(),
{
    if list.len() > 0 && path::parts_before(file.parts, list.last().file.parts) {
        place_of(list.drop_last(), file)
    } else {
        list.len() as int
    }
}

/// The summaries with `fix` added to them. A file that is named by a second path stays
/// under the first.
pub open spec fn merged(list: Seq<SummaryView>, fix: apply::FixView) -> Seq<SummaryView> {
    match summary_of(list, fix.file) {
        Some(i) => list.update(i, next_summary(list[i], fix)),
        None => list.insert(place_of(list, fix.file), first_summary(fix)),
    }
}

/// The summaries with all of `fixes` added to them.
pub open spec fn merged_all(list: Seq<SummaryView>, fixes: Seq<apply::FixView>) -> Seq<SummaryView>
    decreases fixes.len(),
{
    if fixes.len() == 0 {
        list
    } else {
        merged(merged_all(list, fixes.drop_last()), fixes.last())
    }
}

/// Whether the summaries stand in ascending order of their paths, no two about one file,
/// each with its lints in ascending order and no fewer than no fixes.
pub open spec fn tidy(list: Seq<SummaryView>) -> bool {
    &&& forall|i: int, j: int|
        0 <= i < j < list.len() ==> !path::parts_before(
            (#[trigger] list[j]).file.parts,
            (#[trigger] list[i]).file.parts,
        ) && list[i].file.resolved != list[j].file.resolved
    &&& forall|i: int|
        0 <= i < list.len() ==> order::ascending((#[trigger] list[i]).lints) && list[i].fixes >= 0
}

impl HealView {
    /// Whether the number of the pass is one that there may be, and the summaries report
    /// all that was applied.
    pub open spec fn valid(self) -> bool {
        &&& 1 <= self.iteration <= MAX_HEAL_ITERATIONS
        &&& tidy(self.per_file)
        &&& self.total == fixes_in(self.per_file)
    }

    /// Whether the count of what was applied can take up `event`.
    pub open spec fn fits(self, event: EventView) -> bool {
        match (self.stage, event) {
            (StageView::Apply(_), EventView::Applied(fixes)) => self.total + applied_in(fixes)
                <= usize::MAX,
            _ => true,
        }
    }

    /// The passes once `event` was dealt with. An event that does not answer the stage
    /// changes nothing.
    pub open spec fn after(self, event: EventView) -> HealView {
        match (self.stage, event) {
            (StageView::Lint, EventView::Found(list)) => HealView {
                stage: if list.len() == 0 {
                    StageView::Finished
                } else {
                    StageView::Apply(list)
                },
                ..self
            },
            (StageView::Apply(_), EventView::Applied(fixes)) => {
                let again = applied_in(fixes) > 0 && self.iteration < MAX_HEAL_ITERATIONS;
                HealView {
                    iteration: if again {
                        self.iteration + 1
                    } else {
                        self.iteration
                    },
                    total: self.total + applied_in(fixes),
                    per_file: merged_all(self.per_file, fixes),
                    stage: if again {
                        StageView::Lint
                    } else {
                        StageView::Finished
                    },
                }
            },
            _ => self,
        }
    }

    /// The passes once all of `events` were dealt with.
    pub open spec fn after_all(self, events: Seq<EventView>) -> HealView
        decreases events.len(),
    {
        if events.len() == 0 {
            self
        } else {
            self.after_all(events.drop_last()).after(events.last())
        }
    }

    /// Whether `event` answers the stage.
    pub open spec fn answered_by(self, event: EventView) -> bool {
        match self.stage {
            StageView::Lint => event is Found,
            StageView::Apply(_) => event is Applied,
            StageView::Finished => false,
        }
    }

    /// How many events can be dealt with at most until no further pass is wanted.
    pub open spec fn events_left(self) -> int {
        match self.stage {
            StageView::Lint => (MAX_HEAL_ITERATIONS - self.iteration) * 2 + 2,
            StageView::Apply(_) => (MAX_HEAL_ITERATIONS - self.iteration) * 2 + 1,
            StageView::Finished => 0,
        }
    }

    /// Whether `event` tells of a run of the linter that was asked for.
    pub open spec fn takes_lint(self, event: EventView) -> bool {
        self.stage is Lint && event is Found
    }
}

/// The first pass, before anything was done.
pub open spec fn heal_start() -> HealView {
    HealView { iteration: 1, total: 0, per_file: Seq::empty(), stage: StageView::Lint }
}

/// How often the linter ran while `events` were dealt with.
pub open spec fn lint_runs(start: HealView, events: Seq<EventView>) -> int
    decreases events.len(),
{
    if events.len() == 0 {
        0
    } else {
        lint_runs(start, events.drop_last()) + if start.after_all(events.drop_last()).takes_lint(
            events.last(),
        ) {
            1int
        } else {
            0int
        }
    }
}

/// What `summary_of` yields: the place of a summary of the file, unless there is none.
proof fn lemma_summary_of(list: Seq<SummaryView>, file: path::PathView)
    ensures
        match summary_of(list, file) {
            Some(i) => 0 <= i < list.len() && list[i].file.resolved == file.resolved,
            None => forall|k: int|
                0 <= k < list.len() ==> (#[trigger] list[k]).file.resolved != file.resolved,
        },
    decreases list.len(),
{
    if list.len() > 0 {
        let rest = list.drop_last();
        lemma_summary_of(rest, file);
        if summary_of(list, file) is None {
            assert forall|k: int| 0 <= k < list.len() implies (
            #[trigger] list[k]).file.resolved != file.resolved by {
                if k < rest.len() {
                    assert(rest[k] == list[k]);
                }
            }
        }
    }
}

/// What `place_of` yields: the file comes before none that stands before it, and before all
/// from it on.
proof fn lemma_place_of(list: Seq<SummaryView>, file: path::PathView)
    requires
        tidy(list),
    ensures
        0 <= place_of(list, file) <= list.len(),
        forall|k: int|
            0 <= k < place_of(list, file) ==> !path::parts_before(
                file.parts,
                (#[trigger] list[k]).file.parts,
            ),
        forall|k: int|
            place_of(list, file) <= k < list.len() ==> path::parts_before(
                file.parts,
                (#[trigger] list[k]).file.parts,
            ),
    decreases list.len(),
{
    if list.len() > 0 {
        let last = list[list.len() - 1];
        if path::parts_before(file.parts, last.file.parts) {
            lemma_tidy_without_last(list);
            lemma_place_of(list.drop_last(), file);
            assert forall|k: int| place_of(list, file) <= k < list.len() implies path::parts_before(
                file.parts,
                (#[trigger] list[k]).file.parts,
            ) by {
                if k < list.len() - 1 {
                    assert(list.drop_last()[k] == list[k]);
                }
            }
            assert forall|k: int| 0 <= k < place_of(list, file) implies !path::parts_before(
                file.parts,
                (#[trigger] list[k]).file.parts,
            ) by {
                assert(list.drop_last()[k] == list[k]);
            }
        } else {
            assert forall|k: int| 0 <= k < list.len() implies !path::parts_before(
                file.parts,
                (#[trigger] list[k]).file.parts,
            ) by {
                if k < list.len() - 1 && path::parts_before(file.parts, list[k].file.parts) {
                    assert(!path::parts_before(last.file.parts, list[k].file.parts));
                    if last.file.parts != list[k].file.parts {
                        path::lemma_parts_before_total(last.file.parts, list[k].file.parts);
                        path::lemma_parts_before_transitive(
                            file.parts,
                            list[k].file.parts,
                            last.file.parts,
                        );
                    }
                }
            }
        }
    }
}

/// Summaries without the last one are still tidy.
proof fn lemma_tidy_without_last(list: Seq<SummaryView>)
    requires
        tidy(list),
        list.len() > 0,
    ensures
        tidy(list.drop_last()),
{
    let rest = list.drop_last();
    assert forall|a: int, b: int| 0 <= a < b < rest.len() implies !path::parts_before(
        (#[trigger] rest[b]).file.parts,
        (#[trigger] rest[a]).file.parts,
    ) && rest[a].file.resolved != rest[b].file.resolved by {
        assert(rest[a] == list[a] && rest[b] == list[b]);
    }
    assert forall|k: int| 0 <= k < rest.len() implies order::ascending((#[trigger] rest[k]).lints)
        && rest[k].fixes >= 0 by {
        assert(rest[k] == list[k]);
    }
}

/// What is reported once one summary was exchanged.
proof fn lemma_fixes_after_update(list: Seq<SummaryView>, i: int, x: SummaryView)
    requires
        0 <= i < list.len(),
    ensures
        fixes_in(list.update(i, x)) == fixes_in(list) - list[i].fixes + x.fixes,
    decreases list.len(),
{
    if i == list.len() - 1 {
        assert(list.update(i, x).drop_last() == list.drop_last());
    } else {
        lemma_fixes_after_update(list.drop_last(), i, x);
        assert(list.update(i, x).drop_last() == list.drop_last().update(i, x));
    }
}

/// What is reported once one summary was put in.
proof fn lemma_fixes_after_insert(list: Seq<SummaryView>, i: int, x: SummaryView)
    requires
        0 <= i <= list.len(),
    ensures
        fixes_in(list.insert(i, x)) == fixes_in(list) + x.fixes,
    decreases list.len(),
{
    if i == list.len() {
        assert(list.insert(i, x).drop_last() == list);
    } else {
        lemma_fixes_after_insert(list.drop_last(), i, x);
        assert(list.insert(i, x).drop_last() == list.drop_last().insert(i, x));
    }
}

/// A summary for the same file keeps the summaries tidy.
proof fn lemma_tidy_after_update(list: Seq<SummaryView>, i: int, x: SummaryView)
    requires
        tidy(list),
        0 <= i < list.len(),
        x.file == list[i].file,
        order::ascending(x.lints),
        x.fixes >= 0,
    ensures
        tidy(list.update(i, x)),
{
    let now = list.update(i, x);
    assert forall|a: int, b: int| 0 <= a < b < now.len() implies !path::parts_before(
        (#[trigger] now[b]).file.parts,
        (#[trigger] now[a]).file.parts,
    ) && now[a].file.resolved != now[b].file.resolved by {
        assert(now[a].file == list[a].file && now[b].file == list[b].file);
    }
}

/// A summary for a further file, at its place, keeps the summaries tidy.
proof fn lemma_tidy_after_insert(list: Seq<SummaryView>, i: int, x: SummaryView)
    requires
        tidy(list),
        i == place_of(list, x.file),
        forall|k: int|
            0 <= k < list.len() ==> (#[trigger] list[k]).file.resolved != x.file.resolved,
        order::ascending(x.lints),
        x.fixes >= 0,
    ensures
        tidy(list.insert(i, x)),
{
    lemma_place_of(list, x.file);
    let now = list.insert(i, x);
    assert forall|k: int| i <= k < list.len() implies !path::parts_before(
        (#[trigger] list[k]).file.parts,
        x.file.parts,
    ) by {
        if path::parts_before(list[k].file.parts, x.file.parts) {
            path::lemma_parts_before_transitive(
                x.file.parts,
                list[k].file.parts,
                x.file.parts,
            );
            path::lemma_parts_before_irreflexive(x.file.parts);
        }
    }
    assert forall|a: int, b: int| 0 <= a < b < now.len() implies !path::parts_before(
        (#[trigger] now[b]).file.parts,
        (#[trigger] now[a]).file.parts,
    ) && now[a].file.resolved != now[b].file.resolved by {
        let y = if a < i { list[a] } else if a == i { x } else { list[a - 1] };
        let z = if b < i { list[b] } else if b == i { x } else { list[b - 1] };
        assert(now[a] == y && now[b] == z);
    }
    assert forall|k: int| 0 <= k < now.len() implies order::ascending((#[trigger] now[k]).lints)
        && now[k].fixes >= 0 by {
        let y = if k < i { list[k] } else if k == i { x } else { list[k - 1] };
        assert(now[k] == y);
    }
}

/// One more fix keeps the summaries tidy and is counted in them.
proof fn lemma_merged(list: Seq<SummaryView>, fix: apply::FixView)
    requires
        tidy(list),
    ensures
        tidy(merged(list, fix)),
        fixes_in(merged(list, fix)) == fixes_in(list) + fix.applied,
{
    lemma_summary_of(list, fix.file);
    match summary_of(list, fix.file) {
        Some(i) => {
            let entry = next_summary(list[i], fix);
            lemma_sorted_union(list[i].lints, fix.lints);
            lemma_fixes_after_update(list, i, entry);
            lemma_tidy_after_update(list, i, entry);
        },
        None => {
            let i = place_of(list, fix.file);
            let none = Seq::<Seq<char>>::empty();
            lemma_place_of(list, fix.file);
            lemma_sorted_union(none, fix.lints);
            assert(none.to_set().union(fix.lints.to_set()) =~= fix.lints.to_set());
            lemma_fixes_after_insert(list, i, first_summary(fix));
            lemma_tidy_after_insert(list, i, first_summary(fix));
        },
    }
}

/// There is a list in ascending order for what two lists hold.
proof fn lemma_sorted_union(a: Seq<Seq<char>>, b: Seq<Seq<char>>)
    requires
        order::ascending(a),
    ensures
        order::ascending(order::sorted(a.to_set().union(b.to_set()))),
        order::sorted(a.to_set().union(b.to_set())).to_set() == a.to_set().union(b.to_set()),
    decreases b.len(),
{
    if b.len() == 0 {
        assert(a.to_set().union(b.to_set()) =~= a.to_set());
        order::lemma_sorted(a);
    } else {
        lemma_sorted_union(a, b.drop_last());
        let rest = order::sorted(a.to_set().union(b.drop_last().to_set()));
        let list = order::lemma_insertion_exists(rest, b.last());
        assert(b == b.drop_last().push(b.last()));
        assert(b.to_set() =~= b.drop_last().to_set().insert(b.last())) by {
            assert forall|t: Seq<char>| b.contains(t) == (b.drop_last().contains(t) || t == b.last()) by {
                if b.contains(t) {
                    let k = choose|k: int| 0 <= k < b.len() && b[k] == t;
                    if k < b.len() - 1 {
                        assert(b.drop_last()[k] == t);
                    }
                }
                if b.drop_last().contains(t) {
                    let k = choose|k: int| 0 <= k < b.len() - 1 && b.drop_last()[k] == t;
                    assert(b[k] == t);
                }
                assert(b[b.len() - 1] == b.last());
            }
        }
        assert(list.to_set() =~= a.to_set().union(b.to_set()));
        order::lemma_sorted(list);
    }
}

/// Several fixes keep the summaries tidy and are counted in them.
proof fn lemma_merged_all(list: Seq<SummaryView>, fixes: Seq<apply::FixView>)
    requires
        tidy(list),
    ensures
        tidy(merged_all(list, fixes)),
        fixes_in(merged_all(list, fixes)) == fixes_in(list) + applied_in(fixes),
        applied_in(fixes) >= 0,
    decreases fixes.len(),
{
    if fixes.len() > 0 {
        lemma_merged_all(list, fixes.drop_last());
        lemma_merged(merged_all(list, fixes.drop_last()), fixes.last());
    }
}

/// Fewer fixes are no more.
proof fn lemma_applied_in_grows(fixes: Seq<apply::FixView>, k: int)
    requires
        0 <= k <= fixes.len(),
    ensures
        0 <= applied_in(fixes.take(k)) <= applied_in(fixes),
    decreases fixes.len() - k,
{
    lemma_applied_in_is_a_count(fixes.take(k));
    if k == fixes.len() {
        assert(fixes.take(k) == fixes);
    } else {
        lemma_applied_in_grows(fixes, k + 1);
        assert(fixes.take(k + 1).drop_last() == fixes.take(k));
    }
}

/// No fewer than no fixes are applied.
proof fn lemma_applied_in_is_a_count(fixes: Seq<apply::FixView>)
    ensures
        applied_in(fixes) >= 0,
    decreases fixes.len(),
{
    if fixes.len() > 0 {
        lemma_applied_in_is_a_count(fixes.drop_last());
    }
}

/// No summary reports more than all of them.
proof fn lemma_one_of_all(list: Seq<SummaryView>, i: int)
    requires
        tidy(list),
        0 <= i < list.len(),
    ensures
        0 <= list[i].fixes <= fixes_in(list),
    decreases list.len(),
{
    let rest = list.drop_last();
    assert(list[i].fixes >= 0 && list[list.len() - 1].fixes >= 0);
    lemma_tidy_without_last(list);
    assert(fixes_in(list) == fixes_in(rest) + list.last().fixes);
    if i < rest.len() {
        lemma_one_of_all(rest, i);
    } else if rest.len() > 0 {
        lemma_one_of_all(rest, 0);
    }
}

/// Dealing with an event keeps the passes valid.
pub proof fn lemma_after_keeps_valid(run: HealView, event: EventView)
    requires
        run.valid(),
    ensures
        run.after(event).valid(),
{
    if let EventView::Applied(fixes) = event {
        lemma_merged_all(run.per_file, fixes);
    }
}

/// Whatever happens, the summary reports every suggestion that was applied, file by file,
/// each file once.
pub proof fn law_summary_reports_all_fixes(events: Seq<EventView>)
    ensures
        ({
            let run = heal_start().after_all(events);
            &&& run.total == fixes_in(run.per_file)
            &&& tidy(run.per_file)
            &&& run.valid()
        }),
    decreases events.len(),
{
    if events.len() > 0 {
        law_summary_reports_all_fixes(events.drop_last());
        lemma_after_keeps_valid(heal_start().after_all(events.drop_last()), events.last());
    }
}

/// The linter runs once for each pass, and there are no more passes than the maximum.
pub proof fn law_passes_are_bounded(events: Seq<EventView>)
    ensures
        lint_runs(heal_start(), events) <= MAX_HEAL_ITERATIONS,
        ({
            let run = heal_start().after_all(events);
            lint_runs(heal_start(), events) == if run.stage is Lint {
                run.iteration - 1
            } else {
                run.iteration
            }
        }),
    decreases events.len(),
{
    law_summary_reports_all_fixes(events);
    if events.len() > 0 {
        law_passes_are_bounded(events.drop_last());
    }
}

/// Every event that answers the stage brings the passes nearer to their end, and any other
/// changes nothing.
pub proof fn law_heal_run_ends(run: HealView, event: EventView)
    requires
        run.valid(),
    ensures
        0 <= run.after(event).events_left(),
        run.answered_by(event) ==> run.after(event).events_left() < run.events_left(),
        !run.answered_by(event) ==> run.after(event) == run,
{
}

/// Suggestions are applied wherever there are any; another pass follows if and only if a pass
/// applied something and there may be one more; the total grows by all that was applied.
pub proof fn law_passes_go_on_while_they_help(
    run: HealView,
    list: Seq<suggestion::SuggestionView>,
    before: Seq<suggestion::SuggestionView>,
    fixes: Seq<apply::FixView>,
)
    ensures
        run.stage is Lint && list.len() > 0 ==> run.after(EventView::Found(list)) == (HealView {
            stage: StageView::Apply(list),
            ..run
        }),
        run.stage is Lint && list.len() == 0 ==> run.after(EventView::Found(list)) == (HealView {
            stage: StageView::Finished,
            ..run
        }),
        run.stage == StageView::Apply(before) ==> {
            let next = run.after(EventView::Applied(fixes));
            let again = (exists|i: int| 0 <= i < fixes.len() && (#[trigger] fixes[i]).applied > 0)
                && run.iteration < 5;
            &&& next.total == run.total + applied_in(fixes)
            &&& again ==> next.stage is Lint && next.iteration == run.iteration + 1
            &&& !again ==> next.stage is Finished && next.iteration == run.iteration
        },
{
    lemma_applied_in_counts(fixes);
}

/// Something was applied if and only if it was to one of the files.
proof fn lemma_applied_in_counts(fixes: Seq<apply::FixView>)
    ensures
        applied_in(fixes) >= 0,
        applied_in(fixes) > 0 <==> exists|i: int|
            0 <= i < fixes.len() && (#[trigger] fixes[i]).applied > 0,
    decreases fixes.len(),
{
    if fixes.len() > 0 {
        let rest = fixes.drop_last();
        lemma_applied_in_counts(rest);
        assert(fixes[fixes.len() - 1] == fixes.last());
        if exists|i: int| 0 <= i < rest.len() && (#[trigger] rest[i]).applied > 0 {
            let i = choose|i: int| 0 <= i < rest.len() && (#[trigger] rest[i]).applied > 0;
            assert(fixes[i].applied > 0);
        }
        if exists|i: int| 0 <= i < fixes.len() && (#[trigger] fixes[i]).applied > 0 {
            let i = choose|i: int| 0 <= i < fixes.len() && (#[trigger] fixes[i]).applied > 0;
            if i < rest.len() {
                assert(rest[i].applied > 0);
            }
        }
    }
}

/// How many fixes the summaries report for the file that resolves to `key`.
pub open spec fn fixes_for(list: Seq<SummaryView>, key: Seq<path::PartView>) -> int
    decreases list.len(),
{
    if list.len() == 0 {
        0
    } else {
        fixes_for(list.drop_last(), key) + if list.last().file.resolved == key {
            list.last().fixes
        } else {
            0
        }
    }
}

/// Whether the summaries report the lint `name` for the file that resolves to `key`.
pub open spec fn reports_lint(
    list: Seq<SummaryView>,
    key: Seq<path::PartView>,
    name: Seq<char>,
) -> bool {
    exists|i: int|
        0 <= i < list.len() && (#[trigger] list[i]).file.resolved == key && list[i].lints.contains(
            name,
        )
}

/// What the summaries report for one file once one of them was exchanged.
proof fn lemma_fixes_for_after_update(
    list: Seq<SummaryView>,
    i: int,
    x: SummaryView,
    key: Seq<path::PartView>,
)
    requires
        0 <= i < list.len(),
        x.file == list[i].file,
    ensures
        fixes_for(list.update(i, x), key) == fixes_for(list, key) + if x.file.resolved == key {
            x.fixes - list[i].fixes
        } else {
            0
        },
    decreases list.len(),
{
    if i == list.len() - 1 {
        assert(list.update(i, x).drop_last() =~= list.drop_last());
    } else {
        lemma_fixes_for_after_update(list.drop_last(), i, x, key);
        assert(list.update(i, x).drop_last() =~= list.drop_last().update(i, x));
    }
}

/// What the summaries report for one file once one was put in.
proof fn lemma_fixes_for_after_insert(
    list: Seq<SummaryView>,
    i: int,
    x: SummaryView,
    key: Seq<path::PartView>,
)
    requires
        0 <= i <= list.len(),
    ensures
        fixes_for(list.insert(i, x), key) == fixes_for(list, key) + if x.file.resolved == key {
            x.fixes
        } else {
            0
        },
    decreases list.len(),
{
    if i == list.len() {
        assert(list.insert(i, x).drop_last() =~= list);
    } else {
        lemma_fixes_for_after_insert(list.drop_last(), i, x, key);
        assert(list.insert(i, x).drop_last() =~= list.drop_last().insert(i, x));
    }
}

/// One more fix is counted for its own file and for no other, adds its lints to those of its
/// file and to no other, and adds a summary if and only if the file had none: under the path
/// that names it, which then stays.
pub proof fn law_fixes_count_for_their_own_file(
    list: Seq<SummaryView>,
    fix: apply::FixView,
    key: Seq<path::PartView>,
    name: Seq<char>,
)
    requires
        tidy(list),
    ensures
        ({
            let now = merged(list, fix);
            let known = exists|i: int|
                0 <= i < list.len() && (#[trigger] list[i]).file.resolved == fix.file.resolved;
            &&& tidy(now)
            &&& fixes_for(now, key) == fixes_for(list, key) + if fix.file.resolved == key {
                fix.applied as int
            } else {
                0
            }
            &&& reports_lint(now, key, name) <==> reports_lint(list, key, name) || (
            fix.file.resolved == key && fix.lints.contains(name))
            &&& known ==> now.len() == list.len() && forall|i: int|
                0 <= i < list.len() ==> (#[trigger] now[i]).file == list[i].file
            &&& !known ==> now.len() == list.len() + 1 && exists|i: int|
                0 <= i < now.len() && (#[trigger] now[i]).file == fix.file && now.remove(i) == list
        }),
{
    let now = merged(list, fix);
    lemma_merged(list, fix);
    lemma_summary_of(list, fix.file);
    match summary_of(list, fix.file) {
        Some(i) => {
            let entry = next_summary(list[i], fix);
            lemma_sorted_union(list[i].lints, fix.lints);
            lemma_fixes_for_after_update(list, i, entry, key);
            lemma_lints_of_union(list[i].lints, fix.lints, name);
            if reports_lint(list, key, name) {
                let k = choose|k: int|
                    0 <= k < list.len() && (#[trigger] list[k]).file.resolved == key
                        && list[k].lints.contains(name);
                assert(now[k].file.resolved == key);
                assert(now[k].lints.contains(name));
            }
            if fix.file.resolved == key && fix.lints.contains(name) {
                assert(now[i].file.resolved == key);
            }
            if reports_lint(now, key, name) {
                let k = choose|k: int|
                    0 <= k < now.len() && (#[trigger] now[k]).file.resolved == key
                        && now[k].lints.contains(name);
                assert(list[k].file.resolved == key);
            }
        },
        None => {
            let i = place_of(list, fix.file);
            let none = Seq::<Seq<char>>::empty();
            let entry = first_summary(fix);
            lemma_place_of(list, fix.file);
            lemma_sorted_union(none, fix.lints);
            assert(none.to_set().union(fix.lints.to_set()) =~= fix.lints.to_set());
            lemma_lints_of_union(none, fix.lints, name);
            lemma_fixes_for_after_insert(list, i, entry, key);
            assert(now[i].file == fix.file);
            assert(now.remove(i) =~= list);
            if reports_lint(list, key, name) {
                let k = choose|k: int|
                    0 <= k < list.len() && (#[trigger] list[k]).file.resolved == key
                        && list[k].lints.contains(name);
                let n = if k < i {
                    k
                } else {
                    k + 1
                };
                assert(now[n] == list[k]);
            }
            if fix.file.resolved == key && fix.lints.contains(name) {
                assert(now[i] == entry);
            }
            if reports_lint(now, key, name) {
                let n = choose|n: int|
                    0 <= n < now.len() && (#[trigger] now[n]).file.resolved == key
                        && now[n].lints.contains(name);
                if n < i {
                    assert(list[n] == now[n]);
                } else if n > i {
                    assert(list[n - 1] == now[n]);
                }
            }
        },
    }
}

/// A sorted union holds what either list holds.
proof fn lemma_lints_of_union(a: Seq<Seq<char>>, b: Seq<Seq<char>>, name: Seq<char>)
    requires
        order::ascending(a),
    ensures
        order::sorted(a.to_set().union(b.to_set())).contains(name) <==> a.contains(name)
            || b.contains(name),
{
    let both = a.to_set().union(b.to_set());
    lemma_sorted_union(a, b);
    assert(order::sorted(both).contains(name) == order::sorted(both).to_set().contains(name));
    assert(a.to_set().contains(name) == a.contains(name));
    assert(b.to_set().contains(name) == b.contains(name));
}

/// All fixes of a pass are added, one after the other.
pub proof fn law_fixes_are_added_one_by_one(
    list: Seq<SummaryView>,
    fixes: Seq<apply::FixView>,
    fix: apply::FixView,
)
    ensures
        merged_all(list, Seq::empty()) == list,
        merged_all(list, fixes.push(fix)) == merged(merged_all(list, fixes), fix),
        applied_in(Seq::empty()) == 0,
        applied_in(fixes.push(fix)) == applied_in(fixes) + fix.applied,
{
    assert(fixes.push(fix).drop_last() =~= fixes);
}

/// Adds `lints` to a list in ascending order.
fn insert_all(list: &mut Vec<String>, lints: Vec<String>)
    requires
        order::ascending(text::texts(old(list)@)),
    ensures
        text::texts(final(list)@) == order::sorted(
            text::texts(old(list)@).to_set().union(text::texts(lints@).to_set()),
        ),
        order::ascending(text::texts(final(list)@)),
{
    let ghost before = text::texts(list@).to_set();
    let ghost all = text::texts(lints@);
    assert(before.union(all.take(0).to_set()) =~= before);
    for i in 0..lints.len()
        invariant
            all == text::texts(lints@),
            order::ascending(text::texts(list@)),
            text::texts(list@).to_set() == before.union(all.take(i as int).to_set()),
    {
        assert(all[i as int] == lints@[i as int]@);
        proof {
            let shorter = all.take(i as int);
            let longer = all.take(i + 1);
            assert forall|t: Seq<char>| longer.contains(t) == (shorter.contains(t) || t == all[i as int]) by {
                if longer.contains(t) {
                    let k = choose|k: int| 0 <= k < longer.len() && longer[k] == t;
                    if k < i {
                        assert(shorter[k] == t);
                    }
                }
                if shorter.contains(t) {
                    let k = choose|k: int| 0 <= k < shorter.len() && shorter[k] == t;
                    assert(longer[k] == t);
                }
                assert(longer[i as int] == all[i as int]);
            }
            assert(before.union(shorter.to_set()).insert(all[i as int]) =~= before.union(
                longer.to_set(),
            ));
        }
        order::insert_text(list, lints[i].clone());
    }
    assert(all.take(lints.len() as int) == all);
    proof {
        order::lemma_sorted(text::texts(list@));
    }
}

/// Where in `list` the summary of a file stands, if there is one.
fn find_summary(list: &Vec<FileSummary>, file: &FilePath) -> (r: Option<usize>)
    ensures
        match r {
            Some(i) => summary_of(summary_views(list@), file@) == Some(i as int),
            None => summary_of(summary_views(list@), file@) is None,
        },
{
    let ghost all = summary_views(list@);
    let mut i: usize = list.len();
    assert(all.take(i as int) == all);
    while i > 0
        invariant
            all == summary_views(list@),
            i <= list.len(),
            summary_of(all, file@) == summary_of(all.take(i as int), file@),
        decreases i,
    {
        let ghost head = all.take(i as int);
        assert(head.last() == list@[i - 1]@);
        assert(head.drop_last() == all.take(i - 1));
        i = i - 1;
        if list[i].file.same(file) {
            return Some(i);
        }
    }
    None
}

/// Where in `list` the summary of a further file belongs.
fn find_place(list: &Vec<FileSummary>, file: &FilePath) -> (r: usize)
    ensures
        r <= list.len(),
        r == place_of(summary_views(list@), file@),
{
    let ghost all = summary_views(list@);
    let mut i: usize = list.len();
    assert(all.take(i as int) == all);
    while i > 0 && file.before(&list[i - 1].file)
        invariant
            all == summary_views(list@),
            i <= list.len(),
            place_of(all, file@) == place_of(all.take(i as int), file@),
        decreases i,
    {
        let ghost head = all.take(i as int);
        assert(head.last() == list@[i - 1]@);
        assert(head.drop_last() == all.take(i - 1));
        i = i - 1;
    }
    if i > 0 {
        assert(all.take(i as int).last() == list@[i - 1]@);
    }
    i
}

/// Adds `fix` to the summaries.
fn merge(list: &mut Vec<FileSummary>, fix: AppliedFileFix)
    requires
        tidy(summary_views(old(list)@)),
        fixes_in(summary_views(old(list)@)) + fix.applied <= usize::MAX,
    ensures
        summary_views(final(list)@) == merged(summary_views(old(list)@), fix@),
{
    let ghost before = summary_views(list@);
    let ghost added = fix@;
    proof {
        lemma_summary_of(before, added.file);
    }
    match find_summary(list, &fix.file) {
        Some(i) => {
            proof {
                assert(before[i as int] == list@[i as int]@);
                lemma_one_of_all(before, i as int);
            }
            let mut entry = list.remove(i);
            let ghost summary = entry@;
            assert(summary == before[i as int]);
            entry.fixes = entry.fixes + fix.applied;
            insert_all(&mut entry.lints, fix.lints);
            assert(entry@ == next_summary(summary, added));
            list.insert(i, entry);
            assert(summary_views(list@) =~= merged(before, added));
        },
        None => {
            let i = find_place(list, &fix.file);
            let mut lints: Vec<String> = Vec::new();
            assert(text::texts(lints@).to_set().union(added.lints.to_set())
                =~= added.lints.to_set());
            insert_all(&mut lints, fix.lints);
            let entry = FileSummary { file: fix.file, fixes: fix.applied, lints };
            assert(entry@ == first_summary(added));
            list.insert(i, entry);
            assert(summary_views(list@) =~= merged(before, added));
        },
    }
}

impl HealRun {
    /// The first pass, before anything was done.
    pub fn new() -> (r: HealRun)
        ensures
            r@ == heal_start(),
            r@.valid(),
    {
        let r = HealRun {
            iteration: 1,
            total: 0,
            per_file: Vec::new(),
            stage: HealStage::Lint,
        };
        assert(r@.per_file =~= Seq::empty());
        r
    }

    /// Whether the count of what was applied can take up `event`.
    pub fn fits(&self, event: &HealEvent) -> (r: bool)
        ensures
            r == self@.fits(event@),
    {
        match (&self.stage, event) {
            (HealStage::Apply(_), HealEvent::Applied(fixes)) => {
                let ghost all = apply::fix_views(fixes@);
                let mut sum: usize = self.total;
                for i in 0..fixes.len()
                    invariant
                        all == apply::fix_views(fixes@),
                        self@.fits(event@) == (self.total + applied_in(all) <= usize::MAX),
                        sum == self.total + applied_in(all.take(i as int)),
                {
                    assert(all.take(i + 1).drop_last() == all.take(i as int));
                    assert(all.take(i + 1).last() == fixes@[i as int]@);
                    proof {
                        lemma_applied_in_grows(all, i + 1);
                    }
                    match sum.checked_add(fixes[i].applied) {
                        Some(more) => {
                            sum = more;
                        },
                        None => return false,
                    }
                }
                assert(all.take(fixes.len() as int) == all);
                true
            },
            _ => true,
        }
    }

    /// Deals with `event`. One that does not answer the stage changes nothing.
    pub fn step(&mut self, event: HealEvent)
        requires
            old(self)@.valid(),
            old(self)@.fits(event@),
        ensures
            final(self)@ == old(self)@.after(event@),
            final(self)@.valid(),
    {
        let ghost before = self@;
        let ghost said = event@;
        proof {
            lemma_after_keeps_valid(before, said);
        }
        let mut stage = HealStage::Finished;
        core::mem::swap(&mut stage, &mut self.stage);
        match (stage, event) {
            (HealStage::Lint, HealEvent::Found(list)) => {
                if list.len() > 0 {
                    self.stage = HealStage::Apply(list);
                }
            },
            (HealStage::Apply(_), HealEvent::Applied(fixes)) => {
                let mut fixes = fixes;
                let ghost all = apply::fix_views(fixes@);
                let mut applied: usize = 0;
                let mut done: usize = 0;
                let count: usize = fixes.len();
                assert(all.skip(0) == all);
                while fixes.len() > 0
                    invariant
                        done + fixes.len() == count,
                        count == all.len(),
                        apply::fix_views(fixes@) == all.skip(done as int),
                        tidy(before.per_file),
                        before.total == fixes_in(before.per_file),
                        before.total + applied_in(all) <= usize::MAX,
                        applied == applied_in(all.take(done as int)),
                        summary_views(self.per_file@) == merged_all(
                            before.per_file,
                            all.take(done as int),
                        ),
                        self.iteration == before.iteration,
                        self.total == before.total,
                        self.stage is Finished,
                    decreases fixes.len(),
                {
                    let ghost rest = apply::fix_views(fixes@);
                    let ghost left = fixes@;
                    let fix = fixes.remove(0);
                    let ghost entry = fix@;
                    proof {
                        assert(left[0]@ == rest[0]);
                        assert forall|k: int| 0 <= k < fixes@.len() implies (
                        #[trigger] apply::fix_views(fixes@)[k]) == all.skip(done + 1)[k] by {
                            assert(fixes@[k] == left[k + 1]);
                            assert(rest[k + 1] == all.skip(done as int)[k + 1]);
                        }
                        assert(rest[0] == entry);
                        assert(entry == all[done as int]);
                        assert(apply::fix_views(fixes@) =~= all.skip(done + 1));
                        assert(all.take(done + 1).drop_last() == all.take(done as int));
                        assert(all.take(done + 1).last() == entry);
                        lemma_applied_in_grows(all, done + 1);
                        lemma_merged_all(before.per_file, all.take(done as int));
                    }
                    applied = applied + fix.applied;
                    merge(&mut self.per_file, fix);
                    done = done + 1;
                }
                assert(all.take(done as int) == all);
                self.total = self.total + applied;
                if applied > 0 && self.iteration < MAX_HEAL_ITERATIONS {
                    self.iteration = self.iteration + 1;
                    self.stage = HealStage::Lint;
                }
            },
            (stage, _) => {
                self.stage = stage;
            },
        }
    }
}

/// The line that reports what was changed in a file.
pub open spec fn summary_line(summary: SummaryView) -> Seq<char> {
    let start = "        "@ + summary.file.shown + ": "@ + number::numeral(summary.fixes as nat)
        + " fix(es)"@;
    if summary.lints.len() == 0 {
        start
    } else {
        start + " ["@ + text::joined(summary.lints, ", "@) + "]"@
    }
}

/// The report on all passes: nothing where nothing was applied, else how much was applied
/// to how many files, a line for each file, and where the changes went.
pub open spec fn report_lines(run: HealView) -> Seq<Seq<char>> {
    if run.total == 0 {
        Seq::empty()
    } else {
        seq![
            "      Clippy Auto-Healer: auto-applied "@ + number::numeral(run.total as nat)
                + " fix(es) across "@ + number::numeral(run.per_file.len()) + " file(s):"@,
        ] + run.per_file.map_values(|summary: SummaryView| summary_line(summary)) + seq![
            "      These changes are part of your working tree and will be included in the risk-checked diff."@,
        ]
    }
}

/// The report is empty where nothing was applied; else it has a line for every file, in their
/// order, between one that names the total and the number of files and one that says where
/// the changes went. The line of a file names it, the number of its fixes and, where there
/// are any, all its lints.
pub proof fn law_report_has_a_line_for_each_file(run: HealView, i: int)
    requires
        run.total >= 0,
    ensures
        run.total == 0 ==> report_lines(run).len() == 0,
        run.total > 0 ==> {
            let lines = report_lines(run);
            &&& lines.len() == run.per_file.len() + 2
            &&& lines.first() == "      Clippy Auto-Healer: auto-applied "@ + number::numeral(
                run.total as nat,
            ) + " fix(es) across "@ + number::numeral(run.per_file.len()) + " file(s):"@
            &&& lines.last()
                == "      These changes are part of your working tree and will be included in the risk-checked diff."@
            &&& 0 <= i < run.per_file.len() ==> {
                let file = run.per_file[i];
                let start = "        "@ + file.file.shown + ": "@ + number::numeral(
                    file.fixes as nat,
                ) + " fix(es)"@;
                &&& file.lints.len() == 0 ==> lines[i + 1] == start
                &&& file.lints.len() > 0 ==> lines[i + 1] == start + " ["@ + text::joined(
                    file.lints,
                    ", "@,
                ) + "]"@
            }
        },
{
}

impl FileSummary {
    /// The line that reports what was changed in the file.
    pub fn line(&self) -> (r: String)
        ensures
            r@ == summary_line(self@),
    {
        let mut r = "        ".to_owned();
        r.append(self.file.shown.as_str());
        r.append(": ");
        r.append(number::number_text(self.fixes).as_str());
        r.append(" fix(es)");
        if self.lints.len() > 0 {
            r.append(" [");
            r.append(text::join(&self.lints, ", ").as_str());
            r.append("]");
        }
        r
    }
}

impl HealRun {
    /// The report on all passes, line by line.
    pub fn report(&self) -> (r: Vec<String>)
        ensures
            text::texts(r@) == report_lines(self@),
    {
        let mut r: Vec<String> = Vec::new();
        if self.total == 0 {
            assert(text::texts(r@) =~= Seq::empty());
            return r;
        }
        let mut head = "      Clippy Auto-Healer: auto-applied ".to_owned();
        head.append(number::number_text(self.total).as_str());
        head.append(" fix(es) across ");
        head.append(number::number_text(self.per_file.len()).as_str());
        head.append(" file(s):");
        let ghost head_text = head@;
        let ghost lines = self@.per_file.map_values(|summary: SummaryView| summary_line(summary));
        r.push(head);
        assert(text::texts(r@) =~= seq![head_text] + lines.take(0));
        for i in 0..self.per_file.len()
            invariant
                lines == self@.per_file.map_values(|summary: SummaryView| summary_line(summary)),
                text::texts(r@) == seq![head_text] + lines.take(i as int),
        {
            let ghost before = text::texts(r@);
            let line = self.per_file[i].line();
            assert(line@ == lines[i as int]);
            r.push(line);
            assert(text::texts(r@) =~= before.push(line@));
            assert(text::texts(r@) =~= seq![head_text] + lines.take(i + 1));
        }
        let ghost before = text::texts(r@);
        let last = "      These changes are part of your working tree and will be included in the risk-checked diff.".to_owned();
        r.push(last);
        assert(text::texts(r@) =~= before.push(last@));
        assert(lines.take(self.per_file.len() as int) =~= lines);
        assert(text::texts(r@) =~= report_lines(self@));
        r
    }
}

} // verus!
