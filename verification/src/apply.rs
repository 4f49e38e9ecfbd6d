//! Applying suggestions to the files that they are about: which suggestions belong to
//! which file, whatever it was called, which files may be touched, and what is reported of
//! them.

use vstd::prelude::*;

use crate::edit;
use crate::edit::FileRewrite;
use crate::path;
use crate::path::FilePath;
use crate::suggestion;
use crate::suggestion::ClippySuggestion;
use crate::text;

verus! {

/// Per-file record of applied clippy fixes, used to report auto-heal changes.
#[derive(Debug, PartialEq, Eq)]
pub struct AppliedFileFix {
    pub file: FilePath,
    pub applied: usize,
    pub lints: Vec<String>,
}

/// What a record of applied fixes says.
pub struct FixView {
    pub file: path::PathView,
    pub applied: usize,
    pub lints: Seq<Seq<char>>,
}

impl View for AppliedFileFix {
    type V = FixView;

    open spec fn view(&self) -> FixView {
        FixView { file: self.file@, applied: self.applied, lints: text::texts(self.lints@) }
    }
}

impl Clone for AppliedFileFix {
    fn clone(&self) -> (r: Self)
        ensures
            r@ == self@,
    {
        let lints = self.lints.clone();
        assert(text::texts(lints@) =~= text::texts(self.lints@));
        AppliedFileFix { file: self.file.clone(), applied: self.applied, lints }
    }
}

/// What the records of `list` say.
pub open spec fn fix_views(list: Seq<AppliedFileFix>) -> Seq<FixView> {
    list.map_values(|fix: AppliedFileFix| fix@)
}

/// The suggestions for one file.
#[derive(Debug, PartialEq, Eq)]
pub struct FileGroup {
    pub file: FilePath,
    pub suggestions: Vec<ClippySuggestion>,
}

/// What a group says.
pub struct GroupView {
    pub file: path::PathView,
    pub suggestions: Seq<suggestion::SuggestionView>,
}

impl View for FileGroup {
    type V = GroupView;

    open spec fn view(&self) -> GroupView {
        GroupView { file: self.file@, suggestions: suggestion::views(self.suggestions@) }
    }
}

/// What the groups of `list` say.
pub open spec fn group_views(list: Seq<FileGroup>) -> Seq<GroupView> {
    list.map_values(|group: FileGroup| group@)
}

/// What the paths of `list` say.
pub open spec fn path_views(list: Seq<FilePath>) -> Seq<path::PathView> {
    list.map_values(|file: FilePath| file@)
}

/// Whether a path to the same file as `file` is among `files`.
pub open spec fn has_file(files: Seq<path::PathView>, file: path::PathView) -> bool {
    exists|k: int| 0 <= k < files.len() && (#[trigger] files[k]).resolved == file.resolved
}

/// The files of `targets`, each by the first path to it.
pub open spec fn distinct_files(targets: Seq<path::PathView>) -> Seq<path::PathView>
    decreases targets.len(),
{
    if targets.len() == 0 {
        Seq::empty()
    } else {
        let earlier = distinct_files(targets.drop_last());
        if has_file(earlier, targets.last()) {
            earlier
        } else {
            earlier.push(targets.last())
        }
    }
}

/// The suggestions of `list` whose target is `file`, in their order.
pub open spec fn suggestions_for(
    targets: Seq<path::PathView>,
    list: Seq<suggestion::SuggestionView>,
    file: path::PathView,
) -> Seq<suggestion::SuggestionView>
    decreases targets.len(),
{
    if targets.len() == 0 {
        Seq::empty()
    } else {
        let earlier = suggestions_for(targets.drop_last(), list.drop_last(), file);
        if targets.last().resolved == file.resolved {
            earlier.push(list.last())
        } else {
            earlier
        }
    }
}

/// The suggestions of `list`, of which each has its target at the same place in
/// `targets`, by file.
pub open spec fn grouped(
    targets: Seq<path::PathView>,
    list: Seq<suggestion::SuggestionView>,
) -> Seq<GroupView> {
    distinct_files(targets).map_values(
        |file: path::PathView|
            GroupView { file, suggestions: suggestions_for(targets, list, file) },
    )
}

/// No file occurs twice among the distinct ones, and none is missing.
pub proof fn lemma_distinct_files(targets: Seq<path::PathView>)
    ensures
        forall|i: int, j: int|
            0 <= i < j < distinct_files(targets).len() ==> (
            #[trigger] distinct_files(targets)[i]).resolved != (
            #[trigger] distinct_files(targets)[j]).resolved,
        forall|i: int|
            0 <= i < targets.len() ==> has_file(distinct_files(targets), #[trigger] targets[i]),
    decreases targets.len(),
{
    if targets.len() > 0 {
        let rest = targets.drop_last();
        let earlier = distinct_files(rest);
        let now = distinct_files(targets);
        lemma_distinct_files(rest);
        assert forall|i: int| 0 <= i < targets.len() implies has_file(now, #[trigger] targets[i]) by {
            if i < rest.len() {
                assert(has_file(earlier, rest[i]));
                let k = choose|k: int|
                    0 <= k < earlier.len() && (#[trigger] earlier[k]).resolved == rest[i].resolved;
                assert(now[k] == earlier[k]);
            } else if !has_file(earlier, targets.last()) {
                assert(now[now.len() - 1] == targets.last());
            }
        }
        assert forall|i: int, j: int| 0 <= i < j < now.len() implies (#[trigger] now[i]).resolved != (
        #[trigger] now[j]).resolved by {
            if j == earlier.len() {
                assert(!has_file(earlier, targets.last()));
                assert(now[i] == earlier[i]);
            } else {
                assert(now[i] == earlier[i] && now[j] == earlier[j]);
            }
        }
    }
}

/// A file that no suggestion is about has none.
proof fn lemma_no_suggestions_for(
    targets: Seq<path::PathView>,
    list: Seq<suggestion::SuggestionView>,
    file: path::PathView,
)
    requires
        !has_file(distinct_files(targets), file),
    ensures
        suggestions_for(targets, list, file).len() == 0,
    decreases targets.len(),
{
    if targets.len() > 0 {
        let rest = targets.drop_last();
        lemma_distinct_files(targets);
        if has_file(distinct_files(rest), file) {
            let k = choose|k: int|
                0 <= k < distinct_files(rest).len() && (#[trigger] distinct_files(rest)[k]).resolved
                    == file.resolved;
            assert(distinct_files(targets)[k] == distinct_files(rest)[k]);
        }
        lemma_no_suggestions_for(rest, list.drop_last(), file);
        if targets.last().resolved == file.resolved {
            assert(has_file(distinct_files(targets), targets[targets.len() - 1]));
        }
    }
}

/// The position of the group of `file`.
fn find_group(groups: &Vec<FileGroup>, file: &FilePath) -> (r: Option<usize>)
    ensures
        match r {
            Some(i) => i < groups.len() && group_views(groups@)[i as int].file.resolved == file@.resolved,
            None => forall|k: int|
                0 <= k < groups.len() ==> (#[trigger] group_views(groups@)[k]).file.resolved
                    != file@.resolved,
        },
{
    for i in 0..groups.len()
        invariant
            forall|k: int|
                0 <= k < i ==> (#[trigger] group_views(groups@)[k]).file.resolved != file@.resolved,
    {
        assert(group_views(groups@)[i as int] == groups@[i as int]@);
        if groups[i].file.same(file) {
            return Some(i);
        }
    }
    None
}

/// The suggestions by file. Each suggestion has its target at the same place in
/// `targets`.
pub fn group_by_file(suggestions: &Vec<ClippySuggestion>, targets: &Vec<FilePath>) -> (r: Vec<
    FileGroup,
>)
    requires
        suggestions.len() == targets.len(),
    ensures
        group_views(r@) == grouped(path_views(targets@), suggestion::views(suggestions@)),
{
    let ghost files = path_views(targets@);
    let ghost all = suggestion::views(suggestions@);
    let mut r: Vec<FileGroup> = Vec::new();
    assert(group_views(r@) =~= grouped(files.take(0), all.take(0)));
    for n in 0..suggestions.len()
        invariant
            suggestions.len() == targets.len(),
            files == path_views(targets@),
            all == suggestion::views(suggestions@),
            group_views(r@) == grouped(files.take(n as int), all.take(n as int)),
    {
        let s = suggestions[n].clone();
        let file = &targets[n];
        let ghost before = group_views(r@);
        let ghost earlier = files.take(n as int);
        let ghost now = files.take(n + 1);
        let ghost old_list = all.take(n as int);
        let ghost new_list = all.take(n + 1);
        proof {
            assert(now.drop_last() == earlier);
            assert(now.last() == file@);
            assert(new_list.drop_last() == old_list);
            assert(new_list.last() == s@);
            lemma_distinct_files(earlier);
            assert forall|k: int| 0 <= k < distinct_files(earlier).len() implies before[k].file
                == #[trigger] distinct_files(earlier)[k] by {}
        }
        let found = find_group(&r, file);
        match found {
            Some(i) => {
                let ghost group = r@[i as int]@;
                assert(group == before[i as int]);
                assert(before.len() == distinct_files(earlier).len());
                assert(before[i as int].file == distinct_files(earlier)[i as int]);
                assert(has_file(distinct_files(earlier), file@)) by {
                    assert(distinct_files(earlier)[i as int].resolved == file@.resolved);
                }
                r[i].suggestions.push(s);
                proof {
                    let after = group_views(r@);
                    assert(suggestion::views(r@[i as int].suggestions@) =~= group.suggestions.push(s@));
                    assert forall|k: int| 0 <= k < after.len() implies #[trigger] after[k]
                        == grouped(now, new_list)[k] by {
                        let f = distinct_files(earlier)[k];
                        assert(before[k] == GroupView {
                            file: f,
                            suggestions: suggestions_for(earlier, old_list, f),
                        });
                        if k != i {
                            assert(after[k] == before[k]);
                            assert(f.resolved != distinct_files(earlier)[i as int].resolved);
                        }
                    }
                    assert(after =~= grouped(now, new_list));
                }
            },
            None => {
                assert(!has_file(distinct_files(earlier), file@)) by {
                    if has_file(distinct_files(earlier), file@) {
                        let k = choose|k: int|
                            0 <= k < distinct_files(earlier).len() && (
                            #[trigger] distinct_files(earlier)[k]).resolved == file@.resolved;
                        assert(r.len() == before.len() == distinct_files(earlier).len());
                        assert(before[k].file == distinct_files(earlier)[k]);
                        assert(group_views(r@)[k].file.resolved != file@.resolved);
                    }
                }
                let mut list: Vec<ClippySuggestion> = Vec::new();
                list.push(s);
                assert(suggestion::views(list@) =~= Seq::empty().push(s@));
                r.push(FileGroup { file: file.clone(), suggestions: list });
                proof {
                    let after = group_views(r@);
                    lemma_no_suggestions_for(earlier, old_list, file@);
                    assert(suggestions_for(earlier, old_list, file@) =~= Seq::empty());
                    assert(distinct_files(now) == distinct_files(earlier).push(file@));
                    assert(before.len() == distinct_files(earlier).len());
                    assert(after.len() == before.len() + 1);
                    assert(after[before.len() as int] == GroupView {
                        file: file@,
                        suggestions: suggestions_for(now, new_list, file@),
                    });
                    assert forall|k: int| 0 <= k < after.len() implies #[trigger] after[k]
                        == grouped(now, new_list)[k] by {
                        if k < before.len() {
                            let f = distinct_files(earlier)[k];
                            assert(before[k] == GroupView {
                                file: f,
                                suggestions: suggestions_for(earlier, old_list, f),
                            });
                            assert(after[k] == before[k]);
                            assert(f.resolved != file@.resolved);
                        }
                    }
                    assert(after =~= grouped(now, new_list));
                }
            },
        }
    }
    assert(files.take(suggestions.len() as int) == files);
    assert(all.take(suggestions.len() as int) == all);
    r
}

/// The groups of files that lie at or below `root`.
pub open spec fn inside(groups: Seq<GroupView>, root: path::PathView) -> Seq<GroupView>
    decreases groups.len(),
{
    if groups.len() == 0 {
        Seq::empty()
    } else {
        let earlier = inside(groups.drop_last(), root);
        if root.resolved.is_prefix_of(groups.last().file.resolved) {
            earlier.push(groups.last())
        } else {
            earlier
        }
    }
}

/// Leaves out the groups of files that do not lie at or below `root`.
pub fn groups_inside(groups: Vec<FileGroup>, root: &FilePath) -> (r: Vec<FileGroup>)
    ensures
        group_views(r@) == inside(group_views(groups@), root@),
{
    let mut r = groups;
    let ghost all = group_views(r@);
    let ghost mut done: int = 0;
    let mut i: usize = 0;
    assert(all.skip(0) == all);
    assert(group_views(r@).take(0) =~= inside(all.take(0), root@));
    while i < r.len()
        invariant
            i <= r.len(),
            0 <= done <= all.len(),
            group_views(r@).take(i as int) == inside(all.take(done), root@),
            group_views(r@).skip(i as int) == all.skip(done),
        decreases r.len() - i,
    {
        let ghost before = group_views(r@);
        assert(before.skip(i as int)[0] == r@[i as int]@);
        assert(all.skip(done).len() > 0);
        assert(all.skip(done)[0] == all[done]);
        assert(all.take(done + 1).drop_last() == all.take(done));
        assert(all.take(done + 1).last() == all[done]);
        assert(all.skip(done + 1) =~= all.skip(done).drop_first());
        if r[i].file.starts_with(root) {
            assert(before.take(i + 1) =~= before.take(i as int).push(all[done]));
            assert(before.skip(i + 1) =~= before.skip(i as int).drop_first());
            i = i + 1;
        } else {
            let _ = r.remove(i);
            assert(group_views(r@) =~= before.remove(i as int));
            assert(group_views(r@).take(i as int) =~= before.take(i as int));
            assert(group_views(r@).skip(i as int) =~= before.skip(i as int).drop_first());
        }
        proof {
            done = done + 1;
        }
    }
    assert(all.skip(done).len() == 0);
    assert(all.take(done) =~= all);
    assert(group_views(r@).take(i as int) =~= group_views(r@));
    r
}

/// What has to be done next for the file at hand.
#[derive(Debug, PartialEq, Eq)]
pub enum ApplyStage {
    /// Read the file.
    Read,
    /// Write the file anew.
    Write(FileRewrite),
    /// Nothing: all files were dealt with.
    Finished,
}

/// What was done for the file at hand.
#[derive(Debug, PartialEq, Eq)]
pub enum ApplyEvent {
    /// The file holds these bytes, or could not be read.
    ReadDone(Option<Vec<u8>>),
    /// Whether the file could be written.
    WriteDone(bool),
}

/// Suggestions that are being applied, file by file.
#[derive(Debug, PartialEq, Eq)]
pub struct ApplyRun {
    pub groups: Vec<FileGroup>,
    /// The group of the file at hand.
    pub at: usize,
    pub stage: ApplyStage,
    /// One entry for each file that was modified.
    pub fixes: Vec<AppliedFileFix>,
}

/// What a stage says.
pub enum StageView {
    Read,
    Write(edit::RewriteView),
    Finished,
}

/// What an event says.
pub enum EventView {
    ReadDone(Option<Seq<u8>>),
    WriteDone(bool),
}

/// What a run says.
pub struct RunView {
    pub groups: Seq<GroupView>,
    pub at: int,
    pub stage: StageView,
    pub fixes: Seq<FixView>,
}

impl View for ApplyStage {
    type V = StageView;

    open spec fn view(&self) -> StageView {
        match self {
            ApplyStage::Read => StageView::Read,
            ApplyStage::Write(rewrite) => StageView::Write(rewrite@),
            ApplyStage::Finished => StageView::Finished,
        }
    }
}

impl View for ApplyEvent {
    type V = EventView;

    open spec fn view(&self) -> EventView {
        match self {
            ApplyEvent::ReadDone(Some(bytes)) => EventView::ReadDone(Some(bytes@)),
            ApplyEvent::ReadDone(None) => EventView::ReadDone(None),
            ApplyEvent::WriteDone(written) => EventView::WriteDone(*written),
        }
    }
}

impl View for ApplyRun {
    type V = RunView;

    open spec fn view(&self) -> RunView {
        RunView {
            groups: group_views(self.groups@),
            at: self.at as int,
            stage: self.stage@,
            fixes: fix_views(self.fixes@),
        }
    }
}

/// The entry for a file that was rewritten.
pub open spec fn entry_for(group: GroupView, rewrite: edit::RewriteView) -> FixView {
    FixView { file: group.file, applied: rewrite.applied, lints: rewrite.lints }
}

impl RunView {
    /// Whether the run points at a group, or is finished behind the last one.
    pub open spec fn valid(self) -> bool {
        &&& 0 <= self.at <= self.groups.len()
        &&& self.stage is Finished <==> self.at == self.groups.len()
    }

    /// The run with the group `at` at hand.
    pub open spec fn turned_to(self, at: int) -> RunView {
        RunView {
            at,
            stage: if at < self.groups.len() {
                StageView::Read
            } else {
                StageView::Finished
            },
            ..self
        }
    }

    /// The run once `event` was dealt with. An event that does not answer the stage
    /// changes nothing.
    pub open spec fn after(self, event: EventView) -> RunView {
        match (self.stage, event) {
            (StageView::Read, EventView::ReadDone(Some(bytes))) => {
                let rewrite = edit::rewritten(bytes, self.groups[self.at].suggestions);
                if rewrite.applied > 0 {
                    RunView { stage: StageView::Write(rewrite), ..self }
                } else {
                    self.turned_to(self.at + 1)
                }
            },
            (StageView::Read, EventView::ReadDone(None)) => self.turned_to(self.at + 1),
            (StageView::Write(rewrite), EventView::WriteDone(true)) => RunView {
                fixes: self.fixes.push(entry_for(self.groups[self.at], rewrite)),
                ..self
            }.turned_to(self.at + 1),
            (StageView::Write(_), EventView::WriteDone(false)) => self.turned_to(self.at + 1),
            _ => self,
        }
    }

    /// The run once all of `events` were dealt with.
    pub open spec fn after_all(self, events: Seq<EventView>) -> RunView
        decreases events.len(),
    {
        if events.len() == 0 {
            self
        } else {
            self.after_all(events.drop_last()).after(events.last())
        }
    }

    /// Whether `event` answers the stage.
    pub open spec fn answered_by(self, event: EventView) -> bool {
        match self.stage {
            StageView::Read => event is ReadDone,
            StageView::Write(_) => event is WriteDone,
            StageView::Finished => false,
        }
    }

    /// How many events can be dealt with at most until all files were.
    pub open spec fn events_left(self) -> int {
        match self.stage {
            StageView::Read => (self.groups.len() - self.at) * 2,
            StageView::Write(_) => (self.groups.len() - self.at) * 2 - 1,
            StageView::Finished => 0,
        }
    }

    /// Whether the entries so far are about files before the one at hand, no two of them
    /// about one file, and each with at least one fix.
    pub open spec fn one_entry_per_file(self) -> bool {
        &&& forall|i: int|
            0 <= i < self.fixes.len() ==> {
                &&& (#[trigger] self.fixes[i]).applied > 0
                &&& exists|g: int|
                    0 <= g < self.at && (#[trigger] self.groups[g]).file == self.fixes[i].file
            }
        &&& forall|i: int, j: int|
            0 <= i < j < self.fixes.len() ==> (#[trigger] self.fixes[i]).file.resolved != (
            #[trigger] self.fixes[j]).file.resolved
        &&& self.stage matches StageView::Write(rewrite) ==> rewrite.applied > 0
    }
}

/// The run before its first event.
pub open spec fn run_start(groups: Seq<GroupView>) -> RunView {
    RunView { groups, at: 0, stage: StageView::Read, fixes: Seq::empty() }.turned_to(0)
}

/// The run that applies the suggestions of `list`, each to its target, to the files at or
/// below `root`.
pub open spec fn start_of(
    targets: Seq<path::PathView>,
    list: Seq<suggestion::SuggestionView>,
    root: path::PathView,
) -> RunView {
    run_start(inside(grouped(targets, list), root))
}

/// Whether no two groups are about one file.
pub open spec fn groups_differ(groups: Seq<GroupView>) -> bool {
    forall|i: int, j: int|
        0 <= i < j < groups.len() ==> (#[trigger] groups[i]).file.resolved != (
        #[trigger] groups[j]).file.resolved
}

/// No two groups are about one file, by whatever paths the suggestions name it.
pub proof fn lemma_grouped_differ(
    targets: Seq<path::PathView>,
    list: Seq<suggestion::SuggestionView>,
)
    ensures
        groups_differ(grouped(targets, list)),
{
    let groups = grouped(targets, list);
    let files = distinct_files(targets);
    lemma_distinct_files(targets);
    assert forall|i: int, j: int| 0 <= i < j < groups.len() implies (
    #[trigger] groups[i]).file.resolved != (#[trigger] groups[j]).file.resolved by {
        assert(groups[i].file == files[i] && groups[j].file == files[j]);
    }
}

/// What stays inside are the groups of files that lie there, and no two are about one file
/// where no two were.
pub proof fn lemma_inside(groups: Seq<GroupView>, root: path::PathView)
    ensures
        forall|g: GroupView|
            #[trigger] inside(groups, root).contains(g) <==> groups.contains(g)
                && root.resolved.is_prefix_of(g.file.resolved),
        groups_differ(groups) ==> groups_differ(inside(groups, root)),
    decreases groups.len(),
{
    if groups.len() > 0 {
        let rest = groups.drop_last();
        let last = groups.last();
        let earlier = inside(rest, root);
        let now = inside(groups, root);
        lemma_inside(rest, root);
        assert(groups[groups.len() - 1] == last);
        assert forall|g: GroupView| groups.contains(g) <==> rest.contains(g) || g == last by {
            if groups.contains(g) {
                let k = choose|k: int| 0 <= k < groups.len() && groups[k] == g;
                if k < rest.len() {
                    assert(rest[k] == g);
                }
            }
            if rest.contains(g) {
                let k = choose|k: int| 0 <= k < rest.len() && rest[k] == g;
                assert(groups[k] == g);
            }
        }
        assert forall|g: GroupView| #[trigger] now.contains(g) <==> groups.contains(g)
            && root.resolved.is_prefix_of(g.file.resolved) by {
            if now.contains(g) {
                let k = choose|k: int| 0 <= k < now.len() && now[k] == g;
                if k < earlier.len() {
                    assert(earlier[k] == g);
                }
            }
            if earlier.contains(g) {
                let k = choose|k: int| 0 <= k < earlier.len() && earlier[k] == g;
                assert(now[k] == g);
            }
            if root.resolved.is_prefix_of(last.file.resolved) {
                assert(now[now.len() - 1] == last);
            }
        }
        if groups_differ(groups) {
            assert(groups_differ(rest)) by {
                assert forall|i: int, j: int| 0 <= i < j < rest.len() implies (
                #[trigger] rest[i]).file.resolved != (#[trigger] rest[j]).file.resolved by {
                    assert(rest[i] == groups[i] && rest[j] == groups[j]);
                }
            }
            assert forall|i: int, j: int| 0 <= i < j < now.len() implies (
            #[trigger] now[i]).file.resolved != (#[trigger] now[j]).file.resolved by {
                assert(now[i] == earlier[i]);
                if j < earlier.len() {
                    assert(now[j] == earlier[j]);
                } else {
                    assert(earlier.contains(earlier[i]));
                    let k = choose|k: int| 0 <= k < rest.len() && rest[k] == earlier[i];
                    assert(groups[k] == earlier[i]);
                }
            }
        }
    }
}

/// Every suggestion stands in the group of its file, and no two groups are about one
/// file.
pub proof fn law_groups_cover_all(
    targets: Seq<path::PathView>,
    list: Seq<suggestion::SuggestionView>,
    n: int,
)
    requires
        targets.len() == list.len(),
        0 <= n < list.len(),
    ensures
        groups_differ(grouped(targets, list)),
        exists|g: int|
            0 <= g < grouped(targets, list).len() && (
            #[trigger] grouped(targets, list)[g]).file.resolved == targets[n].resolved
                && grouped(targets, list)[g].suggestions.contains(list[n]),
{
    let groups = grouped(targets, list);
    let files = distinct_files(targets);
    lemma_distinct_files(targets);
    lemma_grouped_differ(targets, list);
    assert(has_file(files, targets[n]));
    let g = choose|g: int|
        0 <= g < files.len() && (#[trigger] files[g]).resolved == targets[n].resolved;
    assert(groups[g].file == files[g]);
    lemma_suggestion_is_in_its_group(targets, list, files[g], n);
}

/// A suggestion is among those for its file.
proof fn lemma_suggestion_is_in_its_group(
    targets: Seq<path::PathView>,
    list: Seq<suggestion::SuggestionView>,
    file: path::PathView,
    n: int,
)
    requires
        targets.len() == list.len(),
        0 <= n < list.len(),
        file.resolved == targets[n].resolved,
    ensures
        suggestions_for(targets, list, file).contains(list[n]),
    decreases targets.len(),
{
    let now = suggestions_for(targets, list, file);
    let earlier = suggestions_for(targets.drop_last(), list.drop_last(), file);
    if n == list.len() - 1 {
        assert(now[now.len() - 1] == list[n]);
    } else {
        lemma_suggestion_is_in_its_group(targets.drop_last(), list.drop_last(), file, n);
        let k = choose|k: int| 0 <= k < earlier.len() && earlier[k] == list[n];
        assert(now[k] == earlier[k]);
    }
}

/// Whatever happens, each file that is reported was modified, and is reported once: no two
/// entries resolve to one file, by whatever paths the suggestions name it.
pub proof fn law_one_entry_per_modified_file(groups: Seq<GroupView>, events: Seq<EventView>)
    requires
        groups_differ(groups),
    ensures
        run_start(groups).after_all(events).groups == groups,
        run_start(groups).after_all(events).valid(),
        run_start(groups).after_all(events).one_entry_per_file(),
    decreases events.len(),
{
    if events.len() > 0 {
        law_one_entry_per_modified_file(groups, events.drop_last());
        let before = run_start(groups).after_all(events.drop_last());
        let now = before.after(events.last());
        if now.fixes.len() > before.fixes.len() {
            let fix = now.fixes.last();
            assert(fix.file == groups[before.at].file);
            assert forall|i: int| 0 <= i < before.fixes.len() implies (
            #[trigger] now.fixes[i]).file.resolved != fix.file.resolved by {
                assert(now.fixes[i] == before.fixes[i]);
                let g = choose|g: int|
                    0 <= g < before.at && (#[trigger] before.groups[g]).file
                        == before.fixes[i].file;
                assert(groups[g].file.resolved != groups[before.at].file.resolved);
            }
        }
        assert forall|i: int| 0 <= i < now.fixes.len() implies {
            &&& (#[trigger] now.fixes[i]).applied > 0
            &&& exists|g: int| 0 <= g < now.at && (#[trigger] now.groups[g]).file == now.fixes[i].file
        } by {
            if i < before.fixes.len() {
                assert(now.fixes[i] == before.fixes[i]);
                let g = choose|g: int|
                    0 <= g < before.at && (#[trigger] before.groups[g]).file
                        == before.fixes[i].file;
                assert(now.groups[g].file == now.fixes[i].file);
            } else {
                assert(now.groups[before.at].file == now.fixes[i].file);
            }
        }
        assert forall|i: int, j: int| 0 <= i < j < now.fixes.len() implies (
        #[trigger] now.fixes[i]).file.resolved != (#[trigger] now.fixes[j]).file.resolved by {
            if j < before.fixes.len() {
                assert(now.fixes[i] == before.fixes[i] && now.fixes[j] == before.fixes[j]);
            }
        }
    }
}

/// Every event that answers the stage brings the run nearer to its end, and any other
/// changes nothing. So at most two events are dealt with for each file.
pub proof fn law_apply_run_ends(run: RunView, event: EventView)
    requires
        run.valid(),
    ensures
        run.after(event).valid(),
        0 <= run.after(event).events_left(),
        run.answered_by(event) ==> run.after(event).events_left() < run.events_left(),
        !run.answered_by(event) ==> run.after(event) == run,
        run_start(run.groups).events_left() == run.groups.len() * 2,
{
}

/// No file but one that resolves to a path at or below that of the project is ever at hand,
/// and so none is read or written.
pub proof fn law_only_files_inside_are_touched(
    groups: Seq<GroupView>,
    root: path::PathView,
    events: Seq<EventView>,
)
    ensures
        ({
            let run = run_start(inside(groups, root)).after_all(events);
            &&& run.valid()
            &&& run.at < run.groups.len() ==> root.resolved.is_prefix_of(
                run.groups[run.at].file.resolved,
            )
        }),
{
    let start = run_start(inside(groups, root));
    lemma_run_keeps_groups(start, events);
    lemma_inside(groups, root);
    let run = start.after_all(events);
    if run.at < run.groups.len() {
        assert(inside(groups, root).contains(run.groups[run.at]));
    }
}

/// A run stays valid and keeps its groups.
proof fn lemma_run_keeps_groups(run: RunView, events: Seq<EventView>)
    requires
        run.valid(),
    ensures
        run.after_all(events).valid(),
        run.after_all(events).groups == run.groups,
    decreases events.len(),
{
    if events.len() > 0 {
        lemma_run_keeps_groups(run, events.drop_last());
    }
}

/// What the file of a group is rewritten to, where `files` are the files by their resolved
/// paths and `writable` are those that can be written: nothing where the file cannot be
/// read or written, or where no suggestion applies.
pub open spec fn outcome(
    group: GroupView,
    files: Map<Seq<path::PartView>, Seq<u8>>,
    writable: Set<Seq<path::PartView>>,
) -> Option<edit::RewriteView> {
    let key = group.file.resolved;
    let rewrite = edit::rewritten(files[key], group.suggestions);
    if files.dom().contains(key) && writable.contains(key) && rewrite.applied > 0 {
        Some(rewrite)
    } else {
        None
    }
}

/// The entries for `groups`: one for each whose file is rewritten.
pub open spec fn entries(
    groups: Seq<GroupView>,
    files: Map<Seq<path::PartView>, Seq<u8>>,
    writable: Set<Seq<path::PartView>>,
) -> Seq<FixView>
    decreases groups.len(),
{
    if groups.len() == 0 {
        Seq::empty()
    } else {
        let earlier = entries(groups.drop_last(), files, writable);
        match outcome(groups.last(), files, writable) {
            Some(rewrite) => earlier.push(entry_for(groups.last(), rewrite)),
            None => earlier,
        }
    }
}

/// What the file `key` holds once the suggestions of `groups` were applied.
pub open spec fn content_after(
    groups: Seq<GroupView>,
    files: Map<Seq<path::PartView>, Seq<u8>>,
    writable: Set<Seq<path::PartView>>,
    key: Seq<path::PartView>,
) -> Seq<u8>
    decreases groups.len(),
{
    if groups.len() == 0 {
        files[key]
    } else if groups.last().file.resolved == key && outcome(groups.last(), files, writable) is Some {
        outcome(groups.last(), files, writable)->0.content
    } else {
        content_after(groups.drop_last(), files, writable, key)
    }
}

/// The files once the suggestions of `groups` were applied.
pub open spec fn files_after(
    groups: Seq<GroupView>,
    files: Map<Seq<path::PartView>, Seq<u8>>,
    writable: Set<Seq<path::PartView>>,
) -> Map<Seq<path::PartView>, Seq<u8>> {
    Map::new(
        |key: Seq<path::PartView>| files.dom().contains(key),
        |key: Seq<path::PartView>| content_after(groups, files, writable, key),
    )
}

/// What happens where the stage of a run is carried out on `files`.
pub open spec fn response(
    run: RunView,
    files: Map<Seq<path::PartView>, Seq<u8>>,
    writable: Set<Seq<path::PartView>>,
) -> EventView {
    let key = run.groups[run.at].file.resolved;
    match run.stage {
        StageView::Read => EventView::ReadDone(
            if files.dom().contains(key) {
                Some(files[key])
            } else {
                None
            },
        ),
        _ => EventView::WriteDone(files.dom().contains(key) && writable.contains(key)),
    }
}

/// The files once the stage of a run was carried out on them.
pub open spec fn written(
    run: RunView,
    files: Map<Seq<path::PartView>, Seq<u8>>,
    writable: Set<Seq<path::PartView>>,
) -> Map<Seq<path::PartView>, Seq<u8>> {
    let key = run.groups[run.at].file.resolved;
    match run.stage {
        StageView::Write(rewrite) => if files.dom().contains(key) && writable.contains(key) {
            files.insert(key, rewrite.content)
        } else {
            files
        },
        _ => files,
    }
}

/// A run and the files once every stage was carried out until the run is finished.
pub open spec fn carried_out(
    run: RunView,
    files: Map<Seq<path::PartView>, Seq<u8>>,
    writable: Set<Seq<path::PartView>>,
) -> (RunView, Map<Seq<path::PartView>, Seq<u8>>)
    decreases run.events_left(),
{
    if !run.valid() || run.stage is Finished {
        (run, files)
    } else {
        carried_out(
            run.after(response(run, files, writable)),
            written(run, files, writable),
            writable,
        )
    }
}

/// A file that no group is about keeps its content.
proof fn lemma_other_files_stay(
    groups: Seq<GroupView>,
    files: Map<Seq<path::PartView>, Seq<u8>>,
    writable: Set<Seq<path::PartView>>,
    key: Seq<path::PartView>,
)
    requires
        forall|g: int| 0 <= g < groups.len() ==> (#[trigger] groups[g]).file.resolved != key,
    ensures
        content_after(groups, files, writable, key) == files[key],
    decreases groups.len(),
{
    if groups.len() > 0 {
        let rest = groups.drop_last();
        assert(groups[groups.len() - 1] == groups.last());
        assert forall|g: int| 0 <= g < rest.len() implies (
        #[trigger] rest[g]).file.resolved != key by {
            assert(rest[g] == groups[g]);
        }
        lemma_other_files_stay(rest, files, writable, key);
    }
}

/// From any group on, a run comes to the end that `entries` and `files_after` tell of.
proof fn lemma_carried_out(
    groups: Seq<GroupView>,
    at: int,
    files: Map<Seq<path::PartView>, Seq<u8>>,
    writable: Set<Seq<path::PartView>>,
)
    requires
        groups_differ(groups),
        0 <= at <= groups.len(),
    ensures
        ({
            let run = RunView {
                groups,
                at: 0,
                stage: StageView::Read,
                fixes: entries(groups.take(at), files, writable),
            }.turned_to(at);
            let end = carried_out(run, files_after(groups.take(at), files, writable), writable);
            &&& end.0.stage is Finished
            &&& end.0.fixes == entries(groups, files, writable)
            &&& end.1 == files_after(groups, files, writable)
        }),
    decreases groups.len() - at,
{
    let now = files_after(groups.take(at), files, writable);
    let run = RunView {
        groups,
        at: 0,
        stage: StageView::Read,
        fixes: entries(groups.take(at), files, writable),
    }.turned_to(at);
    if at == groups.len() {
        assert(groups.take(at) == groups);
    } else {
        let group = groups[at];
        let key = group.file.resolved;
        let next = groups.take(at + 1);
        assert(next.drop_last() == groups.take(at));
        assert(next.last() == group);
        assert forall|g: int| 0 <= g < groups.take(at).len() implies (
        #[trigger] groups.take(at)[g]).file.resolved != key by {
            assert(groups.take(at)[g] == groups[g]);
        }
        lemma_other_files_stay(groups.take(at), files, writable, key);
        lemma_carried_out(groups, at + 1, files, writable);
        let step = run.after(response(run, now, writable));
        let later = files_after(next, files, writable);
        assert(written(run, now, writable) == now);
        let rewrite = edit::rewritten(files[key], group.suggestions);
        if files.dom().contains(key) && rewrite.applied > 0 {
            assert(now[key] == files[key]);
            assert(step.stage == StageView::Write(rewrite));
            let last = step.after(response(step, now, writable));
            let end = written(step, now, writable);
            if writable.contains(key) {
                assert(outcome(group, files, writable) == Some(rewrite));
                assert(end =~= later);
            } else {
                assert(outcome(group, files, writable) is None);
                assert(end =~= later);
            }
            assert(carried_out(run, now, writable) == carried_out(step, now, writable));
            assert(carried_out(step, now, writable) == carried_out(last, end, writable));
        } else {
            assert(outcome(group, files, writable) is None);
            assert(now =~= later);
            assert(carried_out(run, now, writable) == carried_out(step, now, writable));
        }
    }
}

/// Carried out on any files, a run rewrites each file once, by all suggestions for it and
/// from what the file held at the start, reports just the files that it rewrote, and leaves
/// all others as they are.
pub proof fn law_files_are_rewritten_from_their_first_content(
    groups: Seq<GroupView>,
    files: Map<Seq<path::PartView>, Seq<u8>>,
    writable: Set<Seq<path::PartView>>,
)
    requires
        groups_differ(groups),
    ensures
        ({
            let end = carried_out(run_start(groups), files, writable);
            &&& end.0.stage is Finished
            &&& end.0.fixes == entries(groups, files, writable)
            &&& end.1 == files_after(groups, files, writable)
        }),
{
    lemma_carried_out(groups, 0, files, writable);
    assert(groups.take(0) =~= Seq::empty());
    assert(files_after(groups.take(0), files, writable) =~= files);
}

/// The groups that stay are those of files at or below the root, in their order.
pub proof fn law_files_inside_stay(groups: Seq<GroupView>, root: path::PathView)
    ensures
        inside(groups, root) == groups.filter(
            |g: GroupView| root.resolved.is_prefix_of(g.file.resolved),
        ),
    decreases groups.len(),
{
    reveal(Seq::filter);
    if groups.len() > 0 {
        law_files_inside_stay(groups.drop_last(), root);
    }
}

/// The group of a file holds just the suggestions whose targets resolve to it, in their
/// order, and goes by the first path that names it.
pub proof fn law_groups_hold_what_is_for_their_file(
    targets: Seq<path::PathView>,
    list: Seq<suggestion::SuggestionView>,
    g: int,
) -> (n: int)
    requires
        targets.len() == list.len(),
        0 <= g < grouped(targets, list).len(),
    ensures
        ({
            let group = grouped(targets, list)[g];
            &&& group.suggestions == targets.zip_with(list).filter(
                |pair: (path::PathView, suggestion::SuggestionView)|
                    pair.0.resolved == group.file.resolved,
            ).map_values(|pair: (path::PathView, suggestion::SuggestionView)| pair.1)
            &&& 0 <= n < targets.len()
            &&& targets[n] == group.file
            &&& forall|k: int| 0 <= k < n ==> (#[trigger] targets[k]).resolved
                != group.file.resolved
        }),
{
    let file = grouped(targets, list)[g].file;
    lemma_suggestions_are_filtered(targets, list, file);
    lemma_first_path(targets, g)
}

/// The suggestions for a file, as a filter.
proof fn lemma_suggestions_are_filtered(
    targets: Seq<path::PathView>,
    list: Seq<suggestion::SuggestionView>,
    file: path::PathView,
)
    requires
        targets.len() == list.len(),
    ensures
        suggestions_for(targets, list, file) == targets.zip_with(list).filter(
            |pair: (path::PathView, suggestion::SuggestionView)| pair.0.resolved == file.resolved,
        ).map_values(|pair: (path::PathView, suggestion::SuggestionView)| pair.1),
    decreases targets.len(),
{
    reveal(Seq::filter);
    let pairs = targets.zip_with(list);
    if targets.len() > 0 {
        lemma_suggestions_are_filtered(targets.drop_last(), list.drop_last(), file);
        assert(pairs.drop_last() =~= targets.drop_last().zip_with(list.drop_last()));
        assert(pairs.last() == (targets.last(), list.last()));
    }
    assert(suggestions_for(targets, list, file) =~= pairs.filter(
        |pair: (path::PathView, suggestion::SuggestionView)| pair.0.resolved == file.resolved,
    ).map_values(|pair: (path::PathView, suggestion::SuggestionView)| pair.1));
}

/// Each of the distinct files goes by the first path to it.
proof fn lemma_first_path(targets: Seq<path::PathView>, g: int) -> (n: int)
    requires
        0 <= g < distinct_files(targets).len(),
    ensures
        0 <= n < targets.len(),
        targets[n] == distinct_files(targets)[g],
        forall|k: int| 0 <= k < n ==> (#[trigger] targets[k]).resolved != distinct_files(
            targets,
        )[g].resolved,
    decreases targets.len(),
{
    let rest = targets.drop_last();
    let earlier = distinct_files(rest);
    if g < earlier.len() {
        let n = lemma_first_path(rest, g);
        assert(distinct_files(targets)[g] == earlier[g]);
        assert(targets[n] == rest[n]);
        assert forall|k: int| 0 <= k < n implies (#[trigger] targets[k]).resolved
            != distinct_files(targets)[g].resolved by {
            assert(targets[k] == rest[k]);
        }
        n
    } else {
        let n = targets.len() - 1;
        lemma_distinct_files(rest);
        assert forall|k: int| 0 <= k < n implies (#[trigger] targets[k]).resolved
            != distinct_files(targets)[g].resolved by {
            assert(targets[k] == rest[k]);
            assert(has_file(earlier, rest[k]));
            let i = choose|i: int|
                0 <= i < earlier.len() && (#[trigger] earlier[i]).resolved == rest[k].resolved;
            assert(!has_file(earlier, targets.last()));
            assert(earlier[i].resolved != targets.last().resolved);
        }
        n
    }
}

/// The entries are those of the groups whose file is rewritten.
proof fn lemma_entries(
    groups: Seq<GroupView>,
    files: Map<Seq<path::PartView>, Seq<u8>>,
    writable: Set<Seq<path::PartView>>,
    entry: FixView,
)
    ensures
        entries(groups, files, writable).contains(entry) <==> exists|g: int|
            0 <= g < groups.len() && outcome(#[trigger] groups[g], files, writable) is Some && entry
                == entry_for(groups[g], outcome(groups[g], files, writable)->0),
    decreases groups.len(),
{
    if groups.len() > 0 {
        let rest = groups.drop_last();
        let last = groups.last();
        let earlier = entries(rest, files, writable);
        let now = entries(groups, files, writable);
        lemma_entries(rest, files, writable, entry);
        assert(groups[groups.len() - 1] == last);
        if now.contains(entry) {
            let k = choose|k: int| 0 <= k < now.len() && now[k] == entry;
            if k < earlier.len() {
                assert(earlier[k] == entry);
                let g = choose|g: int|
                    0 <= g < rest.len() && outcome(#[trigger] rest[g], files, writable) is Some
                        && entry == entry_for(rest[g], outcome(rest[g], files, writable)->0);
                assert(groups[g] == rest[g]);
            }
        }
        if exists|g: int|
            0 <= g < groups.len() && outcome(#[trigger] groups[g], files, writable) is Some && entry
                == entry_for(groups[g], outcome(groups[g], files, writable)->0) {
            let g = choose|g: int|
                0 <= g < groups.len() && outcome(#[trigger] groups[g], files, writable) is Some
                    && entry == entry_for(groups[g], outcome(groups[g], files, writable)->0);
            if g < rest.len() {
                assert(rest[g] == groups[g]);
                let k = choose|k: int| 0 <= k < earlier.len() && earlier[k] == entry;
                assert(now[k] == entry);
            } else {
                assert(now[now.len() - 1] == entry);
            }
        }
    }
}

/// What becomes of the file of a group.
proof fn lemma_content_of_group(
    groups: Seq<GroupView>,
    files: Map<Seq<path::PartView>, Seq<u8>>,
    writable: Set<Seq<path::PartView>>,
    g: int,
)
    requires
        groups_differ(groups),
        0 <= g < groups.len(),
    ensures
        content_after(groups, files, writable, groups[g].file.resolved) == match outcome(
            groups[g],
            files,
            writable,
        ) {
            Some(rewrite) => rewrite.content,
            None => files[groups[g].file.resolved],
        },
    decreases groups.len(),
{
    let rest = groups.drop_last();
    let key = groups[g].file.resolved;
    assert(groups[groups.len() - 1] == groups.last());
    assert forall|i: int, j: int| 0 <= i < j < rest.len() implies (
    #[trigger] rest[i]).file.resolved != (#[trigger] rest[j]).file.resolved by {
        assert(rest[i] == groups[i] && rest[j] == groups[j]);
    }
    if g < rest.len() {
        assert(rest[g] == groups[g]);
        lemma_content_of_group(rest, files, writable, g);
        assert(groups.last().file.resolved != key);
    } else {
        assert forall|i: int| 0 <= i < rest.len() implies (
        #[trigger] rest[i]).file.resolved != key by {
            assert(rest[i] == groups[i]);
        }
        lemma_other_files_stay(rest, files, writable, key);
    }
}

/// Carried out on any files, a run leaves the file of each group as all its suggestions make
/// it of what the file held, and reports it with their number and lints, if and only if the
/// file is there, can be written, and at least one suggestion applies; else it leaves the file
/// as it is and does not report it. A file of no group stays as it is.
pub proof fn law_what_becomes_of_each_file(
    groups: Seq<GroupView>,
    files: Map<Seq<path::PartView>, Seq<u8>>,
    writable: Set<Seq<path::PartView>>,
    g: int,
    other: Seq<path::PartView>,
)
    requires
        groups_differ(groups),
        0 <= g < groups.len(),
    ensures
        ({
            let end = carried_out(run_start(groups), files, writable);
            let key = groups[g].file.resolved;
            let rewrite = edit::rewritten(files[key], groups[g].suggestions);
            let applies = files.dom().contains(key) && writable.contains(key) && rewrite.applied > 0;
            &&& applies ==> end.1[key] == rewrite.content && end.0.fixes.contains(
                FixView {
                    file: groups[g].file,
                    applied: rewrite.applied,
                    lints: rewrite.lints,
                },
            )
            &&& !applies && files.dom().contains(key) ==> end.1[key] == files[key]
            &&& !applies ==> forall|i: int|
                0 <= i < end.0.fixes.len() ==> (#[trigger] end.0.fixes[i]).file.resolved != key
            &&& end.1.dom() == files.dom()
            &&& files.dom().contains(other) && (forall|k: int|
                0 <= k < groups.len() ==> (#[trigger] groups[k]).file.resolved != other)
                ==> end.1[other] == files[other]
        }),
{
    let end = carried_out(run_start(groups), files, writable);
    let key = groups[g].file.resolved;
    let rewrite = edit::rewritten(files[key], groups[g].suggestions);
    let applies = files.dom().contains(key) && writable.contains(key) && rewrite.applied > 0;
    law_files_are_rewritten_from_their_first_content(groups, files, writable);
    lemma_content_of_group(groups, files, writable, g);
    if applies {
        let entry = entry_for(groups[g], rewrite);
        assert(outcome(groups[g], files, writable) == Some(rewrite));
        lemma_entries(groups, files, writable, entry);
    } else {
        assert(outcome(groups[g], files, writable) is None);
        assert forall|i: int| 0 <= i < end.0.fixes.len() implies (
        #[trigger] end.0.fixes[i]).file.resolved != key by {
            let entry = end.0.fixes[i];
            assert(entries(groups, files, writable).contains(entry));
            lemma_entries(groups, files, writable, entry);
            let k = choose|k: int|
                0 <= k < groups.len() && outcome(#[trigger] groups[k], files, writable) is Some
                    && entry == entry_for(groups[k], outcome(groups[k], files, writable)->0);
            assert(k != g);
            if k < g {
                assert(groups[k].file.resolved != groups[g].file.resolved);
            } else {
                assert(groups[g].file.resolved != groups[k].file.resolved);
            }
        }
    }
    assert(end.1.dom() =~= files.dom());
    if forall|k: int| 0 <= k < groups.len() ==> (#[trigger] groups[k]).file.resolved != other {
        lemma_other_files_stay(groups, files, writable, other);
    }
}

/// Whatever suggestions there are: the file that a suggestion is for is left as all
/// suggestions whose targets resolve to it make it of what it held, and reported once with
/// their number and lints, if and only if it resolves to a path at or below the root, is
/// there, can be written, and at least one of them applies; else it stays as it is. So does
/// every file that no suggestion is for.
pub proof fn law_suggestions_reach_their_files(
    targets: Seq<path::PathView>,
    list: Seq<suggestion::SuggestionView>,
    root: path::PathView,
    files: Map<Seq<path::PartView>, Seq<u8>>,
    writable: Set<Seq<path::PartView>>,
    key: Seq<path::PartView>,
)
    requires
        targets.len() == list.len(),
        files.dom().contains(key),
    ensures
        ({
            let end = carried_out(start_of(targets, list, root), files, writable);
            let mine = targets.zip_with(list).filter(
                |pair: (path::PathView, suggestion::SuggestionView)| pair.0.resolved == key,
            ).map_values(|pair: (path::PathView, suggestion::SuggestionView)| pair.1);
            let rewrite = edit::rewritten(files[key], mine);
            let named = exists|n: int|
                0 <= n < targets.len() && (#[trigger] targets[n]).resolved == key;
            let applies = named && root.resolved.is_prefix_of(key) && writable.contains(key)
                && rewrite.applied > 0;
            &&& end.0.stage is Finished
            &&& end.1.dom() == files.dom()
            &&& applies ==> end.1[key] == rewrite.content
            &&& !applies ==> end.1[key] == files[key]
            &&& applies <==> exists|i: int|
                0 <= i < end.0.fixes.len() && (#[trigger] end.0.fixes[i]).file.resolved == key
            &&& forall|i: int|
                0 <= i < end.0.fixes.len() && (#[trigger] end.0.fixes[i]).file.resolved == key
                    ==> end.0.fixes[i].applied == rewrite.applied && end.0.fixes[i].lints
                    == rewrite.lints && targets.contains(end.0.fixes[i].file)
        }),
{
    let all = grouped(targets, list);
    let groups = inside(all, root);
    let files_of = distinct_files(targets);
    let end = carried_out(start_of(targets, list, root), files, writable);
    let pairs = targets.zip_with(list);
    let mine = pairs.filter(
        |pair: (path::PathView, suggestion::SuggestionView)| pair.0.resolved == key,
    ).map_values(|pair: (path::PathView, suggestion::SuggestionView)| pair.1);
    let rewrite = edit::rewritten(files[key], mine);
    lemma_grouped_differ(targets, list);
    lemma_inside(all, root);
    lemma_distinct_files(targets);
    lemma_distinct_files_are_targets(targets);
    law_files_are_rewritten_from_their_first_content(groups, files, writable);
    let named = exists|n: int| 0 <= n < targets.len() && (#[trigger] targets[n]).resolved == key;
    if named && root.resolved.is_prefix_of(key) {
        let n = choose|n: int| 0 <= n < targets.len() && (#[trigger] targets[n]).resolved == key;
        assert(has_file(files_of, targets[n]));
        let a = choose|a: int|
            0 <= a < files_of.len() && (#[trigger] files_of[a]).resolved == targets[n].resolved;
        let group = all[a];
        assert(group.file == files_of[a]);
        assert(all.contains(group));
        assert(groups.contains(group));
        let g = choose|g: int| 0 <= g < groups.len() && groups[g] == group;
        lemma_suggestions_are_filtered(targets, list, group.file);
        assert(group.suggestions == mine) by {
            assert(pairs.filter(
                |pair: (path::PathView, suggestion::SuggestionView)|
                    pair.0.resolved == group.file.resolved,
            ) =~= pairs.filter(
                |pair: (path::PathView, suggestion::SuggestionView)| pair.0.resolved == key,
            ));
        }
        law_what_becomes_of_each_file(groups, files, writable, g, key);
        let entry = FixView {
            file: groups[g].file,
            applied: rewrite.applied,
            lints: rewrite.lints,
        };
        assert forall|i: int|
            0 <= i < end.0.fixes.len() && (#[trigger] end.0.fixes[i]).file.resolved
                == key implies end.0.fixes[i] == entry by {
            lemma_entry_of_its_group(groups, files, writable, g, i);
        }
        if writable.contains(key) && rewrite.applied > 0 {
            assert(end.0.fixes.contains(entry));
            let i = choose|i: int| 0 <= i < end.0.fixes.len() && end.0.fixes[i] == entry;
            assert(end.0.fixes[i].file.resolved == key);
        }
        assert(targets.contains(files_of[a]));
    } else {
        assert forall|k: int| 0 <= k < groups.len() implies (
        #[trigger] groups[k]).file.resolved != key by {
            assert(groups.contains(groups[k]));
            let a = choose|a: int| 0 <= a < all.len() && all[a] == groups[k];
            assert(all[a].file == files_of[a]);
            assert(targets.contains(files_of[a]));
            let n = choose|n: int| 0 <= n < targets.len() && targets[n] == files_of[a];
            assert(targets[n].resolved == groups[k].file.resolved);
        }
        lemma_other_files_stay(groups, files, writable, key);
        assert forall|i: int| 0 <= i < end.0.fixes.len() implies (
        #[trigger] end.0.fixes[i]).file.resolved != key by {
            let entry = end.0.fixes[i];
            assert(entries(groups, files, writable).contains(entry));
            lemma_entries(groups, files, writable, entry);
        }
    }
    assert(end.1.dom() =~= files.dom());
}

/// An entry for the file of a group is the one of that group.
proof fn lemma_entry_of_its_group(
    groups: Seq<GroupView>,
    files: Map<Seq<path::PartView>, Seq<u8>>,
    writable: Set<Seq<path::PartView>>,
    g: int,
    i: int,
)
    requires
        groups_differ(groups),
        0 <= g < groups.len(),
        0 <= i < entries(groups, files, writable).len(),
        entries(groups, files, writable)[i].file.resolved == groups[g].file.resolved,
    ensures
        outcome(groups[g], files, writable) is Some,
        entries(groups, files, writable)[i] == entry_for(
            groups[g],
            outcome(groups[g], files, writable)->0,
        ),
{
    let entry = entries(groups, files, writable)[i];
    assert(entries(groups, files, writable).contains(entry));
    lemma_entries(groups, files, writable, entry);
    let k = choose|k: int|
        0 <= k < groups.len() && outcome(#[trigger] groups[k], files, writable) is Some && entry
            == entry_for(groups[k], outcome(groups[k], files, writable)->0);
    if k < g {
        assert(groups[k].file.resolved != groups[g].file.resolved);
    } else if k > g {
        assert(groups[g].file.resolved != groups[k].file.resolved);
    }
}

/// Whether no two different suggestions for one file have one range.
pub open spec fn ranges_differ(
    targets: Seq<path::PathView>,
    list: Seq<suggestion::SuggestionView>,
) -> bool {
    forall|i: int, j: int|
        0 <= i < list.len() && 0 <= j < list.len() && (#[trigger] targets[i]).resolved == (
        #[trigger] targets[j]).resolved && list[i].byte_start == list[j].byte_start
            && list[i].byte_end == list[j].byte_end ==> list[i] == list[j]
}

/// Whether no file is named by two different paths.
pub open spec fn one_name_each(targets: Seq<path::PathView>) -> bool {
    forall|i: int, j: int|
        0 <= i < targets.len() && 0 <= j < targets.len() && (#[trigger] targets[i]).resolved == (
        #[trigger] targets[j]).resolved ==> targets[i] == targets[j]
}

/// One suggestion less is one less for its file.
proof fn lemma_suggestions_without(
    targets: Seq<path::PathView>,
    list: Seq<suggestion::SuggestionView>,
    file: path::PathView,
    k: int,
)
    requires
        targets.len() == list.len(),
        0 <= k < list.len(),
    ensures
        suggestions_for(targets, list, file).to_multiset() == if targets[k].resolved
            == file.resolved {
            suggestions_for(targets.remove(k), list.remove(k), file).to_multiset().insert(list[k])
        } else {
            suggestions_for(targets.remove(k), list.remove(k), file).to_multiset()
        },
    decreases list.len(),
{
    broadcast use vstd::seq_lib::group_to_multiset_ensures;

    let t = targets.drop_last();
    let l = list.drop_last();
    if k == list.len() - 1 {
        assert(targets.remove(k) =~= t);
        assert(list.remove(k) =~= l);
    } else {
        lemma_suggestions_without(t, l, file, k);
        assert(targets.remove(k).drop_last() =~= t.remove(k));
        assert(list.remove(k).drop_last() =~= l.remove(k));
        assert(targets.remove(k).last() == targets.last());
        assert(list.remove(k).last() == list.last());
        let less = suggestions_for(t.remove(k), l.remove(k), file).to_multiset();
        assert(less.insert(list[k]).insert(list.last()) =~= less.insert(list.last()).insert(
            list[k],
        ));
    }
}

/// The same suggestions in another order are the same for each file.
proof fn lemma_suggestions_in_any_order(
    targets: Seq<path::PathView>,
    list: Seq<suggestion::SuggestionView>,
    targets2: Seq<path::PathView>,
    list2: Seq<suggestion::SuggestionView>,
    file: path::PathView,
)
    requires
        targets.len() == list.len(),
        targets2.len() == list2.len(),
        targets.zip_with(list).to_multiset() == targets2.zip_with(list2).to_multiset(),
    ensures
        suggestions_for(targets, list, file).to_multiset() == suggestions_for(
            targets2,
            list2,
            file,
        ).to_multiset(),
    decreases list.len(),
{
    broadcast use vstd::seq_lib::group_to_multiset_ensures;

    let pairs = targets.zip_with(list);
    let pairs2 = targets2.zip_with(list2);
    assert(pairs.len() == pairs.to_multiset().len());
    assert(pairs2.len() == pairs2.to_multiset().len());
    if list.len() > 0 {
        let n = list.len() - 1;
        let x = (targets[n], list[n]);
        assert(pairs[n] == x);
        assert(pairs.contains(x));
        assert(pairs.to_multiset().count(x) > 0);
        assert(pairs2.contains(x));
        let k = choose|k: int| 0 <= k < pairs2.len() && pairs2[k] == x;
        let t = targets.remove(n);
        let l = list.remove(n);
        let t2 = targets2.remove(k);
        let l2 = list2.remove(k);
        assert(t.zip_with(l) =~= pairs.remove(n));
        assert(t2.zip_with(l2) =~= pairs2.remove(k));
        lemma_suggestions_in_any_order(t, l, t2, l2, file);
        lemma_suggestions_without(targets, list, file, n);
        lemma_suggestions_without(targets2, list2, file, k);
    }
}

/// A suggestion for a file is one of the list, with a target that is the file.
proof fn lemma_suggestions_are_for_the_file(
    targets: Seq<path::PathView>,
    list: Seq<suggestion::SuggestionView>,
    file: path::PathView,
    s: suggestion::SuggestionView,
) -> (n: int)
    requires
        targets.len() == list.len(),
        suggestions_for(targets, list, file).contains(s),
    ensures
        0 <= n < list.len(),
        targets[n].resolved == file.resolved,
        list[n] == s,
    decreases list.len(),
{
    let now = suggestions_for(targets, list, file);
    let k = choose|k: int| 0 <= k < now.len() && now[k] == s;
    if targets.len() == 0 {
        0
    } else {
        let earlier = suggestions_for(targets.drop_last(), list.drop_last(), file);
        if k < earlier.len() {
            assert(earlier[k] == s);
            lemma_suggestions_are_for_the_file(targets.drop_last(), list.drop_last(), file, s)
        } else {
            list.len() - 1
        }
    }
}

/// Where no two different suggestions for one file have one range, what becomes of a file
/// does not depend on the order in which the suggestions come.
pub proof fn law_each_file_is_rewritten_alike_in_any_order(
    targets: Seq<path::PathView>,
    list: Seq<suggestion::SuggestionView>,
    targets2: Seq<path::PathView>,
    list2: Seq<suggestion::SuggestionView>,
    file: path::PathView,
    content: Seq<u8>,
)
    requires
        targets.len() == list.len(),
        targets2.len() == list2.len(),
        targets.zip_with(list).to_multiset() == targets2.zip_with(list2).to_multiset(),
        ranges_differ(targets, list),
    ensures
        edit::rewritten(content, suggestions_for(targets, list, file)) == edit::rewritten(
            content,
            suggestions_for(targets2, list2, file),
        ),
{
    let mine = suggestions_for(targets, list, file);
    lemma_suggestions_in_any_order(targets, list, targets2, list2, file);
    assert forall|a: suggestion::SuggestionView, b: suggestion::SuggestionView|
        #![trigger mine.contains(a), mine.contains(b)]
        mine.contains(a) && mine.contains(b) && a.byte_start == b.byte_start && a.byte_end
            == b.byte_end implies a == b by {
        let i = lemma_suggestions_are_for_the_file(targets, list, file, a);
        let j = lemma_suggestions_are_for_the_file(targets, list, file, b);
        assert(targets[i].resolved == targets[j].resolved);
    }
    edit::law_order_of_suggestions_is_irrelevant(
        content,
        mine,
        suggestions_for(targets2, list2, file),
    );
}

/// Each of the distinct files is one of the targets.
proof fn lemma_distinct_files_are_targets(targets: Seq<path::PathView>)
    ensures
        forall|i: int|
            0 <= i < distinct_files(targets).len() ==> targets.contains(
                #[trigger] distinct_files(targets)[i],
            ),
    decreases targets.len(),
{
    if targets.len() > 0 {
        let rest = targets.drop_last();
        let earlier = distinct_files(rest);
        lemma_distinct_files_are_targets(rest);
        assert forall|i: int| 0 <= i < distinct_files(targets).len() implies targets.contains(
            #[trigger] distinct_files(targets)[i],
        ) by {
            if i < earlier.len() {
                assert(distinct_files(targets)[i] == earlier[i]);
                let k = choose|k: int| 0 <= k < rest.len() && rest[k] == earlier[i];
                assert(targets[k] == earlier[i]);
            } else {
                assert(targets[targets.len() - 1] == targets.last());
            }
        }
    }
}

/// The same suggestions in another order have the same targets.
proof fn lemma_targets_in_any_order(
    targets: Seq<path::PathView>,
    list: Seq<suggestion::SuggestionView>,
    targets2: Seq<path::PathView>,
    list2: Seq<suggestion::SuggestionView>,
    file: path::PathView,
)
    requires
        targets.len() == list.len(),
        targets2.len() == list2.len(),
        targets.zip_with(list).to_multiset() == targets2.zip_with(list2).to_multiset(),
        targets.contains(file),
    ensures
        targets2.contains(file),
{
    broadcast use vstd::seq_lib::group_to_multiset_ensures;

    let pairs = targets.zip_with(list);
    let pairs2 = targets2.zip_with(list2);
    let n = choose|n: int| 0 <= n < targets.len() && targets[n] == file;
    let x = (targets[n], list[n]);
    assert(pairs[n] == x);
    assert(pairs.contains(x));
    assert(pairs.to_multiset().count(x) > 0);
    assert(pairs2.contains(x));
    let k = choose|k: int| 0 <= k < pairs2.len() && pairs2[k] == x;
    assert(targets2[k] == file);
}

/// Each group has a counterpart for the same file where the same suggestions come in
/// another order.
proof fn lemma_groups_in_any_order(
    targets: Seq<path::PathView>,
    list: Seq<suggestion::SuggestionView>,
    targets2: Seq<path::PathView>,
    list2: Seq<suggestion::SuggestionView>,
    root: path::PathView,
    g: int,
) -> (h: int)
    requires
        targets.len() == list.len(),
        targets2.len() == list2.len(),
        targets.zip_with(list).to_multiset() == targets2.zip_with(list2).to_multiset(),
        one_name_each(targets),
        0 <= g < inside(grouped(targets, list), root).len(),
    ensures
        0 <= h < inside(grouped(targets2, list2), root).len(),
        ({
            let group = inside(grouped(targets, list), root)[g];
            let group2 = inside(grouped(targets2, list2), root)[h];
            &&& group2.file == group.file
            &&& group.suggestions == suggestions_for(targets, list, group.file)
            &&& group2.suggestions == suggestions_for(targets2, list2, group.file)
        }),
{
    let groups = grouped(targets, list);
    let groups2 = grouped(targets2, list2);
    let group = inside(groups, root)[g];
    lemma_inside(groups, root);
    lemma_inside(groups2, root);
    assert(inside(groups, root).contains(group));
    let a = choose|a: int| 0 <= a < groups.len() && groups[a] == group;
    let file = distinct_files(targets)[a];
    assert(group.file == file);
    lemma_distinct_files_are_targets(targets);
    lemma_distinct_files_are_targets(targets2);
    assert(targets.contains(file));
    lemma_targets_in_any_order(targets, list, targets2, list2, file);
    let m = choose|m: int| 0 <= m < targets2.len() && targets2[m] == file;
    lemma_distinct_files(targets2);
    assert(has_file(distinct_files(targets2), targets2[m]));
    let b = choose|b: int|
        0 <= b < distinct_files(targets2).len() && (
        #[trigger] distinct_files(targets2)[b]).resolved == file.resolved;
    let file2 = distinct_files(targets2)[b];
    assert(targets2.contains(file2));
    lemma_targets_in_any_order(targets2, list2, targets, list, file2);
    let i = choose|i: int| 0 <= i < targets.len() && targets[i] == file;
    let j = choose|j: int| 0 <= j < targets.len() && targets[j] == file2;
    assert(targets[i].resolved == targets[j].resolved);
    assert(file == file2);
    let group2 = groups2[b];
    assert(group2.file == file);
    assert(groups2.contains(group2));
    assert(inside(groups2, root).contains(group2));
    choose|h: int| 0 <= h < inside(groups2, root).len() && inside(groups2, root)[h] == group2
}

/// What the same suggestions in another order leave behind and report is among what they
/// leave behind and report in this order.
proof fn lemma_effects_in_any_order(
    targets: Seq<path::PathView>,
    list: Seq<suggestion::SuggestionView>,
    targets2: Seq<path::PathView>,
    list2: Seq<suggestion::SuggestionView>,
    root: path::PathView,
    files: Map<Seq<path::PartView>, Seq<u8>>,
    writable: Set<Seq<path::PartView>>,
)
    requires
        targets.len() == list.len(),
        targets2.len() == list2.len(),
        targets.zip_with(list).to_multiset() == targets2.zip_with(list2).to_multiset(),
        ranges_differ(targets, list),
        one_name_each(targets),
    ensures
        ({
            let groups = inside(grouped(targets, list), root);
            let groups2 = inside(grouped(targets2, list2), root);
            &&& forall|g: int|
                0 <= g < groups.len() ==> content_after(
                    groups,
                    files,
                    writable,
                    (#[trigger] groups[g]).file.resolved,
                ) == content_after(groups2, files, writable, groups[g].file.resolved)
            &&& forall|g: int|
                0 <= g < groups.len() ==> exists|h: int|
                    0 <= h < groups2.len() && (#[trigger] groups2[h]).file == (
                    #[trigger] groups[g]).file && outcome(groups2[h], files, writable) == outcome(
                        groups[g],
                        files,
                        writable,
                    )
        }),
{
    let groups = inside(grouped(targets, list), root);
    let groups2 = inside(grouped(targets2, list2), root);
    lemma_grouped_differ(targets, list);
    lemma_grouped_differ(targets2, list2);
    lemma_inside(grouped(targets, list), root);
    lemma_inside(grouped(targets2, list2), root);
    assert forall|g: int| 0 <= g < groups.len() implies ({
        &&& content_after(groups, files, writable, (#[trigger] groups[g]).file.resolved)
            == content_after(groups2, files, writable, groups[g].file.resolved)
        &&& exists|h: int|
            0 <= h < groups2.len() && (#[trigger] groups2[h]).file == groups[g].file && outcome(
                groups2[h],
                files,
                writable,
            ) == outcome(groups[g], files, writable)
    }) by {
        let h = lemma_groups_in_any_order(targets, list, targets2, list2, root, g);
        let key = groups[g].file.resolved;
        law_each_file_is_rewritten_alike_in_any_order(
            targets,
            list,
            targets2,
            list2,
            groups[g].file,
            files[key],
        );
        lemma_content_of_group(groups, files, writable, g);
        lemma_content_of_group(groups2, files, writable, h);
        assert(outcome(groups2[h], files, writable) == outcome(groups[g], files, writable));
    }
}

/// Where no two different suggestions for one file have one range and no file is named by
/// two different paths, the order in which the suggestions come changes neither what any
/// file holds in the end nor which entries are reported.
pub proof fn law_order_of_suggestions_changes_nothing(
    targets: Seq<path::PathView>,
    list: Seq<suggestion::SuggestionView>,
    targets2: Seq<path::PathView>,
    list2: Seq<suggestion::SuggestionView>,
    root: path::PathView,
    files: Map<Seq<path::PartView>, Seq<u8>>,
    writable: Set<Seq<path::PartView>>,
)
    requires
        targets.len() == list.len(),
        targets2.len() == list2.len(),
        targets.zip_with(list).to_multiset() == targets2.zip_with(list2).to_multiset(),
        ranges_differ(targets, list),
        one_name_each(targets),
    ensures
        ({
            let end = carried_out(
                run_start(inside(grouped(targets, list), root)),
                files,
                writable,
            );
            let end2 = carried_out(
                run_start(inside(grouped(targets2, list2), root)),
                files,
                writable,
            );
            &&& end.1 == end2.1
            &&& end.0.fixes.to_set() == end2.0.fixes.to_set()
        }),
{
    let groups = inside(grouped(targets, list), root);
    let groups2 = inside(grouped(targets2, list2), root);
    lemma_grouped_differ(targets, list);
    lemma_grouped_differ(targets2, list2);
    lemma_inside(grouped(targets, list), root);
    lemma_inside(grouped(targets2, list2), root);
    law_files_are_rewritten_from_their_first_content(groups, files, writable);
    law_files_are_rewritten_from_their_first_content(groups2, files, writable);
    lemma_conditions_in_any_order(targets, list, targets2, list2);
    lemma_effects_in_any_order(targets, list, targets2, list2, root, files, writable);
    lemma_effects_in_any_order(targets2, list2, targets, list, root, files, writable);
    assert forall|key: Seq<path::PartView>| content_after(groups, files, writable, key)
        == content_after(groups2, files, writable, key) by {
        if exists|g: int| 0 <= g < groups.len() && (#[trigger] groups[g]).file.resolved == key {
            let g = choose|g: int|
                0 <= g < groups.len() && (#[trigger] groups[g]).file.resolved == key;
            assert(groups[g].file.resolved == key);
        } else if exists|h: int|
            0 <= h < groups2.len() && (#[trigger] groups2[h]).file.resolved == key {
            let h = choose|h: int|
                0 <= h < groups2.len() && (#[trigger] groups2[h]).file.resolved == key;
            assert(groups2[h].file.resolved == key);
        } else {
            lemma_other_files_stay(groups, files, writable, key);
            lemma_other_files_stay(groups2, files, writable, key);
        }
    }
    assert(files_after(groups, files, writable) =~= files_after(groups2, files, writable));
    let mine = entries(groups, files, writable);
    let others = entries(groups2, files, writable);
    assert forall|entry: FixView| mine.contains(entry) == others.contains(entry) by {
        lemma_entries(groups, files, writable, entry);
        lemma_entries(groups2, files, writable, entry);
        if mine.contains(entry) {
            let g = choose|g: int|
                0 <= g < groups.len() && outcome(#[trigger] groups[g], files, writable) is Some
                    && entry == entry_for(groups[g], outcome(groups[g], files, writable)->0);
            let h = choose|h: int|
                0 <= h < groups2.len() && (#[trigger] groups2[h]).file == groups[g].file && outcome(
                    groups2[h],
                    files,
                    writable,
                ) == outcome(groups[g], files, writable);
            assert(entry == entry_for(groups2[h], outcome(groups2[h], files, writable)->0));
        }
        if others.contains(entry) {
            let h = choose|h: int|
                0 <= h < groups2.len() && outcome(#[trigger] groups2[h], files, writable) is Some
                    && entry == entry_for(groups2[h], outcome(groups2[h], files, writable)->0);
            let g = choose|g: int|
                0 <= g < groups.len() && (#[trigger] groups[g]).file == groups2[h].file && outcome(
                    groups[g],
                    files,
                    writable,
                ) == outcome(groups2[h], files, writable);
            assert(entry == entry_for(groups[g], outcome(groups[g], files, writable)->0));
        }
    }
    assert(mine.to_set() =~= others.to_set());
}

/// What is asked of suggestions in one order holds of them in any other.
proof fn lemma_conditions_in_any_order(
    targets: Seq<path::PathView>,
    list: Seq<suggestion::SuggestionView>,
    targets2: Seq<path::PathView>,
    list2: Seq<suggestion::SuggestionView>,
)
    requires
        targets.len() == list.len(),
        targets2.len() == list2.len(),
        targets.zip_with(list).to_multiset() == targets2.zip_with(list2).to_multiset(),
        ranges_differ(targets, list),
        one_name_each(targets),
    ensures
        ranges_differ(targets2, list2),
        one_name_each(targets2),
{
    broadcast use vstd::seq_lib::group_to_multiset_ensures;

    let pairs = targets.zip_with(list);
    let pairs2 = targets2.zip_with(list2);
    assert(pairs2.len() == pairs2.to_multiset().len());
    assert forall|i: int| 0 <= i < list2.len() implies exists|k: int|
        0 <= k < list.len() && (#[trigger] targets[k]) == (#[trigger] targets2[i]) && list[k]
            == list2[i] by {
        let x = (targets2[i], list2[i]);
        assert(pairs2[i] == x);
        assert(pairs2.contains(x));
        assert(pairs2.to_multiset().count(x) > 0);
        assert(pairs.contains(x));
        let k = choose|k: int| 0 <= k < pairs.len() && pairs[k] == x;
        assert(targets[k] == targets2[i] && list[k] == list2[i]);
    }
}

impl ApplyRun {
    /// A run over `groups` before its first event.
    pub fn new(groups: Vec<FileGroup>) -> (r: ApplyRun)
        ensures
            r@ == run_start(group_views(groups@)),
            r@.valid(),
    {
        let stage = if groups.len() > 0 {
            ApplyStage::Read
        } else {
            ApplyStage::Finished
        };
        let r = ApplyRun { groups, at: 0, stage, fixes: Vec::new() };
        assert(r@.fixes =~= Seq::empty());
        r
    }

    /// The file at hand, unless all were dealt with.
    pub fn file(&self) -> (r: Option<&FilePath>)
        requires
            self@.valid(),
        ensures
            match r {
                Some(file) => self@.at < self@.groups.len() && file@
                    == self@.groups[self@.at].file,
                None => self@.stage is Finished,
            },
    {
        if self.at < self.groups.len() {
            assert(self@.groups[self@.at] == self.groups@[self.at as int]@);
            Some(&self.groups[self.at].file)
        } else {
            None
        }
    }

    /// Turns to the next file.
    fn turn(&mut self)
        requires
            old(self).at < old(self).groups.len(),
        ensures
            final(self)@ == old(self)@.turned_to(old(self).at + 1),
    {
        self.at = self.at + 1;
        self.stage =
        if self.at < self.groups.len() {
            ApplyStage::Read
        } else {
            ApplyStage::Finished
        };
    }

    /// Deals with `event`. One that does not answer the stage changes nothing.
    pub fn step(&mut self, event: ApplyEvent)
        requires
            old(self)@.valid(),
        ensures
            final(self)@ == old(self)@.after(event@),
            final(self)@.valid(),
    {
        let ghost before = self@;
        let mut stage = ApplyStage::Finished;
        core::mem::swap(&mut stage, &mut self.stage);
        match (stage, event) {
            (ApplyStage::Read, ApplyEvent::ReadDone(Some(bytes))) => {
                assert(before.groups[before.at] == self.groups@[self.at as int]@);
                let rewrite = edit::rewrite(bytes, &self.groups[self.at].suggestions);
                if rewrite.applied > 0 {
                    self.stage = ApplyStage::Write(rewrite);
                } else {
                    self.turn();
                }
            },
            (ApplyStage::Read, ApplyEvent::ReadDone(None)) => {
                self.turn();
            },
            (ApplyStage::Write(rewrite), ApplyEvent::WriteDone(written)) => {
                if written {
                    assert(before.groups[before.at] == self.groups@[self.at as int]@);
                    let file = self.groups[self.at].file.clone();
                    let fix = AppliedFileFix {
                        file,
                        applied: rewrite.applied,
                        lints: rewrite.lints,
                    };
                    let ghost entry = fix@;
                    self.fixes.push(fix);
                    assert(fix_views(self.fixes@) =~= before.fixes.push(entry));
                }
                self.turn();
            },
            (stage, _) => {
                self.stage = stage;
            },
        }
    }
}

} // verus!
