//! Suggestions of the linter that can be applied without a person looking at them.

use vstd::prelude::*;

use crate::json;
use crate::json::Json;
use crate::text;

verus! {

/// A suggestion: replace the bytes from `byte_start` up to `byte_end` of a file.
#[derive(Debug, PartialEq, Eq)]
pub struct ClippySuggestion {
    pub file_path: String,
    pub byte_start: usize,
    pub byte_end: usize,
    pub replacement: String,
    /// Lint name (e.g. `clippy::needless_return`), inherited from the parent diagnostic
    /// when the suggestion span lives in a child message.
    pub lint: Option<String>,
}

/// What a suggestion says.
pub struct SuggestionView {
    pub file_path: Seq<char>,
    pub byte_start: usize,
    pub byte_end: usize,
    pub replacement: Seq<char>,
    pub lint: Option<Seq<char>>,
}

impl View for ClippySuggestion {
    type V = SuggestionView;

    open spec fn view(&self) -> SuggestionView {
        SuggestionView {
            file_path: self.file_path@,
            byte_start: self.byte_start,
            byte_end: self.byte_end,
            replacement: self.replacement@,
            lint: text::opt_text(self.lint),
        }
    }
}

impl Clone for ClippySuggestion {
    fn clone(&self) -> (r: Self)
        ensures
            r@ == self@,
    {
        ClippySuggestion {
            file_path: self.file_path.clone(),
            byte_start: self.byte_start,
            byte_end: self.byte_end,
            replacement: self.replacement.clone(),
            lint: match &self.lint {
                Some(lint) => Some(lint.clone()),
                None => None,
            },
        }
    }
}

/// What the suggestions of `list` say.
pub open spec fn views(list: Seq<ClippySuggestion>) -> Seq<SuggestionView> {
    list.map_values(|s: ClippySuggestion| s@)
}

/// The lint that a diagnostic names, or else the one that it inherits.
pub open spec fn lint_of(
    message: json::JsonTree,
    inherited: Option<Seq<char>>,
) -> Option<Seq<char>> {
    match message.member("code"@) {
        Some(code) => match code.text_member("code"@) {
            Some(name) => Some(name),
            None => inherited,
        },
        None => inherited,
    }
}

/// Whether the compiler vouches for the replacement that a span suggests.
pub open spec fn is_machine_applicable(span: json::JsonTree) -> bool {
    span.text_member("suggestion_applicability"@) == Some("MachineApplicable"@)
}

/// The suggestion of a span: one that is machine applicable and says in full what to
/// replace, where, and with what.
pub open spec fn span_suggestion(
    span: json::JsonTree,
    lint: Option<Seq<char>>,
) -> Option<SuggestionView> {
    match (
        span.text_member("suggested_replacement"@),
        span.text_member("file_name"@),
        span.number_member("byte_start"@),
        span.number_member("byte_end"@),
    ) {
        (Some(replacement), Some(file_name), Some(start), Some(end)) => if is_machine_applicable(
            span,
        ) {
            Some(
                SuggestionView {
                    file_path: file_name,
                    byte_start: start as usize,
                    byte_end: end as usize,
                    replacement,
                    lint,
                },
            )
        } else {
            None
        },
        _ => None,
    }
}

/// The suggestions of `spans`, in their order.
pub open spec fn span_suggestions(
    spans: Seq<json::JsonTree>,
    lint: Option<Seq<char>>,
) -> Seq<SuggestionView>
    decreases spans.len(),
{
    if spans.len() == 0 {
        Seq::empty()
    } else {
        let earlier = span_suggestions(spans.drop_last(), lint);
        match span_suggestion(spans.last(), lint) {
            Some(s) => earlier.push(s),
            None => earlier,
        }
    }
}

/// The spans of a diagnostic itself.
pub open spec fn own_spans(message: json::JsonTree) -> Seq<json::JsonTree> {
    match message.items_member("spans"@) {
        Some(spans) => spans,
        None => Seq::empty(),
    }
}

/// The diagnostics directly below a diagnostic.
pub open spec fn own_children(message: json::JsonTree) -> Seq<json::JsonTree> {
    match message.items_member("children"@) {
        Some(children) => children,
        None => Seq::empty(),
    }
}

/// The suggestions of a diagnostic: those of its own spans, then those of its children,
/// which inherit its lint where they name none.
pub open spec fn collected(
    message: json::JsonTree,
    inherited: Option<Seq<char>>,
) -> Seq<SuggestionView>
    decreases message, 0int,
    via collected_decreases
{
    let lint = lint_of(message, inherited);
    span_suggestions(own_spans(message), lint) + match message.items_member("children"@) {
        Some(children) => collected_from_all(children, lint),
        None => Seq::empty(),
    }
}

/// The suggestions of several diagnostics, one after the other.
pub open spec fn collected_from_all(
    messages: Seq<json::JsonTree>,
    inherited: Option<Seq<char>>,
) -> Seq<SuggestionView>
    decreases messages, 1int,
{
    if messages.len() == 0 {
        Seq::empty()
    } else {
        collected_from_all(messages.drop_last(), inherited) + collected(messages.last(), inherited)
    }
}

#[via_fn]
proof fn collected_decreases(message: json::JsonTree, inherited: Option<Seq<char>>) {
    json::lemma_items_are_smaller(message, "children"@);
}

/// The suggestions in one line of the linter's output: those of the diagnostic that it
/// carries, where it is a document that carries one.
pub open spec fn line_suggestions(document: Option<json::JsonTree>) -> Seq<SuggestionView> {
    match document {
        Some(value) => if value.text_member("reason"@) == Some("compiler-message"@) {
            match value.member("message"@) {
                Some(message) => collected(message, None),
                None => Seq::empty(),
            }
        } else {
            Seq::empty()
        },
        None => Seq::empty(),
    }
}

/// The suggestions in several lines of the linter's output.
pub open spec fn all_suggestions(documents: Seq<Option<json::JsonTree>>) -> Seq<SuggestionView>
    decreases documents.len(),
{
    if documents.len() == 0 {
        Seq::empty()
    } else {
        all_suggestions(documents.drop_last()) + line_suggestions(documents.last())
    }
}

/// The suggestions in the linter's output, of which each line is a document of its own.
pub open spec fn output_suggestions(output: Seq<char>) -> Seq<SuggestionView> {
    all_suggestions(text::lines_of(output).map_values(|line: Seq<char>| json::document_of(line)))
}

/// What the document says, where there is one.
pub open spec fn opt_tree(document: Option<Json>) -> Option<json::JsonTree> {
    match document {
        Some(value) => Some(value@),
        None => None,
    }
}

/// The spans of a diagnostic and of all below it.
pub open spec fn all_spans(message: json::JsonTree) -> Seq<json::JsonTree>
    decreases message, 0int,
    via all_spans_decreases
{
    own_spans(message) + match message.items_member("children"@) {
        Some(children) => all_spans_of(children),
        None => Seq::empty(),
    }
}

/// The spans of several diagnostics and of all below them.
pub open spec fn all_spans_of(messages: Seq<json::JsonTree>) -> Seq<json::JsonTree>
    decreases messages, 1int,
{
    if messages.len() == 0 {
        Seq::empty()
    } else {
        all_spans_of(messages.drop_last()) + all_spans(messages.last())
    }
}

#[via_fn]
proof fn all_spans_decreases(message: json::JsonTree) {
    json::lemma_items_are_smaller(message, "children"@);
}

/// Whether neither a diagnostic nor any below it names a lint.
pub open spec fn names_no_lint(message: json::JsonTree) -> bool
    decreases message, 0int,
    via names_no_lint_decreases
{
    &&& lint_of(message, None) is None
    &&& match message.items_member("children"@) {
        Some(children) => none_names_lint(children),
        None => true,
    }
}

/// Whether none of several diagnostics, nor any below them, names a lint.
pub open spec fn none_names_lint(messages: Seq<json::JsonTree>) -> bool
    decreases messages, 1int,
{
    messages.len() > 0 ==> none_names_lint(messages.drop_last()) && names_no_lint(messages.last())
}

#[via_fn]
proof fn names_no_lint_decreases(message: json::JsonTree) {
    json::lemma_items_are_smaller(message, "children"@);
}

/// Whether `s` is the suggestion of a machine applicable one of `spans`.
pub open spec fn comes_from(s: SuggestionView, spans: Seq<json::JsonTree>) -> bool {
    exists|k: int|
        0 <= k < spans.len() && is_machine_applicable(#[trigger] spans[k]) && span_suggestion(
            spans[k],
            s.lint,
        ) == Some(s)
}

/// A suggestion of some spans is one of more spans.
proof fn lemma_comes_from_more(
    s: SuggestionView,
    before: Seq<json::JsonTree>,
    spans: Seq<json::JsonTree>,
    behind: Seq<json::JsonTree>,
)
    requires
        comes_from(s, spans),
    ensures
        comes_from(s, before + spans + behind),
{
    let k = choose|k: int|
        0 <= k < spans.len() && is_machine_applicable(#[trigger] spans[k]) && span_suggestion(
            spans[k],
            s.lint,
        ) == Some(s);
    assert((before + spans + behind)[before.len() + k] == spans[k]);
}

/// The suggestions of spans come from them and carry the lint.
proof fn lemma_span_suggestions(spans: Seq<json::JsonTree>, lint: Option<Seq<char>>)
    ensures
        forall|i: int|
            0 <= i < span_suggestions(spans, lint).len() ==> {
                &&& comes_from(#[trigger] span_suggestions(spans, lint)[i], spans)
                &&& span_suggestions(spans, lint)[i].lint == lint
            },
    decreases spans.len(),
{
    if spans.len() > 0 {
        let rest = spans.drop_last();
        lemma_span_suggestions(rest, lint);
        assert forall|i: int| 0 <= i < span_suggestions(spans, lint).len() implies {
            &&& comes_from(#[trigger] span_suggestions(spans, lint)[i], spans)
            &&& span_suggestions(spans, lint)[i].lint == lint
        } by {
            let s = span_suggestions(spans, lint)[i];
            if i < span_suggestions(rest, lint).len() {
                lemma_comes_from_more(s, Seq::empty(), rest, seq![spans.last()]);
                assert(Seq::empty() + rest + seq![spans.last()] == spans);
            } else {
                assert(spans[spans.len() - 1] == spans.last());
            }
        }
    }
}

/// Every suggestion of a diagnostic is that of a span in it, or below it, for which the
/// compiler vouches.
pub proof fn law_only_machine_applicable_spans_count(
    message: json::JsonTree,
    inherited: Option<Seq<char>>,
)
    ensures
        forall|i: int|
            0 <= i < collected(message, inherited).len() ==> comes_from(
                #[trigger] collected(message, inherited)[i],
                all_spans(message),
            ),
    decreases message, 0int,
{
    let lint = lint_of(message, inherited);
    let own = own_spans(message);
    let mine = span_suggestions(own, lint);
    lemma_span_suggestions(own, lint);
    json::lemma_items_are_smaller(message, "children"@);
    let below = match message.items_member("children"@) {
        Some(children) => all_spans_of(children),
        None => Seq::empty(),
    };
    if let Some(children) = message.items_member("children"@) {
        lemma_only_applicable_spans_of(children, lint);
    }
    assert forall|i: int| 0 <= i < collected(message, inherited).len() implies comes_from(
        #[trigger] collected(message, inherited)[i],
        all_spans(message),
    ) by {
        let s = collected(message, inherited)[i];
        if i < mine.len() {
            assert(s == mine[i]);
            lemma_comes_from_more(s, Seq::empty(), own, below);
            assert(Seq::empty() + own + below == all_spans(message));
        } else {
            let children = message.items_member("children"@).unwrap();
            assert(s == collected_from_all(children, lint)[i - mine.len()]);
            lemma_comes_from_more(s, own, below, Seq::empty());
            assert(own + below + Seq::empty() == all_spans(message));
        }
    }
}

/// The same of several diagnostics.
proof fn lemma_only_applicable_spans_of(
    messages: Seq<json::JsonTree>,
    inherited: Option<Seq<char>>,
)
    ensures
        forall|i: int|
            0 <= i < collected_from_all(messages, inherited).len() ==> comes_from(
                #[trigger] collected_from_all(messages, inherited)[i],
                all_spans_of(messages),
            ),
    decreases messages, 1int,
{
    if messages.len() > 0 {
        let rest = messages.drop_last();
        let last = messages.last();
        let earlier = collected_from_all(rest, inherited);
        lemma_only_applicable_spans_of(rest, inherited);
        law_only_machine_applicable_spans_count(last, inherited);
        assert forall|i: int| 0 <= i < collected_from_all(messages, inherited).len() implies comes_from(
            #[trigger] collected_from_all(messages, inherited)[i],
            all_spans_of(messages),
        ) by {
            let s = collected_from_all(messages, inherited)[i];
            if i < earlier.len() {
                assert(s == earlier[i]);
                lemma_comes_from_more(s, Seq::empty(), all_spans_of(rest), all_spans(last));
                assert(Seq::empty() + all_spans_of(rest) + all_spans(last) == all_spans_of(messages));
            } else {
                assert(s == collected(last, inherited)[i - earlier.len()]);
                lemma_comes_from_more(s, all_spans_of(rest), all_spans(last), Seq::empty());
                assert(all_spans_of(rest) + all_spans(last) + Seq::empty() == all_spans_of(messages));
            }
        }
    }
}

/// Where neither a diagnostic nor any below it names a lint, all its suggestions carry
/// the lint that it inherits.
pub proof fn law_lint_is_inherited(message: json::JsonTree, inherited: Option<Seq<char>>)
    requires
        names_no_lint(message),
    ensures
        forall|i: int|
            0 <= i < collected(message, inherited).len() ==> (
            #[trigger] collected(message, inherited)[i]).lint == inherited,
    decreases message, 0int,
{
    let own = own_spans(message);
    assert(lint_of(message, inherited) == inherited);
    lemma_span_suggestions(own, inherited);
    json::lemma_items_are_smaller(message, "children"@);
    if let Some(children) = message.items_member("children"@) {
        lemma_lint_is_inherited_by_all(children, inherited);
    }
    let mine = span_suggestions(own, inherited);
    assert forall|i: int| 0 <= i < collected(message, inherited).len() implies (
    #[trigger] collected(message, inherited)[i]).lint == inherited by {
        if i < mine.len() {
            assert(collected(message, inherited)[i] == mine[i]);
        } else {
            let children = message.items_member("children"@).unwrap();
            assert(collected(message, inherited)[i] == collected_from_all(children, inherited)[i
                - mine.len()]);
        }
    }
}

/// The same of several diagnostics.
proof fn lemma_lint_is_inherited_by_all(
    messages: Seq<json::JsonTree>,
    inherited: Option<Seq<char>>,
)
    requires
        none_names_lint(messages),
    ensures
        forall|i: int|
            0 <= i < collected_from_all(messages, inherited).len() ==> (
            #[trigger] collected_from_all(messages, inherited)[i]).lint == inherited,
    decreases messages, 1int,
{
    if messages.len() > 0 {
        let rest = messages.drop_last();
        let last = messages.last();
        let earlier = collected_from_all(rest, inherited);
        lemma_lint_is_inherited_by_all(rest, inherited);
        law_lint_is_inherited(last, inherited);
        assert forall|i: int| 0 <= i < collected_from_all(messages, inherited).len() implies (
        #[trigger] collected_from_all(messages, inherited)[i]).lint == inherited by {
            if i < earlier.len() {
                assert(collected_from_all(messages, inherited)[i] == earlier[i]);
            } else {
                assert(collected_from_all(messages, inherited)[i] == collected(last, inherited)[i
                    - earlier.len()]);
            }
        }
    }
}

/// The suggestions of spans are those of each span that has one, in their order.
proof fn lemma_span_suggestions_in_order(spans: Seq<json::JsonTree>, lint: Option<Seq<char>>)
    ensures
        span_suggestions(spans, lint) == spans.map_values(
            |span: json::JsonTree| span_suggestion(span, lint),
        ).filter(|s: Option<SuggestionView>| s is Some).map_values(
            |s: Option<SuggestionView>| s->0,
        ),
    decreases spans.len(),
{
    reveal(Seq::filter);
    let found = spans.map_values(|span: json::JsonTree| span_suggestion(span, lint));
    if spans.len() > 0 {
        let rest = spans.drop_last();
        lemma_span_suggestions_in_order(rest, lint);
        assert(found.drop_last() =~= rest.map_values(
            |span: json::JsonTree| span_suggestion(span, lint),
        ));
        assert(found.last() == span_suggestion(spans.last(), lint));
    }
    assert(span_suggestions(spans, lint) =~= found.filter(
        |s: Option<SuggestionView>| s is Some,
    ).map_values(|s: Option<SuggestionView>| s->0));
}

/// The suggestions of several diagnostics are those of each, one after the other.
proof fn lemma_collected_in_order(messages: Seq<json::JsonTree>, lint: Option<Seq<char>>)
    ensures
        collected_from_all(messages, lint) == messages.map_values(
            |message: json::JsonTree| collected(message, lint),
        ).flatten(),
    decreases messages.len(),
{
    let each = messages.map_values(|message: json::JsonTree| collected(message, lint));
    if messages.len() > 0 {
        let rest = messages.drop_last();
        lemma_collected_in_order(rest, lint);
        let earlier = rest.map_values(|message: json::JsonTree| collected(message, lint));
        assert(each =~= earlier.push(collected(messages.last(), lint)));
        earlier.lemma_flatten_push(collected(messages.last(), lint));
    }
}

/// The suggestions of a diagnostic are those of its own spans, in their order, and behind
/// them those of each of its children, in their order. Its spans have, and its children
/// inherit, the lint that it names, or else the one that it inherits.
pub proof fn law_own_spans_come_before_children(
    message: json::JsonTree,
    inherited: Option<Seq<char>>,
)
    ensures
        ({
            let lint = lint_of(message, inherited);
            collected(message, inherited) == own_spans(message).map_values(
                |span: json::JsonTree| span_suggestion(span, lint),
            ).filter(|s: Option<SuggestionView>| s is Some).map_values(
                |s: Option<SuggestionView>| s->0,
            ) + own_children(message).map_values(
                |child: json::JsonTree| collected(child, lint),
            ).flatten()
        }),
{
    let lint = lint_of(message, inherited);
    lemma_span_suggestions_in_order(own_spans(message), lint);
    lemma_collected_in_order(own_children(message), lint);
}

/// A span for which the compiler vouches, and which says in full what to replace, where, and
/// with what, is a suggestion that says just that, whatever the replacement and the range
/// are.
pub proof fn law_complete_spans_are_suggestions(
    span: json::JsonTree,
    lint: Option<Seq<char>>,
    replacement: Seq<char>,
    file: Seq<char>,
    start: u64,
    end: u64,
)
    requires
        span.member("suggestion_applicability"@) == Some(
            json::JsonTree::Text("MachineApplicable"@),
        ),
        span.member("suggested_replacement"@) == Some(json::JsonTree::Text(replacement)),
        span.member("file_name"@) == Some(json::JsonTree::Text(file)),
        span.member("byte_start"@) == Some(json::JsonTree::Number(Some(start))),
        span.member("byte_end"@) == Some(json::JsonTree::Number(Some(end))),
    ensures
        span_suggestion(span, lint) == Some(
            SuggestionView {
                file_path: file,
                byte_start: start as usize,
                byte_end: end as usize,
                replacement,
                lint,
            },
        ),
{
}

/// Only such spans are suggestions.
pub proof fn law_suggestions_are_complete_spans(span: json::JsonTree, lint: Option<Seq<char>>)
    requires
        span_suggestion(span, lint) is Some,
    ensures
        span.member("suggestion_applicability"@) == Some(
            json::JsonTree::Text("MachineApplicable"@),
        ),
        span.member("suggested_replacement"@) matches Some(json::JsonTree::Text(_)),
        span.member("file_name"@) matches Some(json::JsonTree::Text(_)),
        span.member("byte_start"@) matches Some(json::JsonTree::Number(Some(_))),
        span.member("byte_end"@) matches Some(json::JsonTree::Number(Some(_))),
{
}

/// A diagnostic names a lint by the text `code` of its member `code`, and its spans and
/// children are the items of the members of these names; what is of another kind counts as
/// not there.
pub proof fn law_parts_of_a_diagnostic(message: json::JsonTree, inherited: Option<Seq<char>>)
    ensures
        lint_of(message, inherited) == match message.member("code"@) {
            Some(code) => match code.member("code"@) {
                Some(json::JsonTree::Text(name)) => Some(name),
                _ => inherited,
            },
            None => inherited,
        },
        own_spans(message) == match message.member("spans"@) {
            Some(json::JsonTree::Array(spans)) => spans,
            _ => Seq::empty(),
        },
        own_children(message) == match message.member("children"@) {
            Some(json::JsonTree::Array(children)) => children,
            _ => Seq::empty(),
        },
{
}

/// A line of the linter's output counts if and only if it is a document whose reason is that
/// of a diagnostic, and then its suggestions are all those of the diagnostic; the suggestions
/// of several lines are those of each, one after the other.
pub proof fn law_diagnostics_are_read_line_by_line(
    documents: Seq<Option<json::JsonTree>>,
    document: json::JsonTree,
)
    ensures
        line_suggestions(None) == Seq::<SuggestionView>::empty(),
        line_suggestions(Some(document)) == match (
            document.member("reason"@),
            document.member("message"@),
        ) {
            (Some(json::JsonTree::Text(reason)), Some(message)) => if reason
                == "compiler-message"@ {
                collected(message, None)
            } else {
                Seq::empty()
            },
            _ => Seq::empty(),
        },
        all_suggestions(documents) == documents.map_values(
            |d: Option<json::JsonTree>| line_suggestions(d),
        ).flatten(),
    decreases documents.len(),
{
    let each = documents.map_values(|d: Option<json::JsonTree>| line_suggestions(d));
    if documents.len() > 0 {
        let rest = documents.drop_last();
        law_diagnostics_are_read_line_by_line(rest, document);
        let earlier = rest.map_values(|d: Option<json::JsonTree>| line_suggestions(d));
        assert(each =~= earlier.push(line_suggestions(documents.last())));
        earlier.lemma_flatten_push(line_suggestions(documents.last()));
    }
}

/// The suggestions of an output are those of its first line and then those of the rest,
/// whether a line ends in a newline alone or in a carriage return and a newline.
pub proof fn law_output_is_read_line_by_line(line: Seq<char>, rest: Seq<char>)
    requires
        !line.contains('\n'),
    ensures
        ({
            let first = line_suggestions(json::document_of(line));
            &&& line.len() == 0 || line.last() != '\r' ==> output_suggestions(
                line + seq!['\n'] + rest,
            ) == first + output_suggestions(rest)
            &&& output_suggestions(line + seq!['\r', '\n'] + rest) == first + output_suggestions(
                rest,
            )
            &&& line.len() > 0 ==> output_suggestions(line) == first
            &&& output_suggestions(Seq::empty()) == Seq::<SuggestionView>::empty()
        }),
{
    text::law_lines_end_at_newlines(line, rest);
    lemma_suggestions_behind(line, text::lines_of(rest));
    lemma_suggestions_behind(line, Seq::empty());
    let read = |l: Seq<char>| json::document_of(l);
    assert(Seq::<Seq<char>>::empty().map_values(read) =~= Seq::empty());
    assert(text::lines_of(Seq::empty()) =~= Seq::empty());
    assert(seq![line] + Seq::<Seq<char>>::empty() =~= seq![line]);
    let first = line_suggestions(json::document_of(line));
    assert(first + all_suggestions(Seq::empty()) =~= first);
}

/// The suggestions of a line and of those that follow it.
proof fn lemma_suggestions_behind(line: Seq<char>, lines: Seq<Seq<char>>)
    ensures
        all_suggestions(
            (seq![line] + lines).map_values(|l: Seq<char>| json::document_of(l)),
        ) == line_suggestions(json::document_of(line)) + all_suggestions(
            lines.map_values(|l: Seq<char>| json::document_of(l)),
        ),
    decreases lines.len(),
{
    let read = |l: Seq<char>| json::document_of(l);
    let all = (seq![line] + lines).map_values(read);
    if lines.len() == 0 {
        assert(all.drop_last() =~= Seq::empty());
        assert(lines.map_values(read) =~= Seq::empty());
        assert(all.last() == json::document_of(line));
        assert(all_suggestions(all.drop_last()) =~= Seq::empty());
        assert(all_suggestions(all) =~= line_suggestions(json::document_of(line))
            + all_suggestions(lines.map_values(read)));
    } else {
        let rest = lines.drop_last();
        lemma_suggestions_behind(line, rest);
        assert(all.drop_last() =~= (seq![line] + rest).map_values(read));
        assert(all.last() == json::document_of(lines.last()));
        assert(lines.map_values(read).drop_last() =~= rest.map_values(read));
        assert(lines.map_values(read).last() == json::document_of(lines.last()));
        assert(all_suggestions(all) =~= line_suggestions(json::document_of(line))
            + all_suggestions(lines.map_values(read)));
    }
}

/// Whether `chain` leads from `message` down to a diagnostic below it, or is `message` alone.
pub open spec fn leads_down(message: json::JsonTree, chain: Seq<json::JsonTree>) -> bool {
    &&& chain.len() > 0
    &&& chain.first() == message
    &&& forall|k: int|
        0 <= k < chain.len() - 1 ==> own_children(#[trigger] chain[k]).contains(chain[k + 1])
}

/// The lint that the last of `chain` names, or else the one before it, and so on; where none
/// names one, the one that the first inherits.
pub open spec fn nearest_lint(
    chain: Seq<json::JsonTree>,
    inherited: Option<Seq<char>>,
) -> Option<Seq<char>>
    decreases chain.len(),
{
    if chain.len() == 0 {
        inherited
    } else {
        lint_of(chain.last(), nearest_lint(chain.drop_last(), inherited))
    }
}

/// One more diagnostic at the top of a chain is one more to inherit from.
proof fn lemma_nearest_lint_from_above(
    message: json::JsonTree,
    chain: Seq<json::JsonTree>,
    inherited: Option<Seq<char>>,
)
    ensures
        nearest_lint(seq![message] + chain, inherited) == nearest_lint(
            chain,
            lint_of(message, inherited),
        ),
    decreases chain.len(),
{
    let longer = seq![message] + chain;
    if chain.len() == 0 {
        assert(longer.drop_last() =~= Seq::empty());
        assert(longer.last() == message);
        assert(nearest_lint(longer.drop_last(), inherited) == inherited);
    } else {
        lemma_nearest_lint_from_above(message, chain.drop_last(), inherited);
        assert(longer.drop_last() =~= seq![message] + chain.drop_last());
        assert(longer.last() == chain.last());
    }
}

/// At every depth a suggestion has the lint of the nearest diagnostic around it that names
/// one, or else the one that the outermost inherits.
pub proof fn law_nearest_lint_counts(
    message: json::JsonTree,
    inherited: Option<Seq<char>>,
    i: int,
) -> (chain: Seq<json::JsonTree>)
    requires
        0 <= i < collected(message, inherited).len(),
    ensures
        leads_down(message, chain),
        comes_from(collected(message, inherited)[i], own_spans(chain.last())),
        collected(message, inherited)[i].lint == nearest_lint(chain, inherited),
    decreases message, 0int,
{
    let lint = lint_of(message, inherited);
    let mine = span_suggestions(own_spans(message), lint);
    lemma_span_suggestions(own_spans(message), lint);
    if i < mine.len() {
        let chain = seq![message];
        assert(collected(message, inherited)[i] == mine[i]);
        assert(chain.drop_last() =~= Seq::empty());
        assert(nearest_lint(chain.drop_last(), inherited) == inherited);
        chain
    } else {
        json::lemma_items_are_smaller(message, "children"@);
        let children = message.items_member("children"@).unwrap();
        assert(own_children(message) == children);
        let below = lemma_nearest_lint_below(children, lint, i - mine.len());
        let chain = seq![message] + below;
        lemma_nearest_lint_from_above(message, below, inherited);
        assert(chain.last() == below.last());
        assert forall|k: int| 0 <= k < chain.len() - 1 implies own_children(
            #[trigger] chain[k],
        ).contains(chain[k + 1]) by {
            if k > 0 {
                assert(chain[k] == below[k - 1]);
                assert(chain[k + 1] == below[k - 1 + 1]);
            }
        }
        chain
    }
}

/// The same of a suggestion of several diagnostics.
proof fn lemma_nearest_lint_below(
    messages: Seq<json::JsonTree>,
    inherited: Option<Seq<char>>,
    i: int,
) -> (chain: Seq<json::JsonTree>)
    requires
        0 <= i < collected_from_all(messages, inherited).len(),
    ensures
        chain.len() > 0,
        messages.contains(chain.first()),
        leads_down(chain.first(), chain),
        comes_from(collected_from_all(messages, inherited)[i], own_spans(chain.last())),
        collected_from_all(messages, inherited)[i].lint == nearest_lint(chain, inherited),
    decreases messages, 1int,
{
    let rest = messages.drop_last();
    let last = messages.last();
    let earlier = collected_from_all(rest, inherited);
    if i < earlier.len() {
        let chain = lemma_nearest_lint_below(rest, inherited, i);
        let k = choose|k: int| 0 <= k < rest.len() && rest[k] == chain.first();
        assert(messages[k] == chain.first());
        chain
    } else {
        assert(messages[messages.len() - 1] == last);
        law_nearest_lint_counts(last, inherited, i - earlier.len())
    }
}

/// The suggestion of a span, where the compiler vouches for it and it is complete.
pub fn parse_suggestion_from_span(span: &Json, lint: Option<&str>) -> (r: Option<ClippySuggestion>)
    ensures
        match r {
            Some(s) => span_suggestion(span@, text::opt_str(lint)) == Some(s@),
            None => span_suggestion(span@, text::opt_str(lint)) is None,
        },
{
    let applicability = match span.text_member("suggestion_applicability") {
        Some(value) => value,
        None => return None,
    };
    if !text::same(applicability, "MachineApplicable") {
        return None;
    }
    let replacement = match span.text_member("suggested_replacement") {
        Some(value) => value.to_owned(),
        None => return None,
    };
    let file_path = match span.text_member("file_name") {
        Some(value) => value.to_owned(),
        None => return None,
    };
    let byte_start: usize = match span.number_member("byte_start") {
        Some(value) => value as usize,
        None => return None,
    };
    let byte_end: usize = match span.number_member("byte_end") {
        Some(value) => value as usize,
        None => return None,
    };
    let lint = match lint {
        Some(name) => Some(name.to_owned()),
        None => None,
    };
    Some(ClippySuggestion { file_path, byte_start, byte_end, replacement, lint })
}

/// Adds the suggestions of a diagnostic to `suggestions`.
pub fn collect_suggestions_from_message(message: &Json, suggestions: &mut Vec<ClippySuggestion>)
    ensures
        views(final(suggestions)@) == views(old(suggestions)@) + collected(message@, None),
{
    collect_suggestions_with_lint(message, None, suggestions);
}

/// Adds the suggestions of a diagnostic that inherits `parent_lint` to `suggestions`.
pub fn collect_suggestions_with_lint(
    message: &Json,
    parent_lint: Option<&str>,
    suggestions: &mut Vec<ClippySuggestion>,
)
    ensures
        views(final(suggestions)@) == views(old(suggestions)@) + collected(
            message@,
            text::opt_str(parent_lint),
        ),
    decreases message@,
{
    let ghost inherited = text::opt_str(parent_lint);
    let ghost before = views(suggestions@);
    let named = match message.get("code") {
        Some(code) => code.text_member("code"),
        None => None,
    };
    let lint = match named {
        Some(name) => Some(name),
        None => parent_lint,
    };
    let ghost ghost_lint = lint_of(message@, inherited);
    assert(text::opt_str(lint) == ghost_lint);
    if let Some(spans) = message.items_member("spans") {
        let ghost all = json::trees(spans@);
        proof {
            json::lemma_trees(spans@);
        }
        assert(before + span_suggestions(all.take(0), ghost_lint) == before);
        for i in 0..spans.len()
            invariant
                all == json::trees(spans@),
                all.len() == spans.len(),
                forall|k: int| 0 <= k < spans.len() ==> #[trigger] all[k] == spans@[k]@,
                text::opt_str(lint) == ghost_lint,
                views(suggestions@) == before + span_suggestions(all.take(i as int), ghost_lint),
        {
            let ghost done = views(suggestions@);
            assert(all.take(i + 1).drop_last() == all.take(i as int));
            assert(all.take(i + 1).last() == all[i as int]);
            if let Some(s) = parse_suggestion_from_span(&spans[i], lint) {
                suggestions.push(s);
                assert(views(suggestions@) == done.push(s@));
                assert(views(suggestions@) == before + span_suggestions(
                    all.take(i + 1),
                    ghost_lint,
                ));
            }
        }
        assert(all.take(spans.len() as int) == own_spans(message@));
    }
    let ghost with_spans = before + span_suggestions(own_spans(message@), ghost_lint);
    assert(views(suggestions@) == with_spans);
    if let Some(children) = message.items_member("children") {
        let ghost all = json::trees(children@);
        proof {
            json::lemma_trees(children@);
            json::lemma_items_are_smaller(message@, "children"@);
        }
        assert(with_spans + collected_from_all(all.take(0), ghost_lint) == with_spans);
        for i in 0..children.len()
            invariant
                all == json::trees(children@),
                all.len() == children.len(),
                forall|k: int| 0 <= k < children.len() ==> #[trigger] all[k] == children@[k]@,
                decreases_to!(message@ => all),
                text::opt_str(lint) == ghost_lint,
                views(suggestions@) == with_spans + collected_from_all(
                    all.take(i as int),
                    ghost_lint,
                ),
        {
            assert(all.take(i + 1).drop_last() == all.take(i as int));
            assert(all.take(i + 1).last() == all[i as int]);
            assert(decreases_to!(all => all[i as int]));
            collect_suggestions_with_lint(&children[i], lint, suggestions);
            assert(views(suggestions@) == with_spans + collected_from_all(
                all.take(i + 1),
                ghost_lint,
            ));
        }
        assert(all.take(children.len() as int) == all);
    }
    assert(views(suggestions@) == before + collected(message@, inherited));
}

/// The suggestions in the linter's output, given the document that each line is.
pub fn suggestions_in_documents(documents: &Vec<Option<Json>>) -> (r: Vec<ClippySuggestion>)
    ensures
        views(r@) == all_suggestions(documents@.map_values(|d: Option<Json>| opt_tree(d))),
{
    let ghost all = documents@.map_values(|d: Option<Json>| opt_tree(d));
    let mut r: Vec<ClippySuggestion> = Vec::new();
    assert(views(r@) == all_suggestions(all.take(0)));
    for i in 0..documents.len()
        invariant
            all == documents@.map_values(|d: Option<Json>| opt_tree(d)),
            views(r@) == all_suggestions(all.take(i as int)),
    {
        let ghost before = views(r@);
        assert(all.take(i + 1).drop_last() == all.take(i as int));
        assert(all.take(i + 1).last() == opt_tree(documents@[i as int]));
        if let Some(value) = &documents[i] {
            if let Some(reason) = value.text_member("reason") {
                if text::same(reason, "compiler-message") {
                    if let Some(message) = value.get("message") {
                        collect_suggestions_from_message(message, &mut r);
                    }
                }
            }
        }
        assert(views(r@) == before + line_suggestions(opt_tree(documents@[i as int])));
    }
    assert(all.take(documents.len() as int) == all);
    r
}

/// The document that each line of `output` is.
fn documents_in(output: &str) -> (r: Vec<Option<Json>>)
    ensures
        r@.map_values(|d: Option<Json>| opt_tree(d)) == text::lines_of(output@).map_values(
            |line: Seq<char>| json::document_of(line),
        ),
{
    let lines = text::lines(output);
    let ghost all = text::texts(lines@);
    let mut r: Vec<Option<Json>> = Vec::new();
    for i in 0..lines.len()
        invariant
            all == text::texts(lines@),
            r.len() == i,
            forall|k: int|
                0 <= k < i ==> opt_tree(#[trigger] r@[k]) == json::document_of(all[k]),
    {
        let document = Json::parse(lines[i].as_str());
        assert(all[i as int] == lines@[i as int]@);
        r.push(document);
    }
    assert(r@.map_values(|d: Option<Json>| opt_tree(d)) =~= all.map_values(
        |line: Seq<char>| json::document_of(line),
    ));
    r
}

/// The suggestions in the linter's output, of which each line is a document of its own.
pub fn suggestions_in_output(output: &str) -> (r: Vec<ClippySuggestion>)
    ensures
        views(r@) == output_suggestions(output@),
{
    let documents = documents_in(output);
    suggestions_in_documents(&documents)
}

} // verus!
