//! Applying suggestions to the bytes of one file, from its end to its start, so that no
//! edit moves a range that is still to be edited, and no two edits touch the same bytes.

use vstd::prelude::*;
use vstd::string::*;

use crate::order;
use crate::suggestion;
use crate::suggestion::ClippySuggestion;
use crate::text;

verus! {

/// Whether `a` has to be applied before `b`: it starts later, or starts there too and
/// ends later.
pub open spec fn goes_first(a: suggestion::SuggestionView, b: suggestion::SuggestionView) -> bool {
    a.byte_start > b.byte_start || (a.byte_start == b.byte_start && a.byte_end > b.byte_end)
}

/// `ordered` with `x` at its place: before those that it goes first of, behind all
/// others.
pub open spec fn placed(
    ordered: Seq<suggestion::SuggestionView>,
    x: suggestion::SuggestionView,
) -> Seq<suggestion::SuggestionView>
    decreases ordered.len(),
{
    if ordered.len() > 0 && goes_first(x, ordered.last()) {
        placed(ordered.drop_last(), x).push(ordered.last())
    } else {
        ordered.push(x)
    }
}

/// The suggestions of `list` in the order of application. Those with the same range keep
/// the order that they have in `list`.
pub open spec fn in_order(list: Seq<suggestion::SuggestionView>) -> Seq<suggestion::SuggestionView>
    decreases list.len(),
{
    if list.len() == 0 {
        Seq::empty()
    } else {
        placed(in_order(list.drop_last()), list.last())
    }
}

/// Up to where a file of `len` bytes is still untouched once `chosen` was applied.
pub open spec fn untouched(chosen: Seq<suggestion::SuggestionView>, len: int) -> int {
    if chosen.len() == 0 {
        len
    } else {
        chosen.last().byte_start as int
    }
}

/// The suggestions that are applied to a file of `len` bytes: each whose range is a range
/// of the file and lies before all that was chosen earlier.
pub open spec fn chosen(
    ordered: Seq<suggestion::SuggestionView>,
    len: int,
) -> Seq<suggestion::SuggestionView>
    decreases ordered.len(),
{
    if ordered.len() == 0 {
        Seq::empty()
    } else {
        let earlier = chosen(ordered.drop_last(), len);
        let s = ordered.last();
        if s.byte_start <= s.byte_end <= untouched(earlier, len) {
            earlier.push(s)
        } else {
            earlier
        }
    }
}

/// The bytes that a suggestion puts in place of its range.
pub open spec fn replacement_bytes(s: suggestion::SuggestionView) -> Seq<u8> {
    vstd::utf8::encode_utf8(s.replacement)
}

/// `content` from `from` on, with the ranges of `edits` replaced. The last of `edits` is
/// the one nearest to the start of the file.
pub open spec fn assembled(
    content: Seq<u8>,
    edits: Seq<suggestion::SuggestionView>,
    from: int,
) -> Seq<u8>
    decreases edits.len(),
{
    if edits.len() == 0 {
        content.skip(from)
    } else {
        let s = edits.last();
        content.subrange(from, s.byte_start as int) + replacement_bytes(s) + assembled(
            content,
            edits.drop_last(),
            s.byte_end as int,
        )
    }
}

/// The names of the lints behind `edits`.
pub open spec fn lint_names(edits: Seq<suggestion::SuggestionView>) -> Set<Seq<char>>
    decreases edits.len(),
{
    if edits.len() == 0 {
        Set::empty()
    } else {
        match edits.last().lint {
            Some(name) => lint_names(edits.drop_last()).insert(name),
            None => lint_names(edits.drop_last()),
        }
    }
}

/// Whether `edits` are ranges of a file of `len` bytes, each before all earlier ones.
pub open spec fn apart(edits: Seq<suggestion::SuggestionView>, len: int) -> bool {
    &&& forall|i: int|
        0 <= i < edits.len() ==> (#[trigger] edits[i]).byte_start <= edits[i].byte_end <= len
    &&& forall|i: int, j: int|
        0 <= i < j < edits.len() ==> (#[trigger] edits[j]).byte_end <= (
        #[trigger] edits[i]).byte_start
}

/// The edits that are made are ranges of the file, and no two of them share a byte.
pub proof fn law_edits_never_overlap(ordered: Seq<suggestion::SuggestionView>, len: int)
    requires
        0 <= len,
    ensures
        apart(chosen(ordered, len), len),
    decreases ordered.len(),
{
    if ordered.len() > 0 {
        law_edits_never_overlap(ordered.drop_last(), len);
    }
}

/// Text that lies before all edits can be split off at any point.
proof fn lemma_assembled_split(
    content: Seq<u8>,
    edits: Seq<suggestion::SuggestionView>,
    from: int,
    to: int,
)
    requires
        0 <= from <= to <= untouched(edits, content.len() as int) <= content.len(),
    ensures
        assembled(content, edits, from) == content.subrange(from, to) + assembled(
            content,
            edits,
            to,
        ),
{
    if edits.len() == 0 {
        assert(content.skip(from) == content.subrange(from, to) + content.skip(to));
    } else {
        let start = edits.last().byte_start as int;
        assert(content.subrange(from, start) == content.subrange(from, to) + content.subrange(
            to,
            start,
        ));
        assert(assembled(content, edits, from) == content.subrange(from, to) + assembled(
            content,
            edits,
            to,
        ));
    }
}

/// One more edit, nearer to the start than all others, is a replacement in what the
/// others made.
proof fn lemma_assembled_push(
    content: Seq<u8>,
    edits: Seq<suggestion::SuggestionView>,
    s: suggestion::SuggestionView,
)
    requires
        s.byte_start <= s.byte_end <= untouched(edits, content.len() as int) <= content.len(),
    ensures
        ({
            let current = assembled(content, edits, 0);
            &&& untouched(edits, content.len() as int) <= current.len()
            &&& assembled(content, edits.push(s), 0) == current.take(s.byte_start as int)
                + replacement_bytes(s) + current.skip(s.byte_end as int)
        }),
{
    let current = assembled(content, edits, 0);
    let limit = untouched(edits, content.len() as int);
    let start = s.byte_start as int;
    let end = s.byte_end as int;
    lemma_assembled_split(content, edits, 0, limit);
    lemma_assembled_split(content, edits, 0, end);
    lemma_assembled_split(content, edits, 0, start);
    assert(current.take(start) == content.subrange(0, start));
    assert(current.skip(end) == assembled(content, edits, end));
    assert(edits.push(s).drop_last() == edits);
}

/// Whether `s` has the range from `start` up to `end`.
pub open spec fn has_range(start: usize, end: usize) -> spec_fn(suggestion::SuggestionView) -> bool {
    |s: suggestion::SuggestionView| s.byte_start == start && s.byte_end == end
}

/// Filtering a longer sequence.
proof fn lemma_filter_push<T>(s: Seq<T>, x: T, pred: spec_fn(T) -> bool)
    ensures
        s.push(x).filter(pred) == if pred(x) {
            s.filter(pred).push(x)
        } else {
            s.filter(pred)
        },
{
    reveal(Seq::filter);
    assert(s.push(x).drop_last() == s);
}

/// What `placed` keeps: the items, their order, and the order among those with one range.
proof fn lemma_placed(
    ordered: Seq<suggestion::SuggestionView>,
    x: suggestion::SuggestionView,
    start: usize,
    end: usize,
)
    requires
        forall|i: int, j: int|
            0 <= i < j < ordered.len() ==> !goes_first(#[trigger] ordered[j], #[trigger] ordered[i]),
    ensures
        placed(ordered, x).to_multiset() == ordered.to_multiset().insert(x),
        placed(ordered, x).filter(has_range(start, end)) == ordered.push(x).filter(
            has_range(start, end),
        ),
        forall|i: int, j: int|
            0 <= i < j < placed(ordered, x).len() ==> !goes_first(
                #[trigger] placed(ordered, x)[j],
                #[trigger] placed(ordered, x)[i],
            ),
        forall|i: int|
            0 <= i < placed(ordered, x).len() ==> #[trigger] placed(ordered, x)[i] == x
                || ordered.contains(placed(ordered, x)[i]),
    decreases ordered.len(),
{
    broadcast use vstd::seq_lib::group_to_multiset_ensures;

    let pred = has_range(start, end);
    if ordered.len() > 0 && goes_first(x, ordered.last()) {
        let rest = ordered.drop_last();
        let last = ordered.last();
        lemma_placed(rest, x, start, end);
        assert(ordered == rest.push(last));
        lemma_filter_push(placed(rest, x), last, pred);
        lemma_filter_push(rest, x, pred);
        lemma_filter_push(rest, last, pred);
        lemma_filter_push(ordered, x, pred);
        assert(placed(ordered, x).to_multiset() =~= ordered.to_multiset().insert(x));
        assert forall|i: int| 0 <= i < placed(ordered, x).len() implies #[trigger] placed(
            ordered,
            x,
        )[i] == x || ordered.contains(placed(ordered, x)[i]) by {
            if i < placed(rest, x).len() {
                if placed(rest, x)[i] != x {
                    let k = choose|k: int| 0 <= k < rest.len() && rest[k] == placed(rest, x)[i];
                    assert(ordered[k] == placed(rest, x)[i]);
                }
            } else {
                assert(ordered[ordered.len() - 1] == last);
            }
        }
        assert forall|i: int, j: int|
            0 <= i < j < placed(ordered, x).len() implies !goes_first(
            #[trigger] placed(ordered, x)[j],
            #[trigger] placed(ordered, x)[i],
        ) by {
            assert(placed(ordered, x)[i] == placed(rest, x)[i]);
            if j == placed(rest, x).len() {
                if placed(rest, x)[i] != x {
                    let k = choose|k: int| 0 <= k < rest.len() && rest[k] == placed(rest, x)[i];
                    assert(!goes_first(ordered[ordered.len() - 1], ordered[k]));
                }
            } else {
                assert(placed(ordered, x)[j] == placed(rest, x)[j]);
            }
        }
    } else {
        assert forall|i: int, j: int|
            0 <= i < j < placed(ordered, x).len() implies !goes_first(
            #[trigger] placed(ordered, x)[j],
            #[trigger] placed(ordered, x)[i],
        ) by {
            if j == ordered.len() && i < ordered.len() - 1 {
                assert(!goes_first(ordered[ordered.len() - 1], ordered[i]));
            }
        }
        assert(placed(ordered, x).to_multiset() =~= ordered.to_multiset().insert(x));
        assert forall|i: int| 0 <= i < placed(ordered, x).len() implies #[trigger] placed(
            ordered,
            x,
        )[i] == x || ordered.contains(placed(ordered, x)[i]) by {
            if i < ordered.len() {
                assert(ordered[i] == placed(ordered, x)[i]);
            }
        }
    }
}

/// The order of application loses and adds nothing, descends by start and then by end,
/// and keeps suggestions with the same range in the order in which they came.
pub proof fn law_order_of_application(
    list: Seq<suggestion::SuggestionView>,
    start: usize,
    end: usize,
)
    ensures
        in_order(list).to_multiset() == list.to_multiset(),
        forall|i: int, j: int|
            0 <= i < j < in_order(list).len() ==> !goes_first(
                #[trigger] in_order(list)[j],
                #[trigger] in_order(list)[i],
            ),
        forall|i: int, j: int|
            0 <= i < j < in_order(list).len() ==> (#[trigger] in_order(list)[i]).byte_start > (
            #[trigger] in_order(list)[j]).byte_start || (in_order(list)[i].byte_start == in_order(
                list,
            )[j].byte_start && in_order(list)[i].byte_end >= in_order(list)[j].byte_end),
        in_order(list).filter(has_range(start, end)) == list.filter(has_range(start, end)),
    decreases list.len(),
{
    broadcast use vstd::seq_lib::group_to_multiset_ensures;

    if list.len() > 0 {
        let rest = list.drop_last();
        let x = list.last();
        law_order_of_application(rest, start, end);
        lemma_placed(in_order(rest), x, start, end);
        lemma_filter_push(in_order(rest), x, has_range(start, end));
        lemma_filter_push(rest, x, has_range(start, end));
        assert(list == rest.push(x));
        assert(list.to_multiset() =~= rest.to_multiset().insert(x));
    } else {
        assert(in_order(list) =~= list);
    }
}

/// Whether no two different suggestions of `list` have one range.
pub open spec fn ranges_tell_apart(list: Seq<suggestion::SuggestionView>) -> bool {
    forall|a: suggestion::SuggestionView, b: suggestion::SuggestionView|
        #![trigger list.contains(a), list.contains(b)]
        list.contains(a) && list.contains(b) && a.byte_start == b.byte_start && a.byte_end
            == b.byte_end ==> a == b
}

/// Two lists in the order of application that hold the same suggestions, of which no two
/// different ones have one range, are the same list.
proof fn lemma_one_order(
    a: Seq<suggestion::SuggestionView>,
    b: Seq<suggestion::SuggestionView>,
)
    requires
        a.to_multiset() == b.to_multiset(),
        ranges_tell_apart(a),
        forall|i: int, j: int|
            0 <= i < j < a.len() ==> !goes_first(#[trigger] a[j], #[trigger] a[i]),
        forall|i: int, j: int|
            0 <= i < j < b.len() ==> !goes_first(#[trigger] b[j], #[trigger] b[i]),
    ensures
        a == b,
    decreases a.len(),
{
    broadcast use vstd::seq_lib::group_to_multiset_ensures;

    assert(a.len() == a.to_multiset().len());
    assert(b.len() == b.to_multiset().len());
    if a.len() > 0 {
        let x = a.last();
        let y = b.last();
        assert(a[a.len() - 1] == x && b[b.len() - 1] == y);
        assert(a.contains(x) && b.contains(y));
        assert(a.to_multiset().count(x) > 0);
        assert(b.to_multiset().count(y) > 0);
        assert(b.contains(x) && a.contains(y));
        let i = choose|i: int| 0 <= i < a.len() && a[i] == y;
        let j = choose|j: int| 0 <= j < b.len() && b[j] == x;
        assert(i < a.len() - 1 ==> !goes_first(x, y));
        assert(j < b.len() - 1 ==> !goes_first(y, x));
        assert(x == y);
        let rest = a.drop_last();
        let others = b.drop_last();
        assert(rest =~= a.remove(a.len() - 1));
        assert(others =~= b.remove(b.len() - 1));
        assert(rest.to_multiset() == others.to_multiset());
        assert forall|s: suggestion::SuggestionView, t: suggestion::SuggestionView|
            #![trigger rest.contains(s), rest.contains(t)]
            rest.contains(s) && rest.contains(t) && s.byte_start == t.byte_start && s.byte_end
                == t.byte_end implies s == t by {
            let k = choose|k: int| 0 <= k < rest.len() && rest[k] == s;
            let l = choose|l: int| 0 <= l < rest.len() && rest[l] == t;
            assert(a[k] == s && a[l] == t);
            assert(a.contains(s) && a.contains(t));
        }
        lemma_one_order(rest, others);
        assert(a == rest.push(x));
        assert(b == others.push(y));
    } else {
        assert(a =~= b);
    }
}

/// Where no two different suggestions have one range, what becomes of a file does not depend
/// on the order in which the suggestions come.
pub proof fn law_order_of_suggestions_is_irrelevant(
    content: Seq<u8>,
    a: Seq<suggestion::SuggestionView>,
    b: Seq<suggestion::SuggestionView>,
)
    requires
        a.to_multiset() == b.to_multiset(),
        ranges_tell_apart(a),
    ensures
        rewritten(content, a) == rewritten(content, b),
{
    broadcast use vstd::seq_lib::group_to_multiset_ensures;

    law_order_of_application(a, 0, 0);
    law_order_of_application(b, 0, 0);
    let x = in_order(a);
    assert forall|s: suggestion::SuggestionView, t: suggestion::SuggestionView|
        #![trigger x.contains(s), x.contains(t)]
        x.contains(s) && x.contains(t) && s.byte_start == t.byte_start && s.byte_end
            == t.byte_end implies s == t by {
        assert(x.to_multiset().count(s) > 0 && x.to_multiset().count(t) > 0);
        assert(a.contains(s) && a.contains(t));
    }
    lemma_one_order(x, in_order(b));
}

/// The edit that is nearest to the start lies no further than any item of the order.
proof fn lemma_untouched_not_before(ordered: Seq<suggestion::SuggestionView>, len: int, k: int)
    requires
        0 <= k < ordered.len(),
        forall|i: int, j: int|
            0 <= i < j < ordered.len() ==> !goes_first(#[trigger] ordered[j], #[trigger] ordered[i]),
        ({
            let earlier = chosen(ordered.take(k), len);
            let s = ordered[k];
            &&& s.byte_start <= s.byte_end <= len
            &&& s.byte_end > untouched(earlier, len)
        }),
    ensures
        ({
            let earlier = chosen(ordered.take(k), len);
            &&& earlier.len() > 0
            &&& ordered[k].byte_start <= earlier.last().byte_start < ordered[k].byte_end
            &&& !goes_first(ordered[k], earlier.last())
        }),
{
    let earlier = chosen(ordered.take(k), len);
    lemma_chosen_are_items(ordered.take(k), len);
    let t = earlier.last();
    assert(earlier[earlier.len() - 1] == t);
    let i = choose|i: int| 0 <= i < k && ordered.take(k)[i] == t;
    assert(ordered[i] == t);
    assert(!goes_first(ordered[k], ordered[i]));
}

/// Only items of the order are chosen.
proof fn lemma_chosen_are_items(ordered: Seq<suggestion::SuggestionView>, len: int)
    ensures
        forall|i: int|
            0 <= i < chosen(ordered, len).len() ==> ordered.contains(
                #[trigger] chosen(ordered, len)[i],
            ),
    decreases ordered.len(),
{
    if ordered.len() > 0 {
        let rest = ordered.drop_last();
        lemma_chosen_are_items(rest, len);
        assert forall|i: int| 0 <= i < chosen(ordered, len).len() implies ordered.contains(
            #[trigger] chosen(ordered, len)[i],
        ) by {
            if i < chosen(rest, len).len() {
                let k = choose|k: int| 0 <= k < rest.len() && rest[k] == chosen(rest, len)[i];
                assert(ordered[k] == chosen(ordered, len)[i]);
            } else {
                assert(ordered[ordered.len() - 1] == chosen(ordered, len)[i]);
            }
        }
    }
}

/// What was chosen among the first items stays chosen.
proof fn lemma_chosen_grows(ordered: Seq<suggestion::SuggestionView>, len: int, k: int)
    requires
        0 <= k <= ordered.len(),
    ensures
        chosen(ordered.take(k), len).is_prefix_of(chosen(ordered, len)),
    decreases ordered.len() - k,
{
    if k == ordered.len() {
        assert(ordered.take(k) == ordered);
    } else {
        lemma_chosen_grows(ordered, len, k + 1);
        assert(ordered.take(k + 1).drop_last() == ordered.take(k));
    }
}

/// A suggestion is left out only where its range is none of the file, or where one that
/// was applied starts within that range: further on, or at its start and no shorter.
pub proof fn law_only_colliding_suggestions_are_left_out(
    list: Seq<suggestion::SuggestionView>,
    len: int,
    s: suggestion::SuggestionView,
)
    requires
        list.contains(s),
        s.byte_start <= s.byte_end <= len,
        !chosen(in_order(list), len).contains(s),
    ensures
        exists|i: int|
            {
                &&& 0 <= i < chosen(in_order(list), len).len()
                &&& s.byte_start <= (#[trigger] chosen(in_order(list), len)[i]).byte_start
                    < s.byte_end
                &&& chosen(in_order(list), len)[i].byte_start > s.byte_start || chosen(
                    in_order(list),
                    len,
                )[i].byte_end >= s.byte_end
            },
{
    broadcast use vstd::seq_lib::group_to_multiset_ensures;

    let ordered = in_order(list);
    law_order_of_application(list, s.byte_start, s.byte_end);
    assert(list.to_multiset().contains(s));
    assert(ordered.contains(s));
    let k = choose|k: int| 0 <= k < ordered.len() && ordered[k] == s;
    lemma_chosen_grows(ordered, len, k);
    lemma_chosen_grows(ordered, len, k + 1);
    let earlier = chosen(ordered.take(k), len);
    assert(ordered.take(k + 1).drop_last() == ordered.take(k));
    assert(ordered.take(k + 1).last() == s);
    if s.byte_end <= untouched(earlier, len) {
        assert(chosen(ordered.take(k + 1), len) == earlier.push(s));
        let longer = chosen(ordered.take(k + 1), len);
        assert(longer[earlier.len() as int] == s);
        assert(chosen(ordered, len)[earlier.len() as int] == chosen(ordered, len).subrange(
            0,
            longer.len() as int,
        )[earlier.len() as int]);
    } else {
        lemma_untouched_not_before(ordered, len, k);
        assert(chosen(ordered, len)[earlier.len() - 1] == earlier.last());
    }
}

/// How many bytes `edits` put in, less those that they take out.
pub open spec fn growth(edits: Seq<suggestion::SuggestionView>) -> int
    decreases edits.len(),
{
    if edits.len() == 0 {
        0
    } else {
        let s = edits.last();
        growth(edits.drop_last()) + replacement_bytes(s).len() - (s.byte_end - s.byte_start)
    }
}

/// The bytes before the first edit and those behind the last one are what they were, and
/// the file grows by what the edits put in and take out. Without an edit it stays as it
/// is.
pub proof fn law_other_bytes_stay(content: Seq<u8>, edits: Seq<suggestion::SuggestionView>)
    requires
        apart(edits, content.len() as int),
    ensures
        ({
            let r = assembled(content, edits, 0);
            &&& r.len() == content.len() + growth(edits)
            &&& edits.len() == 0 ==> r == content
            &&& edits.len() > 0 ==> {
                &&& r.take(edits.last().byte_start as int) == content.take(
                    edits.last().byte_start as int,
                )
                &&& content.len() - edits.first().byte_end <= r.len()
                &&& r.skip(r.len() - (content.len() - edits.first().byte_end)) == content.skip(
                    edits.first().byte_end as int,
                )
            }
        }),
{
    lemma_assembled_length(content, edits, 0);
    if edits.len() == 0 {
        assert(content.skip(0) == content);
    } else {
        let r = assembled(content, edits, 0);
        assert(edits.last() == edits[edits.len() - 1]);
        assert(r.take(edits.last().byte_start as int) == content.take(
            edits.last().byte_start as int,
        ));
        lemma_assembled_end(content, edits, 0);
    }
}

/// The length of what `assembled` yields.
proof fn lemma_assembled_length(
    content: Seq<u8>,
    edits: Seq<suggestion::SuggestionView>,
    from: int,
)
    requires
        apart(edits, content.len() as int),
        0 <= from <= untouched(edits, content.len() as int),
    ensures
        assembled(content, edits, from).len() == content.len() - from + growth(edits),
    decreases edits.len(),
{
    if edits.len() > 0 {
        let rest = edits.drop_last();
        assert(edits.last() == edits[edits.len() - 1]);
        if rest.len() > 0 {
            assert(rest.last() == edits[edits.len() - 2]);
        }
        lemma_assembled_length(content, rest, edits.last().byte_end as int);
    }
}

/// What `assembled` yields ends in what follows the last edit.
proof fn lemma_assembled_end(content: Seq<u8>, edits: Seq<suggestion::SuggestionView>, from: int)
    requires
        edits.len() > 0,
        apart(edits, content.len() as int),
        0 <= from <= untouched(edits, content.len() as int),
    ensures
        ({
            let r = assembled(content, edits, from);
            let behind = content.len() - edits.first().byte_end;
            &&& 0 <= behind <= r.len()
            &&& r.skip(r.len() - behind) == content.skip(edits.first().byte_end as int)
        }),
    decreases edits.len(),
{
    let r = assembled(content, edits, from);
    let behind = content.len() - edits.first().byte_end;
    let rest = edits.drop_last();
    let s = edits.last();
    assert(s == edits[edits.len() - 1]);
    assert(edits.first() == edits[0]);
    if rest.len() > 0 {
        assert(rest.last() == edits[edits.len() - 2]);
        assert(rest.first() == edits.first());
        lemma_assembled_end(content, rest, s.byte_end as int);
    }
    let tail = assembled(content, rest, s.byte_end as int);
    assert(r.skip(r.len() - behind) == tail.skip(tail.len() - behind));
    assert(tail.skip(tail.len() - behind) == content.skip(edits.first().byte_end as int));
}

/// By how many bytes the edits from the one at `k` on, all nearer to the start, move what
/// stands behind them.
pub open spec fn shift(edits: Seq<suggestion::SuggestionView>, k: int) -> int
    decreases edits.len() - k,
{
    if k < 0 || k >= edits.len() {
        0
    } else {
        vstd::utf8::encode_utf8(edits[k].replacement).len() - (edits[k].byte_end
            - edits[k].byte_start) + shift(edits, k + 1)
    }
}

/// The last edit moves all that stands behind the others.
proof fn lemma_shift(edits: Seq<suggestion::SuggestionView>, k: int)
    requires
        0 <= k < edits.len(),
    ensures
        shift(edits, k) == shift(edits.drop_last(), k) + vstd::utf8::encode_utf8(
            edits.last().replacement,
        ).len() - (edits.last().byte_end - edits.last().byte_start),
    decreases edits.len() - k,
{
    if k < edits.len() - 1 {
        lemma_shift(edits, k + 1);
        assert(edits.drop_last()[k] == edits[k]);
    } else {
        assert(edits[k] == edits.last());
        assert(shift(edits, k + 1) == 0);
        assert(shift(edits.drop_last(), k) == 0);
    }
}

/// Edits without the one nearest to the start are still apart.
proof fn lemma_apart_without_last(edits: Seq<suggestion::SuggestionView>, len: int)
    requires
        apart(edits, len),
        edits.len() > 0,
    ensures
        apart(edits.drop_last(), len),
        edits.last().byte_start <= edits.last().byte_end <= untouched(edits.drop_last(), len),
        untouched(edits.drop_last(), len) <= len,
{
    let rest = edits.drop_last();
    assert(edits.last() == edits[edits.len() - 1]);
    assert forall|k: int| 0 <= k < rest.len() implies (#[trigger] rest[k]).byte_start
        <= rest[k].byte_end <= len by {
        assert(rest[k] == edits[k]);
    }
    assert forall|a: int, b: int| 0 <= a < b < rest.len() implies (
    #[trigger] rest[b]).byte_end <= (#[trigger] rest[a]).byte_start by {
        assert(rest[a] == edits[a] && rest[b] == edits[b]);
    }
    if rest.len() > 0 {
        assert(rest.last() == edits[edits.len() - 2]);
    }
}

/// Where the range behind the edit at `i` ends: at the next edit, or at the end of the file.
pub open spec fn next_edit(edits: Seq<suggestion::SuggestionView>, i: int, len: int) -> int {
    if i == 0 {
        len
    } else {
        edits[i - 1].byte_start as int
    }
}

/// Whether in `r` the bytes of the replacement of an edit stand from `at` on, and what
/// stood in `content` between the range of the edit and `next` follows them.
pub open spec fn stands_at(
    r: Seq<u8>,
    at: int,
    content: Seq<u8>,
    s: suggestion::SuggestionView,
    next: int,
) -> bool {
    let bytes = vstd::utf8::encode_utf8(s.replacement);
    let gap = next - s.byte_end;
    &&& 0 <= at
    &&& at + bytes.len() + gap <= r.len()
    &&& r.subrange(at, at + bytes.len()) == bytes
    &&& r.subrange(at + bytes.len(), at + bytes.len() + gap) == content.subrange(
        s.byte_end as int,
        next,
    )
}

/// What stands at some place still stands there, moved, with more before it.
proof fn lemma_stands_behind(
    more: Seq<u8>,
    r: Seq<u8>,
    at: int,
    content: Seq<u8>,
    s: suggestion::SuggestionView,
    next: int,
)
    requires
        stands_at(r, at, content, s, next),
        s.byte_end <= next,
    ensures
        stands_at(more + r, more.len() + at, content, s, next),
{
    let bytes = vstd::utf8::encode_utf8(s.replacement);
    let gap = next - s.byte_end;
    let all = more + r;
    let n = more.len() + at;
    assert(all.subrange(n, n + bytes.len()) =~= r.subrange(at, at + bytes.len()));
    assert(all.subrange(n + bytes.len(), n + bytes.len() + gap) =~= r.subrange(
        at + bytes.len(),
        at + bytes.len() + gap,
    ));
}

/// Where the replacement nearest to the start stands.
proof fn lemma_nearest_replacement_in_place(
    content: Seq<u8>,
    edits: Seq<suggestion::SuggestionView>,
    from: int,
)
    requires
        apart(edits, content.len() as int),
        edits.len() > 0,
        0 <= from <= edits.last().byte_start,
    ensures
        stands_at(
            assembled(content, edits, from),
            edits.last().byte_start - from,
            content,
            edits.last(),
            next_edit(edits, edits.len() - 1, content.len() as int),
        ),
{
    let rest = edits.drop_last();
    let s = edits.last();
    let len = content.len() as int;
    let next = next_edit(edits, edits.len() - 1, len);
    lemma_apart_without_last(edits, len);
    if rest.len() > 0 {
        assert(rest.last() == edits[edits.len() - 2]);
    }
    assert(next == untouched(rest, len));
    lemma_assembled_split(content, rest, s.byte_end as int, next);
    let start = content.subrange(from, s.byte_start as int);
    let bytes = vstd::utf8::encode_utf8(s.replacement);
    let gap = content.subrange(s.byte_end as int, next);
    let later = assembled(content, rest, next);
    let r = start + bytes + (gap + later);
    assert(assembled(content, edits, from) == r);
    let at = s.byte_start - from;
    assert(start.len() == at);
    assert(r.subrange(at, at + bytes.len()) =~= bytes);
    assert(r.subrange(at + bytes.len(), at + bytes.len() + gap.len()) =~= gap);
}

/// Where each replacement and what follows it stand in what `assembled` yields.
proof fn lemma_replacement_in_place(
    content: Seq<u8>,
    edits: Seq<suggestion::SuggestionView>,
    from: int,
    i: int,
)
    requires
        apart(edits, content.len() as int),
        0 <= i < edits.len(),
        0 <= from <= edits.last().byte_start,
    ensures
        stands_at(
            assembled(content, edits, from),
            edits[i].byte_start - from + shift(edits, i + 1),
            content,
            edits[i],
            next_edit(edits, i, content.len() as int),
        ),
        edits[i].byte_end <= next_edit(edits, i, content.len() as int),
    decreases edits.len(),
{
    let len = content.len() as int;
    if i > 0 {
        assert(edits[i].byte_end <= edits[i - 1].byte_start);
    }
    assert(edits[i].byte_end <= len);
    if i == edits.len() - 1 {
        assert(shift(edits, i + 1) == 0);
        lemma_nearest_replacement_in_place(content, edits, from);
    } else {
        let rest = edits.drop_last();
        let s = edits.last();
        lemma_apart_without_last(edits, len);
        assert(rest[i] == edits[i]);
        assert(next_edit(rest, i, len) == next_edit(edits, i, len));
        lemma_replacement_in_place(content, rest, s.byte_end as int, i);
        lemma_shift(edits, i + 1);
        let more = content.subrange(from, s.byte_start as int) + vstd::utf8::encode_utf8(
            s.replacement,
        );
        let tail = assembled(content, rest, s.byte_end as int);
        assert(assembled(content, edits, from) == more + tail);
        lemma_stands_behind(
            more,
            tail,
            rest[i].byte_start - s.byte_end + shift(rest, i + 1),
            content,
            edits[i],
            next_edit(edits, i, len),
        );
    }
}

/// In the rewritten file the whole replacement of each edit stands, byte by byte, in place of
/// the range of the edit, and what stood between that range and the next edit, or the end of
/// the file, follows it unchanged.
pub proof fn law_replacements_stand_in_place_of_their_ranges(
    content: Seq<u8>,
    list: Seq<suggestion::SuggestionView>,
    i: int,
)
    requires
        0 <= i < chosen(in_order(list), content.len() as int).len(),
    ensures
        ({
            let edits = chosen(in_order(list), content.len() as int);
            let r = rewritten(content, list).content;
            let bytes = vstd::utf8::encode_utf8(edits[i].replacement);
            let at = edits[i].byte_start + shift(edits, i + 1);
            let next = if i == 0 {
                content.len() as int
            } else {
                edits[i - 1].byte_start as int
            };
            let behind = at + bytes.len();
            &&& 0 <= at
            &&& behind + (next - edits[i].byte_end) <= r.len()
            &&& r.subrange(at, behind) == bytes
            &&& r.subrange(behind, behind + (next - edits[i].byte_end)) == content.subrange(
                edits[i].byte_end as int,
                next,
            )
        }),
{
    let edits = chosen(in_order(list), content.len() as int);
    law_edits_never_overlap(in_order(list), content.len() as int);
    lemma_replacement_in_place(content, edits, 0, i);
}

/// The file begins with what stood before the edit that is nearest to its start, and grows by
/// the bytes that the replacements put in, less those that the ranges took out.
pub proof fn law_start_and_length_of_the_rewritten_file(
    content: Seq<u8>,
    list: Seq<suggestion::SuggestionView>,
)
    ensures
        ({
            let edits = chosen(in_order(list), content.len() as int);
            let r = rewritten(content, list).content;
            &&& r.len() == content.len() + shift(edits, 0)
            &&& edits.len() == 0 ==> r == content
            &&& edits.len() > 0 ==> r.take(edits.last().byte_start as int) == content.take(
                edits.last().byte_start as int,
            )
        }),
{
    let edits = chosen(in_order(list), content.len() as int);
    law_edits_never_overlap(in_order(list), content.len() as int);
    law_other_bytes_stay(content, edits);
    lemma_growth(edits);
}

/// All edits together move what stands behind them by what they add.
proof fn lemma_growth(edits: Seq<suggestion::SuggestionView>)
    ensures
        growth(edits) == shift(edits, 0),
    decreases edits.len(),
{
    if edits.len() > 0 {
        lemma_growth(edits.drop_last());
        lemma_shift(edits, 0);
    }
}

/// One suggestion alone is applied if and only if its range is one of the file: then the
/// file is what stood before the range, the whole replacement, and what stood behind the
/// range; else it stays as it is.
pub proof fn law_one_suggestion_replaces_its_range(
    content: Seq<u8>,
    s: suggestion::SuggestionView,
)
    ensures
        s.byte_start <= s.byte_end <= content.len() ==> {
            let r = rewritten(content, seq![s]);
            &&& r.applied == 1
            &&& r.content == content.take(s.byte_start as int) + vstd::utf8::encode_utf8(
                s.replacement,
            ) + content.skip(s.byte_end as int)
        },
        !(s.byte_start <= s.byte_end <= content.len()) ==> {
            let r = rewritten(content, seq![s]);
            &&& r.applied == 0
            &&& r.content == content
        },
{
    reveal_with_fuel(in_order, 2);
    reveal_with_fuel(chosen, 2);
    reveal_with_fuel(assembled, 2);
    let list = seq![s];
    assert(list.drop_last() =~= Seq::empty());
    assert(in_order(list) =~= list);
    let edits = chosen(list, content.len() as int);
    let r = assembled(content, edits, 0);
    if s.byte_start <= s.byte_end <= content.len() {
        assert(edits =~= list);
        assert(r =~= content.take(s.byte_start as int) + vstd::utf8::encode_utf8(s.replacement)
            + content.skip(s.byte_end as int));
    } else {
        assert(edits =~= Seq::empty());
        assert(r =~= content);
    }
}

/// Each of what is chosen is one of the items.
proof fn lemma_chosen_multiset(ordered: Seq<suggestion::SuggestionView>, len: int)
    ensures
        chosen(ordered, len).to_multiset().subset_of(ordered.to_multiset()),
    decreases ordered.len(),
{
    broadcast use vstd::seq_lib::group_to_multiset_ensures;

    if ordered.len() > 0 {
        lemma_chosen_multiset(ordered.drop_last(), len);
        assert(ordered =~= ordered.drop_last().push(ordered.last()));
    }
}

/// Nothing but the suggestions is applied, and none more often than it was made.
pub proof fn law_only_suggestions_are_applied(list: Seq<suggestion::SuggestionView>, len: int)
    ensures
        chosen(in_order(list), len).to_multiset().subset_of(list.to_multiset()),
{
    law_order_of_application(list, 0, 0);
    lemma_chosen_multiset(in_order(list), len);
}

/// What is chosen for one range among items that stand in the order of application, where
/// the range is empty.
proof fn lemma_insertions_are_chosen(
    ordered: Seq<suggestion::SuggestionView>,
    len: int,
    at: usize,
)
    requires
        at <= len,
        forall|i: int, j: int|
            0 <= i < j < ordered.len() ==> !goes_first(#[trigger] ordered[j], #[trigger] ordered[i]),
    ensures
        chosen(ordered, len).filter(has_range(at, at)) == ordered.filter(has_range(at, at)),
    decreases ordered.len(),
{
    let pred = has_range(at, at);
    if ordered.len() > 0 {
        let rest = ordered.drop_last();
        let x = ordered.last();
        let earlier = chosen(rest, len);
        lemma_insertions_are_chosen(rest, len, at);
        lemma_filter_push(rest, x, pred);
        lemma_filter_push(earlier, x, pred);
        assert(ordered =~= rest.push(x));
        if pred(x) && earlier.len() > 0 {
            lemma_chosen_are_items(rest, len);
            assert(earlier[earlier.len() - 1] == earlier.last());
            let k = choose|k: int| 0 <= k < rest.len() && rest[k] == earlier.last();
            assert(!goes_first(ordered[ordered.len() - 1], ordered[k]));
            law_edits_never_overlap(rest, len);
            assert(earlier[earlier.len() - 1].byte_start >= at);
        }
    } else {
        reveal(Seq::filter);
    }
}

/// Every insertion within the file is applied, those at one place all of them.
pub proof fn law_insertions_are_all_applied(
    list: Seq<suggestion::SuggestionView>,
    len: int,
    at: usize,
)
    requires
        at <= len,
    ensures
        chosen(in_order(list), len).filter(has_range(at, at)) == list.filter(has_range(at, at)),
{
    law_order_of_application(list, at, at);
    lemma_insertions_are_chosen(in_order(list), len, at);
}

/// No item that replaces something fits any more before what is still untouched.
proof fn lemma_no_item_fits(ordered: Seq<suggestion::SuggestionView>, len: int)
    ensures
        untouched(chosen(ordered, len), len) <= len,
        forall|k: int|
            0 <= k < ordered.len() && (#[trigger] ordered[k]).byte_start < ordered[k].byte_end
                ==> ordered[k].byte_end > untouched(chosen(ordered, len), len),
    decreases ordered.len(),
{
    if ordered.len() > 0 {
        let rest = ordered.drop_last();
        lemma_no_item_fits(rest, len);
        assert forall|k: int|
            0 <= k < ordered.len() && (#[trigger] ordered[k]).byte_start
                < ordered[k].byte_end implies ordered[k].byte_end > untouched(
            chosen(ordered, len),
            len,
        ) by {
            if k < rest.len() {
                assert(rest[k] == ordered[k]);
            }
        }
    }
}

/// Of the items with one range that is not empty, at most the first is chosen.
proof fn lemma_first_of_one_range(
    ordered: Seq<suggestion::SuggestionView>,
    len: int,
    start: usize,
    end: usize,
)
    requires
        start < end,
    ensures
        ({
            let mine = chosen(ordered, len).filter(has_range(start, end));
            let all = ordered.filter(has_range(start, end));
            mine == Seq::<suggestion::SuggestionView>::empty() || (all.len() > 0 && mine
                == seq![all[0]])
        }),
    decreases ordered.len(),
{
    let pred = has_range(start, end);
    if ordered.len() > 0 {
        let rest = ordered.drop_last();
        let x = ordered.last();
        let earlier = chosen(rest, len);
        lemma_first_of_one_range(rest, len, start, end);
        lemma_filter_push(rest, x, pred);
        lemma_filter_push(earlier, x, pred);
        assert(ordered =~= rest.push(x));
        let before = rest.filter(pred);
        if pred(x) && x.byte_end <= untouched(earlier, len) {
            lemma_no_item_fits(rest, len);
            lemma_filtered_is_empty(rest, start, end);
            lemma_chosen_are_items(rest, len);
            assert forall|k: int| 0 <= k < earlier.len() implies !pred(#[trigger] earlier[k]) by {
                let n = choose|n: int| 0 <= n < rest.len() && rest[n] == earlier[k];
                assert(rest[n].byte_end > untouched(earlier, len) || rest[n].byte_start
                    >= rest[n].byte_end);
            }
            lemma_filtered_is_empty(earlier, start, end);
            assert(earlier.push(x).filter(pred) =~= seq![x]);
            assert(ordered.filter(pred) =~= seq![x]);
        }
    } else {
        reveal(Seq::filter);
    }
}

/// Where no item has a range, none is left of them.
proof fn lemma_filtered_is_empty(list: Seq<suggestion::SuggestionView>, start: usize, end: usize)
    requires
        forall|k: int| 0 <= k < list.len() ==> !has_range(start, end)(#[trigger] list[k]),
    ensures
        list.filter(has_range(start, end)) == Seq::<suggestion::SuggestionView>::empty(),
    decreases list.len(),
{
    reveal(Seq::filter);
    if list.len() > 0 {
        let rest = list.drop_last();
        assert forall|k: int| 0 <= k < rest.len() implies !has_range(start, end)(
            #[trigger] rest[k],
        ) by {
            assert(rest[k] == list[k]);
        }
        lemma_filtered_is_empty(rest, start, end);
        assert(list[list.len() - 1] == list.last());
    }
}

/// Of several suggestions that replace one range, only the one that came first is ever
/// applied.
pub proof fn law_first_of_one_range_is_applied(
    list: Seq<suggestion::SuggestionView>,
    len: int,
    start: usize,
    end: usize,
)
    requires
        start < end,
    ensures
        ({
            let mine = chosen(in_order(list), len).filter(has_range(start, end));
            let all = list.filter(has_range(start, end));
            mine == Seq::<suggestion::SuggestionView>::empty() || (all.len() > 0 && mine
                == seq![all[0]])
        }),
{
    law_order_of_application(list, start, end);
    lemma_first_of_one_range(in_order(list), len, start, end);
}

/// The lints that are reported are those that the edits name, all of them, each once and in
/// ascending order; the number that is reported is that of the edits.
pub proof fn law_lints_and_number_of_the_edits(
    content: Seq<u8>,
    list: Seq<suggestion::SuggestionView>,
    name: Seq<char>,
)
    requires
        list.len() <= usize::MAX,
    ensures
        ({
            let edits = chosen(in_order(list), content.len() as int);
            let r = rewritten(content, list);
            &&& r.applied == edits.len()
            &&& order::ascending(r.lints)
            &&& r.lints.contains(name) <==> exists|i: int|
                0 <= i < edits.len() && (#[trigger] edits[i]).lint == Some(name)
        }),
{
    broadcast use vstd::seq_lib::group_to_multiset_ensures;

    let edits = chosen(in_order(list), content.len() as int);
    let r = rewritten(content, list);
    law_order_of_application(list, 0, 0);
    lemma_chosen_is_no_longer(in_order(list), content.len() as int);
    assert(in_order(list).len() == in_order(list).to_multiset().len());
    assert(list.len() == list.to_multiset().len());
    let names = lemma_lint_names(edits);
    order::lemma_sorted(names);
    lemma_lint_name_is_one(edits, name);
    assert(r.lints.contains(name) == r.lints.to_set().contains(name));
}

/// No more is chosen than there is.
proof fn lemma_chosen_is_no_longer(ordered: Seq<suggestion::SuggestionView>, len: int)
    ensures
        chosen(ordered, len).len() <= ordered.len(),
    decreases ordered.len(),
{
    if ordered.len() > 0 {
        lemma_chosen_is_no_longer(ordered.drop_last(), len);
    }
}

/// There is a list in ascending order of the lints that edits name.
proof fn lemma_lint_names(edits: Seq<suggestion::SuggestionView>) -> (names: Seq<Seq<char>>)
    ensures
        order::ascending(names),
        names.to_set() == lint_names(edits),
    decreases edits.len(),
{
    if edits.len() == 0 {
        let names = Seq::<Seq<char>>::empty();
        assert(names.to_set() =~= Set::empty());
        names
    } else {
        let rest = lemma_lint_names(edits.drop_last());
        match edits.last().lint {
            Some(name) => order::lemma_insertion_exists(rest, name),
            None => rest,
        }
    }
}

/// A lint is among those that edits name if and only if one of them names it.
proof fn lemma_lint_name_is_one(edits: Seq<suggestion::SuggestionView>, name: Seq<char>)
    ensures
        lint_names(edits).contains(name) <==> exists|i: int|
            0 <= i < edits.len() && (#[trigger] edits[i]).lint == Some(name),
    decreases edits.len(),
{
    if edits.len() > 0 {
        let rest = edits.drop_last();
        lemma_lint_name_is_one(rest, name);
        if exists|i: int| 0 <= i < edits.len() && (#[trigger] edits[i]).lint == Some(name) {
            let i = choose|i: int|
                0 <= i < edits.len() && (#[trigger] edits[i]).lint == Some(name);
            if i < rest.len() {
                assert(rest[i].lint == Some(name));
            }
        }
        if lint_names(rest).contains(name) {
            let i = choose|i: int| 0 <= i < rest.len() && (#[trigger] rest[i]).lint == Some(name);
            assert(edits[i].lint == Some(name));
        }
        if edits.last().lint == Some(name) {
            assert(edits[edits.len() - 1].lint == Some(name));
        }
    }
}

/// What became of a file.
#[derive(Debug, PartialEq, Eq)]
pub struct FileRewrite {
    pub content: Vec<u8>,
    pub applied: usize,
    /// The names of the lints that were fixed, in ascending order, each once.
    pub lints: Vec<String>,
}

/// What is said of a file that was rewritten.
pub struct RewriteView {
    pub content: Seq<u8>,
    pub applied: usize,
    pub lints: Seq<Seq<char>>,
}

impl View for FileRewrite {
    type V = RewriteView;

    open spec fn view(&self) -> RewriteView {
        RewriteView {
            content: self.content@,
            applied: self.applied,
            lints: text::texts(self.lints@),
        }
    }
}

/// What becomes of a file with `content` to which the suggestions of `list` are applied.
pub open spec fn rewritten(
    content: Seq<u8>,
    list: Seq<suggestion::SuggestionView>,
) -> RewriteView {
    let edits = chosen(in_order(list), content.len() as int);
    RewriteView {
        content: assembled(content, edits, 0),
        applied: edits.len() as usize,
        lints: order::sorted(lint_names(edits)),
    }
}

/// The suggestions of `list` that `order` names, in that order.
pub open spec fn picked(
    list: Seq<suggestion::SuggestionView>,
    order: Seq<usize>,
) -> Seq<suggestion::SuggestionView> {
    order.map_values(|i: usize| list[i as int])
}

/// Whether every number of `order` is a position in a list of `len` items.
pub open spec fn positions(order: Seq<usize>, len: int) -> bool {
    forall|k: int| 0 <= k < order.len() ==> #[trigger] order[k] < len
}

/// The positions of the suggestions of `list` in the order of application.
fn application_order(list: &Vec<ClippySuggestion>) -> (order: Vec<usize>)
    ensures
        positions(order@, list.len() as int),
        picked(suggestion::views(list@), order@) == in_order(suggestion::views(list@)),
{
    let ghost all = suggestion::views(list@);
    let mut order: Vec<usize> = Vec::new();
    assert(picked(all, order@) == in_order(all.take(0)));
    for n in 0..list.len()
        invariant
            all == suggestion::views(list@),
            positions(order@, list.len() as int),
            picked(all, order@) == in_order(all.take(n as int)),
    {
        let x = &list[n];
        let ghost before = picked(all, order@);
        let mut at: usize = order.len();
        assert(before.take(at as int) == before);
        assert(placed(before, x@) == placed(before.take(at as int), x@) + before.skip(at as int));
        while at > 0 && (x.byte_start > list[order[at - 1]].byte_start || (x.byte_start
            == list[order[at - 1]].byte_start && x.byte_end > list[order[at - 1]].byte_end))
            invariant
                all == suggestion::views(list@),
                positions(order@, list.len() as int),
                before == picked(all, order@),
                at <= order.len(),
                placed(before, x@) == placed(before.take(at as int), x@) + before.skip(at as int),
            decreases at,
        {
            let ghost head = before.take(at as int);
            assert(head.last() == before[at - 1]);
            assert(before[at - 1] == list@[order@[at - 1] as int]@);
            assert(head.drop_last() == before.take(at - 1));
            assert(placed(head, x@) == placed(head.drop_last(), x@).push(head.last()));
            assert(placed(head, x@) + before.skip(at as int) == placed(head.drop_last(), x@)
                + before.skip(at - 1));
            at = at - 1;
        }
        proof {
            let head = before.take(at as int);
            if at > 0 {
                assert(head.last() == before[at - 1]);
                assert(before[at - 1] == list@[order@[at - 1] as int]@);
            }
            assert(placed(head, x@) == head.push(x@));
            assert(head.push(x@) + before.skip(at as int) == before.insert(at as int, x@));
        }
        order.insert(at, n);
        proof {
            assert(picked(all, order@) =~= before.insert(at as int, x@));
            assert(all.take(n + 1).drop_last() == all.take(n as int));
            assert(all.take(n + 1).last() == x@);
        }
    }
    assert(all.take(list.len() as int) == all);
    order
}

/// Replaces the bytes of `content` from `start` up to `end`.
fn splice(content: &mut Vec<u8>, start: usize, end: usize, replacement: &str)
    requires
        start <= end <= old(content).len(),
    ensures
        final(content)@ == old(content)@.take(start as int) + vstd::utf8::encode_utf8(replacement@)
            + old(content)@.skip(end as int),
{
    let ghost before = content@;
    let mut tail = content.split_off(end);
    content.truncate(start);
    let mut bytes = replacement.as_bytes_vec();
    content.append(&mut bytes);
    content.append(&mut tail);
    assert(content@ =~= before.take(start as int) + vstd::utf8::encode_utf8(replacement@)
        + before.skip(end as int));
}

/// Applies to `content` the suggestions of `list`: in descending order of their ranges,
/// leaving out each that is no range of the file or reaches into one applied before.
pub fn rewrite(content: Vec<u8>, list: &Vec<ClippySuggestion>) -> (r: FileRewrite)
    ensures
        r@ == rewritten(content@, suggestion::views(list@)),
        ({
            let edits = chosen(in_order(suggestion::views(list@)), content@.len() as int);
            &&& r.applied == edits.len()
            &&& order::ascending(text::texts(r.lints@))
            &&& text::texts(r.lints@).to_set() == lint_names(edits)
        }),
{
    let ghost all = suggestion::views(list@);
    let ghost ordered = in_order(all);
    let ghost original = content@;
    let ghost len = content@.len() as int;
    let order = application_order(list);
    let mut content = content;
    let mut limit: usize = usize::MAX;
    let mut applied: usize = 0;
    let mut lints: Vec<String> = Vec::new();
    assert(original.skip(0) == original);
    assert(text::texts(lints@).to_set() =~= Set::empty());
    for k in 0..order.len()
        invariant
            all == suggestion::views(list@),
            ordered == picked(all, order@),
            positions(order@, list.len() as int),
            len == original.len(),
            content@ == assembled(original, chosen(ordered.take(k as int), len), 0),
            applied == chosen(ordered.take(k as int), len).len(),
            applied <= k,
            apart(chosen(ordered.take(k as int), len), len),
            limit == (if applied == 0 {
                usize::MAX as int
            } else {
                untouched(chosen(ordered.take(k as int), len), len)
            }),
            order::ascending(text::texts(lints@)),
            text::texts(lints@).to_set() == lint_names(chosen(ordered.take(k as int), len)),
    {
        let s = &list[order[k]];
        let ghost earlier = chosen(ordered.take(k as int), len);
        proof {
            assert(ordered[k as int] == s@);
            assert(ordered.take(k + 1).drop_last() == ordered.take(k as int));
            assert(ordered.take(k + 1).last() == s@);
            law_edits_never_overlap(ordered.take(k + 1), len);
            if earlier.len() > 0 {
                assert(earlier.last() == earlier[earlier.len() - 1]);
            }
            lemma_assembled_split(original, earlier, 0, untouched(earlier, len));
            if s.byte_start <= s.byte_end <= untouched(earlier, len) {
                lemma_assembled_push(original, earlier, s@);
            }
        }
        if s.byte_start <= s.byte_end && s.byte_end <= content.len() {
            if s.byte_end <= limit {
                splice(&mut content, s.byte_start, s.byte_end, s.replacement.as_str());
                limit = s.byte_start;
                applied = applied + 1;
                assert(earlier.push(s@).drop_last() == earlier);
                if let Some(lint) = &s.lint {
                    order::insert_text(&mut lints, lint.clone());
                }
            }
        }
    }
    assert(ordered.take(order.len() as int) == ordered);
    proof {
        order::lemma_sorted(text::texts(lints@));
    }
    FileRewrite { content, applied, lints }
}

} // verus!
