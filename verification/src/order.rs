//! The order of texts, and lists that are kept in it.

use vstd::prelude::*;

use crate::text;

verus! {

/// Whether `a` comes before `b`: at the first position where they differ `a` has the
/// smaller character, or `a` ends there.
pub open spec fn text_before(a: Seq<char>, b: Seq<char>) -> bool
    decreases a.len(),
{
    if b.len() == 0 {
        false
    } else if a.len() == 0 {
        true
    } else if a.first() == b.first() {
        text_before(a.drop_first(), b.drop_first())
    } else {
        a.first() < b.first()
    }
}

/// Whether each text of `list` comes before those that follow it.
pub open spec fn ascending(list: Seq<Seq<char>>) -> bool {
    forall|i: int, j: int| 0 <= i < j < list.len() ==> text_before(#[trigger] list[i], #[trigger] list[j])
}

/// No text comes before itself.
pub proof fn lemma_text_before_irreflexive(a: Seq<char>)
    ensures
        !text_before(a, a),
    decreases a.len(),
{
    if a.len() > 0 {
        lemma_text_before_irreflexive(a.drop_first());
    }
}

/// What comes before a second text comes before all that the second one comes before.
pub proof fn lemma_text_before_transitive(a: Seq<char>, b: Seq<char>, c: Seq<char>)
    requires
        text_before(a, b),
        text_before(b, c),
    ensures
        text_before(a, c),
    decreases a.len(),
{
    if a.len() > 0 && b.len() > 0 && c.len() > 0 && a.first() == b.first() && b.first()
        == c.first() {
        lemma_text_before_transitive(a.drop_first(), b.drop_first(), c.drop_first());
    }
}

/// Of two different texts one comes before the other.
pub proof fn lemma_text_before_total(a: Seq<char>, b: Seq<char>)
    requires
        a != b,
    ensures
        text_before(a, b) || text_before(b, a),
    decreases a.len(),
{
    if a.len() == 0 {
        assert(b.len() > 0) by {
            if b.len() == 0 {
                assert(a == b);
            }
        }
    } else if b.len() > 0 && a.first() == b.first() {
        if a.drop_first() == b.drop_first() {
            assert(a == seq![a.first()] + a.drop_first());
            assert(b == seq![b.first()] + b.drop_first());
        }
        lemma_text_before_total(a.drop_first(), b.drop_first());
    }
}

/// What two texts begin with in common does not count; then the smaller character counts, or
/// else the shorter text comes first.
pub proof fn law_first_difference_counts(common: Seq<char>, a: Seq<char>, b: Seq<char>)
    ensures
        text_before(common + a, common + b) == text_before(a, b),
        a.len() > 0 && b.len() > 0 && a[0] != b[0] ==> text_before(a, b) == (a[0] < b[0]),
        a.len() == 0 ==> text_before(a, b) == (b.len() > 0),
        b.len() == 0 ==> !text_before(a, b),
    decreases common.len(),
{
    if common.len() == 0 {
        assert(common + a =~= a);
        assert(common + b =~= b);
    } else {
        law_first_difference_counts(common.drop_first(), a, b);
        assert((common + a).drop_first() =~= common.drop_first() + a);
        assert((common + b).drop_first() =~= common.drop_first() + b);
        assert((common + a).first() == common.first());
        assert((common + b).first() == common.first());
    }
}

/// Two lists in ascending order that hold the same texts are the same list.
pub proof fn law_ascending_list_is_determined(a: Seq<Seq<char>>, b: Seq<Seq<char>>)
    requires
        ascending(a),
        ascending(b),
        a.to_set() == b.to_set(),
    ensures
        a == b,
    decreases a.len(),
{
    if a.len() == 0 {
        if b.len() > 0 {
            assert(b.to_set().contains(b[0]));
            assert(a.to_set().contains(b[0]));
        }
    } else {
        assert(a.to_set().contains(a.last()));
        assert(b.contains(a.last()));
        let j = choose|j: int| 0 <= j < b.len() && b[j] == a.last();
        if j < b.len() - 1 {
            assert(text_before(b[j], b.last()));
            assert(b.to_set().contains(b.last()));
            assert(a.contains(b.last()));
            let i = choose|i: int| 0 <= i < a.len() && a[i] == b.last();
            if i < a.len() - 1 {
                assert(text_before(a[i], a.last()));
                lemma_text_before_transitive(a.last(), b.last(), a.last());
            }
            lemma_text_before_irreflexive(a.last());
        }
        assert(a.last() == b.last());
        let x = a.drop_last();
        let y = b.drop_last();
        assert forall|t: Seq<char>| x.to_set().contains(t) == y.to_set().contains(t) by {
            lemma_text_before_irreflexive(a.last());
            if x.contains(t) {
                let i = choose|i: int| 0 <= i < x.len() && x[i] == t;
                assert(text_before(a[i], a.last()));
                assert(a.to_set().contains(a[i]));
                assert(b.contains(t));
                let k = choose|k: int| 0 <= k < b.len() && b[k] == t;
                assert(k < b.len() - 1);
                assert(y[k] == t);
            }
            if y.contains(t) {
                let i = choose|i: int| 0 <= i < y.len() && y[i] == t;
                assert(text_before(b[i], b.last()));
                assert(b.to_set().contains(b[i]));
                assert(a.contains(t));
                let k = choose|k: int| 0 <= k < a.len() && a[k] == t;
                assert(k < a.len() - 1);
                assert(x[k] == t);
            }
        }
        assert(x.to_set() == y.to_set());
        law_ascending_list_is_determined(x, y);
        assert(a == x.push(a.last()));
        assert(b == y.push(b.last()));
    }
}

/// The list in ascending order that holds each of `names` once.
pub open spec fn sorted(names: Set<Seq<char>>) -> Seq<Seq<char>> {
    choose|list: Seq<Seq<char>>| ascending(list) && list.to_set() == names
}

/// A list in ascending order is the sorted list of what it holds.
pub proof fn lemma_sorted(list: Seq<Seq<char>>)
    requires
        ascending(list),
    ensures
        sorted(list.to_set()) == list,
{
    law_ascending_list_is_determined(sorted(list.to_set()), list);
}

/// Whether the code of `a` is less than that of `b`.
fn smaller(a: char, b: char) -> (r: bool)
    ensures
        r == (a < b),
{
    (a as u32) < (b as u32)
}

/// Whether `a` comes before `b`.
pub fn comes_before(a: &str, b: &str) -> (r: bool)
    ensures
        r == text_before(a@, b@),
{
    let left = text::chars_of(a);
    let right = text::chars_of(b);
    let mut i: usize = 0;
    assert(a@.skip(0) == a@ && b@.skip(0) == b@);
    while i < left.len() && i < right.len() && left[i] == right[i]
        invariant
            left@ == a@,
            right@ == b@,
            i <= left.len(),
            i <= right.len(),
            text_before(a@, b@) == text_before(a@.skip(i as int), b@.skip(i as int)),
        decreases left.len() - i,
    {
        assert(a@.skip(i as int).drop_first() == a@.skip(i + 1));
        assert(b@.skip(i as int).drop_first() == b@.skip(i + 1));
        i = i + 1;
    }
    if i == right.len() {
        false
    } else if i == left.len() {
        true
    } else {
        smaller(left[i], right[i])
    }
}

/// Putting a text between those that come before it and those that it comes before keeps
/// the order.
proof fn lemma_insert_at(list: Seq<Seq<char>>, word: Seq<char>, i: int)
    requires
        ascending(list),
        0 <= i <= list.len(),
        forall|j: int| 0 <= j < i ==> text_before(#[trigger] list[j], word),
        i < list.len() ==> text_before(word, list[i]),
    ensures
        ascending(list.insert(i, word)),
        list.insert(i, word).to_set() == list.to_set().insert(word),
{
    let after = list.insert(i, word);
    assert forall|j: int| i <= j < list.len() implies text_before(word, #[trigger] list[j]) by {
        if j > i {
            lemma_text_before_transitive(word, list[i], list[j]);
        }
    }
    assert forall|j: int, k: int| 0 <= j < k < after.len() implies text_before(
        #[trigger] after[j],
        #[trigger] after[k],
    ) by {
        let x = if j < i { list[j] } else if j == i { word } else { list[j - 1] };
        let y = if k < i { list[k] } else if k == i { word } else { list[k - 1] };
        assert(after[j] == x && after[k] == y);
    }
    assert forall|t: Seq<char>| after.to_set().contains(t) == list.to_set().insert(word).contains(t) by {
        if after.contains(t) {
            let k = choose|k: int| 0 <= k < after.len() && after[k] == t;
            if k < i {
                assert(list[k] == t);
            } else if k > i {
                assert(list[k - 1] == t);
            }
        }
        if list.contains(t) {
            let k = choose|k: int| 0 <= k < list.len() && list[k] == t;
            if k < i {
                assert(after[k] == t);
            } else {
                assert(after[k + 1] == t);
            }
        }
        assert(after[i] == word);
    }
    assert(after.to_set() =~= list.to_set().insert(word));
}

/// A list in ascending order can take up any text.
pub proof fn lemma_insertion_exists(list: Seq<Seq<char>>, word: Seq<char>) -> (r: Seq<Seq<char>>)
    requires
        ascending(list),
    ensures
        ascending(r),
        r.to_set() == list.to_set().insert(word),
    decreases list.len(),
{
    if list.contains(word) {
        assert(list.to_set().insert(word) =~= list.to_set());
        list
    } else {
        let i = lemma_insertion_point(list, word);
        lemma_insert_at(list, word, i);
        list.insert(i, word)
    }
}

/// A text that is not in a list in ascending order has a place in it.
proof fn lemma_insertion_point(list: Seq<Seq<char>>, word: Seq<char>) -> (i: int)
    requires
        ascending(list),
        !list.contains(word),
    ensures
        0 <= i <= list.len(),
        forall|j: int| 0 <= j < i ==> text_before(#[trigger] list[j], word),
        i < list.len() ==> text_before(word, list[i]),
    decreases list.len(),
{
    if list.len() == 0 {
        0
    } else {
        let rest = list.drop_last();
        assert(!rest.contains(word)) by {
            if rest.contains(word) {
                let k = choose|k: int| 0 <= k < rest.len() && rest[k] == word;
                assert(list[k] == word);
            }
        }
        let i = lemma_insertion_point(rest, word);
        assert(list[list.len() - 1] != word);
        lemma_text_before_total(list[list.len() - 1], word);
        if i < rest.len() {
            assert(rest[i] == list[i]);
            assert forall|j: int| 0 <= j < i implies text_before(#[trigger] list[j], word) by {
                assert(rest[j] == list[j]);
            }
            i
        } else {
            assert forall|j: int| 0 <= j < i implies text_before(#[trigger] list[j], word) by {
                assert(rest[j] == list[j]);
            }
            if text_before(list[i], word) {
                i + 1
            } else {
                i
            }
        }
    }
}

/// Puts `item` at its place in a list in ascending order, unless it is there.
pub fn insert_text(list: &mut Vec<String>, item: String)
    requires
        ascending(text::texts(old(list)@)),
    ensures
        ascending(text::texts(final(list)@)),
        text::texts(final(list)@).to_set() == text::texts(old(list)@).to_set().insert(item@),
{
    let ghost before = text::texts(list@);
    let ghost word = item@;
    let mut i: usize = 0;
    while i < list.len() && comes_before(list[i].as_str(), item.as_str())
        invariant
            text::texts(list@) == before,
            item@ == word,
            i <= list.len(),
            forall|j: int| 0 <= j < i ==> text_before(#[trigger] before[j], word),
        decreases list.len() - i,
    {
        assert(before[i as int] == list@[i as int]@);
        i = i + 1;
    }
    if i < list.len() {
        assert(before[i as int] == list@[i as int]@);
        if list[i] == item {
            assert(before.to_set().insert(word) =~= before.to_set()) by {
                assert(before.contains(before[i as int]));
            }
            return;
        }
        proof {
            lemma_text_before_total(before[i as int], word);
        }
    }
    list.insert(i, item);
    proof {
        assert(text::texts(list@) =~= before.insert(i as int, word));
        lemma_insert_at(before, word, i as int);
    }
}

} // verus!
