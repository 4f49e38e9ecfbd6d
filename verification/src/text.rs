//! Text as a sequence of characters: the searching, splitting and trimming that the
//! parsers and the command builders rest on.

use vstd::prelude::*;
use vstd::string::*;

verus! {

/// `String::push` of the standard library: the string grows by the given character at
/// its end, and nothing else of it changes.
pub assume_specification[ String::push ](string: &mut String, ch: char)
    ensures
        final(string)@ == old(string)@.push(ch),
;

/// The characters with the Unicode property White_Space.
pub open spec fn is_white(c: char) -> bool {
    let code = c as u32;
    ||| 0x09 <= code <= 0x0d
    ||| code == 0x20
    ||| code == 0x85
    ||| code == 0xa0
    ||| code == 0x1680
    ||| 0x2000 <= code <= 0x200a
    ||| code == 0x2028
    ||| code == 0x2029
    ||| code == 0x202f
    ||| code == 0x205f
    ||| code == 0x3000
}

/// `s` without the white space at its start.
pub open spec fn trimmed_start(s: Seq<char>) -> Seq<char>
    decreases s.len(),
{
    if s.len() > 0 && is_white(s.first()) {
        trimmed_start(s.drop_first())
    } else {
        s
    }
}

/// `s` without the white space at its end.
pub open spec fn trimmed_end(s: Seq<char>) -> Seq<char>
    decreases s.len(),
{
    if s.len() > 0 && is_white(s.last()) {
        trimmed_end(s.drop_last())
    } else {
        s
    }
}

/// `s` without the white space at both ends.
pub open spec fn trimmed(s: Seq<char>) -> Seq<char> {
    trimmed_end(trimmed_start(s))
}

/// Whether `s` begins with `prefix`.
pub open spec fn has_prefix(s: Seq<char>, prefix: Seq<char>) -> bool {
    prefix.len() <= s.len() && s.take(prefix.len() as int) == prefix
}

/// Whether `pattern` stands in `s` at position `i`.
pub open spec fn matches_at(s: Seq<char>, pattern: Seq<char>, i: int) -> bool {
    0 <= i && i + pattern.len() <= s.len() && s.subrange(i, i + pattern.len()) == pattern
}

/// The least position, from `from` on, at which `pattern` stands in `s`.
pub open spec fn find_from(s: Seq<char>, pattern: Seq<char>, from: int) -> Option<int>
    decreases s.len() + 1 - from,
{
    if from > s.len() {
        None
    } else if matches_at(s, pattern, from) {
        Some(from)
    } else {
        find_from(s, pattern, from + 1)
    }
}

/// The greatest position, up to `upto`, at which `pattern` stands in `s`.
pub open spec fn rfind_upto(s: Seq<char>, pattern: Seq<char>, upto: int) -> Option<int>
    decreases upto + 1,
{
    if upto < 0 {
        None
    } else if matches_at(s, pattern, upto) {
        Some(upto)
    } else {
        rfind_upto(s, pattern, upto - 1)
    }
}

/// What stands before and after the first `pattern` in `s`.
pub open spec fn split_first(s: Seq<char>, pattern: Seq<char>) -> Option<(Seq<char>, Seq<char>)> {
    match find_from(s, pattern, 0) {
        Some(i) => Some((s.take(i), s.skip(i + pattern.len()))),
        None => None,
    }
}

/// What stands before and after the last `pattern` in `s`.
pub open spec fn split_last(s: Seq<char>, pattern: Seq<char>) -> Option<(Seq<char>, Seq<char>)> {
    match rfind_upto(s, pattern, s.len() as int) {
        Some(i) => Some((s.take(i), s.skip(i + pattern.len()))),
        None => None,
    }
}

/// How often `pattern` stands in `s` from `from` on, occurrences that overlap an earlier
/// one left out.
pub open spec fn count_from(s: Seq<char>, pattern: Seq<char>, from: int) -> nat
    recommends
        pattern.len() > 0,
    decreases s.len() + 1 - from,
{
    if from > s.len() || pattern.len() == 0 {
        0
    } else if matches_at(s, pattern, from) {
        1 + count_from(s, pattern, from + pattern.len())
    } else {
        count_from(s, pattern, from + 1)
    }
}

/// A line that ended in a newline, without the carriage return before that newline.
pub open spec fn without_return(line: Seq<char>) -> Seq<char> {
    if line.len() > 0 && line.last() == '\r' {
        line.drop_last()
    } else {
        line
    }
}

/// The lines of `s`: each ends in `\n` or `\r\n`, which is not part of it, and the last
/// one may also end with the text.
pub open spec fn lines_of(s: Seq<char>) -> Seq<Seq<char>>
    decreases s.len(),
    via lines_of_decreases
{
    if s.len() == 0 {
        Seq::empty()
    } else {
        match find_from(s, seq!['\n'], 0) {
            None => seq![s],
            Some(i) => seq![without_return(s.take(i))] + lines_of(s.skip(i + 1)),
        }
    }
}

#[via_fn]
proof fn lines_of_decreases(s: Seq<char>) {
    lemma_find_from(s, seq!['\n'], 0);
}

/// The texts of `list` one after the other, with `separator` between them.
pub open spec fn joined(list: Seq<Seq<char>>, separator: Seq<char>) -> Seq<char>
    decreases list.len(),
{
    if list.len() == 0 {
        Seq::empty()
    } else if list.len() == 1 {
        list[0]
    } else {
        joined(list.drop_last(), separator) + separator + list.last()
    }
}

/// The texts of `list`.
pub open spec fn texts(list: Seq<String>) -> Seq<Seq<char>> {
    list.map_values(|item: String| item@)
}

/// The text of an optional string.
pub open spec fn opt_text(item: Option<String>) -> Option<Seq<char>> {
    match item {
        Some(s) => Some(s@),
        None => None,
    }
}

/// The text of an optional string slice.
pub open spec fn opt_str(item: Option<&str>) -> Option<Seq<char>> {
    match item {
        Some(s) => Some(s@),
        None => None,
    }
}

/// What `find_from` yields is the least match, and it misses none.
pub proof fn lemma_find_from(s: Seq<char>, pattern: Seq<char>, from: int)
    requires
        0 <= from,
    ensures
        match find_from(s, pattern, from) {
            Some(i) => from <= i && matches_at(s, pattern, i) && (forall|j: int|
                from <= j < i ==> !#[trigger] matches_at(s, pattern, j)),
            None => forall|j: int| from <= j ==> !#[trigger] matches_at(s, pattern, j),
        },
    decreases s.len() + 1 - from,
{
    if from <= s.len() && !matches_at(s, pattern, from) {
        lemma_find_from(s, pattern, from + 1);
    }
}

/// The first match splits a text there.
pub proof fn lemma_split_first(before: Seq<char>, pattern: Seq<char>, after: Seq<char>)
    requires
        forall|i: int|
            0 <= i < before.len() ==> !#[trigger] matches_at(before + pattern + after, pattern, i),
    ensures
        split_first(before + pattern + after, pattern) == Some((before, after)),
{
    let s = before + pattern + after;
    let n = before.len() as int;
    lemma_find_from(s, pattern, 0);
    assert(s.subrange(n, n + pattern.len()) == pattern);
    assert(matches_at(s, pattern, n));
    assert(find_from(s, pattern, 0) == Some(n));
    assert(s.take(n) == before);
    assert(s.skip(n + pattern.len()) == after);
}

/// What `rfind_upto` yields is the greatest match.
pub proof fn lemma_rfind_upto(s: Seq<char>, pattern: Seq<char>, upto: int, i: int)
    requires
        0 <= i <= upto,
        matches_at(s, pattern, i),
        forall|j: int| i < j <= upto ==> !#[trigger] matches_at(s, pattern, j),
    ensures
        rfind_upto(s, pattern, upto) == Some(i),
    decreases upto - i,
{
    if i < upto {
        lemma_rfind_upto(s, pattern, upto - 1, i);
    }
}

/// A text with no white space at its ends stays as it is when it is trimmed.
pub proof fn lemma_trimmed_same(s: Seq<char>)
    requires
        s.len() > 0,
        !is_white(s.first()),
        !is_white(s.last()),
    ensures
        trimmed_start(s) == s,
        trimmed(s) == s,
{
}

/// What is left of a text without the white space at its start is the end of it that begins
/// with something else, and all before that is white space.
pub proof fn law_trimmed_start_is_the_rest(s: Seq<char>) -> (before: Seq<char>)
    ensures
        s == before + trimmed_start(s),
        forall|i: int| 0 <= i < before.len() ==> is_white(#[trigger] before[i]),
        trimmed_start(s).len() > 0 ==> !is_white(trimmed_start(s).first()),
    decreases s.len(),
{
    if s.len() > 0 && is_white(s.first()) {
        let rest = law_trimmed_start_is_the_rest(s.drop_first());
        let before = seq![s.first()] + rest;
        assert(s =~= seq![s.first()] + s.drop_first());
        assert(s =~= before + trimmed_start(s));
        assert forall|i: int| 0 <= i < before.len() implies is_white(#[trigger] before[i]) by {
            if i > 0 {
                assert(before[i] == rest[i - 1]);
            }
        }
        before
    } else {
        assert(s =~= Seq::empty() + s);
        Seq::empty()
    }
}

/// The same of the white space at the end.
proof fn lemma_trimmed_end_is_the_rest(s: Seq<char>) -> (behind: Seq<char>)
    ensures
        s == trimmed_end(s) + behind,
        forall|i: int| 0 <= i < behind.len() ==> is_white(#[trigger] behind[i]),
        trimmed_end(s).len() > 0 ==> !is_white(trimmed_end(s).last()) && trimmed_end(s).first()
            == s.first(),
    decreases s.len(),
{
    if s.len() > 0 && is_white(s.last()) {
        let rest = lemma_trimmed_end_is_the_rest(s.drop_last());
        let behind = rest.push(s.last());
        assert(s =~= s.drop_last().push(s.last()));
        assert(s =~= trimmed_end(s) + behind);
        behind
    } else {
        assert(s =~= s + Seq::empty());
        Seq::empty()
    }
}

/// A trimmed text is the middle of the text: what stands before it and behind it is white
/// space, and it neither begins nor ends with any.
pub proof fn law_trimmed_is_the_middle(s: Seq<char>) -> (ends: (Seq<char>, Seq<char>))
    ensures
        s == ends.0 + trimmed(s) + ends.1,
        forall|i: int| 0 <= i < ends.0.len() ==> is_white(#[trigger] ends.0[i]),
        forall|i: int| 0 <= i < ends.1.len() ==> is_white(#[trigger] ends.1[i]),
        trimmed(s).len() > 0 ==> !is_white(trimmed(s).first()) && !is_white(trimmed(s).last()),
{
    let before = law_trimmed_start_is_the_rest(s);
    let behind = lemma_trimmed_end_is_the_rest(trimmed_start(s));
    assert(s =~= before + trimmed(s) + behind);
    (before, behind)
}

/// White space around a text is all that trimming takes away.
pub proof fn law_trimming_takes_white_space_only(
    before: Seq<char>,
    s: Seq<char>,
    behind: Seq<char>,
)
    requires
        forall|i: int| 0 <= i < before.len() ==> is_white(#[trigger] before[i]),
        forall|i: int| 0 <= i < behind.len() ==> is_white(#[trigger] behind[i]),
        s.len() > 0 ==> !is_white(s.first()) && !is_white(s.last()),
    ensures
        trimmed(before + s + behind) == s,
        s.len() > 0 ==> trimmed_start(before + s + behind) == s + behind,
    decreases before.len(), behind.len(),
{
    let all = before + s + behind;
    if before.len() > 0 {
        let rest = before.drop_first();
        assert(is_white(before[0]));
        assert forall|i: int| 0 <= i < rest.len() implies is_white(#[trigger] rest[i]) by {
            assert(rest[i] == before[i + 1]);
        }
        assert(all.first() == before[0]);
        assert(all.drop_first() =~= rest + s + behind);
        law_trimming_takes_white_space_only(rest, s, behind);
    } else if s.len() == 0 {
        assert(all =~= behind);
        if behind.len() > 0 {
            let rest = behind.drop_first();
            assert(is_white(behind[0]));
            assert forall|i: int| 0 <= i < rest.len() implies is_white(#[trigger] rest[i]) by {
                assert(rest[i] == behind[i + 1]);
            }
            assert(all.drop_first() =~= before + s + rest);
            law_trimming_takes_white_space_only(before, s, rest);
        } else {
            assert(all =~= s);
        }
    } else {
        assert(all =~= s + behind);
        assert(all.first() == s.first());
        assert(trimmed_start(all) == all);
        lemma_trimmed_end_of(s, behind);
    }
}

/// White space behind a text is taken away at its end.
proof fn lemma_trimmed_end_of(s: Seq<char>, behind: Seq<char>)
    requires
        forall|i: int| 0 <= i < behind.len() ==> is_white(#[trigger] behind[i]),
        s.len() > 0,
        !is_white(s.last()),
    ensures
        trimmed_end(s + behind) == s,
    decreases behind.len(),
{
    let all = s + behind;
    if behind.len() > 0 {
        let rest = behind.drop_last();
        assert(is_white(behind[behind.len() - 1]));
        assert forall|i: int| 0 <= i < rest.len() implies is_white(#[trigger] rest[i]) by {
            assert(rest[i] == behind[i]);
        }
        assert(all.last() == behind.last());
        assert(all.drop_last() =~= s + rest);
        lemma_trimmed_end_of(s, rest);
    } else {
        assert(all =~= s);
    }
}

/// A text begins with a prefix if and only if it is the prefix and more.
pub proof fn law_prefix_and_rest(s: Seq<char>, prefix: Seq<char>)
    ensures
        has_prefix(prefix + s, prefix),
        has_prefix(s, prefix) <==> s.len() >= prefix.len() && s == prefix + s.skip(
            prefix.len() as int,
        ),
{
    assert((prefix + s).take(prefix.len() as int) =~= prefix);
    if s.len() >= prefix.len() {
        assert(s =~= s.take(prefix.len() as int) + s.skip(prefix.len() as int));
        if s == prefix + s.skip(prefix.len() as int) {
            assert(s.take(prefix.len() as int) =~= prefix);
        }
    }
}

/// Splitting at the first pattern gives what stands before it, in which the pattern does not
/// begin, and what stands behind it; it fails only where the pattern stands nowhere.
pub proof fn law_split_at_the_first(s: Seq<char>, pattern: Seq<char>)
    ensures
        match split_first(s, pattern) {
            Some((before, after)) => s == before + pattern + after && (forall|j: int|
                0 <= j < before.len() ==> s.subrange(j, #[trigger] (j + pattern.len())) != pattern),
            None => forall|j: int|
                0 <= j <= s.len() - pattern.len() ==> s.subrange(j, #[trigger] (j + pattern.len()))
                    != pattern,
        },
{
    lemma_find_from(s, pattern, 0);
    match find_from(s, pattern, 0) {
        Some(i) => {
            assert(s =~= s.take(i) + s.subrange(i, i + pattern.len()) + s.skip(i + pattern.len()));
            assert forall|j: int| 0 <= j < i implies s.subrange(j, #[trigger] (j + pattern.len()))
                != pattern by {
                assert(!matches_at(s, pattern, j));
            }
        },
        None => {
            assert forall|j: int| 0 <= j <= s.len() - pattern.len() implies s.subrange(
                j,
                #[trigger] (j + pattern.len()),
            ) != pattern by {
                assert(!matches_at(s, pattern, j));
            }
        },
    }
}

/// What `rfind_upto` misses is no match.
proof fn lemma_rfind_is_last(s: Seq<char>, pattern: Seq<char>, upto: int)
    ensures
        match rfind_upto(s, pattern, upto) {
            Some(i) => 0 <= i <= upto && matches_at(s, pattern, i) && (forall|j: int|
                i < j <= upto ==> !#[trigger] matches_at(s, pattern, j)),
            None => forall|j: int| 0 <= j <= upto ==> !#[trigger] matches_at(s, pattern, j),
        },
    decreases upto + 1,
{
    if upto >= 0 && !matches_at(s, pattern, upto) {
        lemma_rfind_is_last(s, pattern, upto - 1);
    }
}

/// Splitting at the last pattern gives what stands before it and what stands behind it, and
/// the pattern begins nowhere further on; it fails only where the pattern stands nowhere.
pub proof fn law_split_at_the_last(s: Seq<char>, pattern: Seq<char>)
    ensures
        match split_last(s, pattern) {
            Some((before, after)) => s == before + pattern + after && (forall|j: int|
                before.len() < j <= s.len() - pattern.len() ==> s.subrange(
                    j,
                    #[trigger] (j + pattern.len()),
                ) != pattern),
            None => forall|j: int|
                0 <= j <= s.len() - pattern.len() ==> s.subrange(j, #[trigger] (j + pattern.len()))
                    != pattern,
        },
{
    lemma_rfind_is_last(s, pattern, s.len() as int);
    match rfind_upto(s, pattern, s.len() as int) {
        Some(i) => {
            assert(s =~= s.take(i) + s.subrange(i, i + pattern.len()) + s.skip(i + pattern.len()));
            assert forall|j: int| i < j <= s.len() - pattern.len() implies s.subrange(
                j,
                #[trigger] (j + pattern.len()),
            ) != pattern by {
                assert(!matches_at(s, pattern, j));
            }
        },
        None => {
            assert forall|j: int| 0 <= j <= s.len() - pattern.len() implies s.subrange(
                j,
                #[trigger] (j + pattern.len()),
            ) != pattern by {
                assert(!matches_at(s, pattern, j));
            }
        },
    }
}

/// A newline ends a line, a carriage return right before it belongs to the end, and text
/// behind the last newline is a line of its own, carriage returns included.
pub proof fn law_lines_end_at_newlines(line: Seq<char>, rest: Seq<char>)
    requires
        !line.contains('\n'),
    ensures
        line.len() == 0 || line.last() != '\r' ==> lines_of(line + seq!['\n'] + rest) == seq![line]
            + lines_of(rest),
        lines_of(line + seq!['\r', '\n'] + rest) == seq![line] + lines_of(rest),
        lines_of(line) == if line.len() == 0 {
            Seq::empty()
        } else {
            seq![line]
        },
{
    let newline = seq!['\n'];
    let returned = line.push('\r');
    lemma_line_before_newline(line, rest);
    assert forall|i: int| 0 <= i < returned.len() implies returned[i] != '\n' by {
        if i < line.len() {
            assert(line.contains(line[i]));
        }
    }
    lemma_line_before_newline(returned, rest);
    assert(returned + newline + rest =~= line + seq!['\r', '\n'] + rest);
    assert(without_return(returned) =~= line);
    if line.len() > 0 {
        lemma_find_from(line, newline, 0);
        if let Some(i) = find_from(line, newline, 0) {
            assert(line.subrange(i, i + 1)[0] == line[i]);
            assert(line.contains(line[i]));
        }
    }
}

/// The first line of a text that has a newline.
proof fn lemma_line_before_newline(line: Seq<char>, rest: Seq<char>)
    requires
        !line.contains('\n'),
    ensures
        lines_of(line + seq!['\n'] + rest) == seq![without_return(line)] + lines_of(rest),
{
    let newline = seq!['\n'];
    let s = line + newline + rest;
    let n = line.len() as int;
    assert forall|i: int| 0 <= i < n implies !#[trigger] matches_at(s, newline, i) by {
        if matches_at(s, newline, i) {
            assert(s.subrange(i, i + 1)[0] == s[i]);
            assert(line.contains(line[i]));
        }
    }
    lemma_find_from(s, newline, 0);
    assert(s.subrange(n, n + 1) =~= newline);
    assert(matches_at(s, newline, n));
    assert(find_from(s, newline, 0) == Some(n));
    assert(s.take(n) =~= line);
    assert(s.skip(n + 1) =~= rest);
}

/// Joining two lists is joining their joins.
pub proof fn law_joins_are_joined(a: Seq<Seq<char>>, b: Seq<Seq<char>>, separator: Seq<char>)
    requires
        a.len() > 0,
    ensures
        joined(Seq::empty(), separator) == Seq::<char>::empty(),
        a.len() == 1 ==> joined(a, separator) == a[0],
        b.len() > 0 ==> joined(a + b, separator) == joined(a, separator) + separator + joined(
            b,
            separator,
        ),
    decreases b.len(),
{
    if b.len() > 0 {
        let all = a + b;
        assert(all.last() == b.last());
        assert(all.drop_last() =~= a + b.drop_last());
        if b.len() == 1 {
            assert(a + b.drop_last() =~= a);
        } else {
            law_joins_are_joined(a, b.drop_last(), separator);
            assert(joined(all, separator) =~= joined(a, separator) + separator + joined(
                b,
                separator,
            ));
        }
    }
}

/// Counting from a position on is counting in what stands there.
proof fn lemma_count_in_rest(s: Seq<char>, pattern: Seq<char>, from: int, skipped: int)
    requires
        pattern.len() > 0,
        0 <= skipped <= from <= s.len() + pattern.len(),
        skipped <= s.len(),
    ensures
        count_from(s, pattern, from) == count_from(s.skip(skipped), pattern, from - skipped),
    decreases s.len() + 1 - from,
{
    let rest = s.skip(skipped);
    if from <= s.len() {
        if from + pattern.len() <= s.len() {
            assert(s.subrange(from, from + pattern.len()) =~= rest.subrange(
                from - skipped,
                from - skipped + pattern.len(),
            ));
        }
        assert(matches_at(s, pattern, from) == matches_at(rest, pattern, from - skipped));
        if matches_at(s, pattern, from) {
            lemma_count_in_rest(s, pattern, from + pattern.len(), skipped);
        } else {
            lemma_count_in_rest(s, pattern, from + 1, skipped);
        }
    }
}

/// Where nothing matches nothing is counted.
proof fn lemma_count_reaches(s: Seq<char>, pattern: Seq<char>, from: int, to: int)
    requires
        pattern.len() > 0,
        0 <= from <= to <= s.len() + 1,
        forall|i: int| from <= i < to ==> !#[trigger] matches_at(s, pattern, i),
    ensures
        count_from(s, pattern, from) == count_from(s, pattern, to),
    decreases to - from,
{
    if from < to {
        assert(!matches_at(s, pattern, from));
        lemma_count_reaches(s, pattern, from + 1, to);
    }
}

/// A pattern counts one more than it counts in what stands behind its first occurrence, and
/// not at all where it does not occur.
pub proof fn law_occurrences_are_counted(s: Seq<char>, pattern: Seq<char>)
    requires
        pattern.len() > 0,
    ensures
        count_from(s, pattern, 0) == match split_first(s, pattern) {
            Some((before, after)) => 1 + count_from(after, pattern, 0),
            None => 0,
        },
{
    lemma_find_from(s, pattern, 0);
    match find_from(s, pattern, 0) {
        Some(i) => {
            lemma_count_reaches(s, pattern, 0, i);
            lemma_count_in_rest(s, pattern, i + pattern.len(), i + pattern.len());
        },
        None => {
            lemma_count_reaches(s, pattern, 0, s.len() as int + 1);
        },
    }
}

/// The characters of `s`, one by one.
pub fn chars_of(s: &str) -> (r: Vec<char>)
    ensures
        r@ == s@,
{
    let mut r: Vec<char> = Vec::new();
    for c in it: s.chars()
        invariant
            r@ == it.seq().take(it.index()),
            it.seq() == s@,
    {
        r.push(c);
    }
    r
}

/// The string that holds `chars` from `from` up to `to`.
pub fn string_of(chars: &Vec<char>, from: usize, to: usize) -> (r: String)
    requires
        from <= to <= chars.len(),
    ensures
        r@ == chars@.subrange(from as int, to as int),
{
    let mut r = String::new();
    let mut i = from;
    while i < to
        invariant
            from <= i <= to <= chars.len(),
            r@ == chars@.subrange(from as int, i as int),
        decreases to - i,
    {
        r.push(chars[i]);
        i = i + 1;
    }
    r
}

/// Whether two texts are the same.
pub fn same(a: &str, b: &str) -> (r: bool)
    ensures
        r == (a@ == b@),
{
    a.to_owned() == b.to_owned()
}

/// Whether `c` is white space.
pub fn is_whitespace(c: char) -> (r: bool)
    ensures
        r == is_white(c),
{
    let code: u32 = c as u32;
    (0x09 <= code && code <= 0x0d) || code == 0x20 || code == 0x85 || code == 0xa0 || code == 0x1680
        || (0x2000 <= code && code <= 0x200a) || code == 0x2028 || code == 0x2029 || code == 0x202f
        || code == 0x205f || code == 0x3000
}

/// `s` without the white space at its start.
pub fn trim_start(s: &str) -> (r: &str)
    ensures
        r@ == trimmed_start(s@),
{
    let chars = chars_of(s);
    let mut i: usize = 0;
    assert(s@.skip(0) == s@);
    while i < chars.len() && is_whitespace(chars[i])
        invariant
            chars@ == s@,
            i <= chars.len(),
            trimmed_start(s@) == trimmed_start(s@.skip(i as int)),
        decreases chars.len() - i,
    {
        assert(s@.skip(i as int).drop_first() == s@.skip(i + 1));
        i = i + 1;
    }
    assert(s@.skip(i as int) == s@.subrange(i as int, s@.len() as int));
    s.substring_char(i, chars.len())
}

/// `s` without the white space at both ends.
pub fn trim(s: &str) -> (r: &str)
    ensures
        r@ == trimmed(s@),
{
    let rest = trim_start(s);
    let chars = chars_of(rest);
    let mut end: usize = chars.len();
    assert(rest@.subrange(0, end as int) == rest@);
    while end > 0 && is_whitespace(chars[end - 1])
        invariant
            chars@ == rest@,
            end <= chars.len(),
            trimmed_end(rest@) == trimmed_end(rest@.subrange(0, end as int)),
        decreases end,
    {
        assert(rest@.subrange(0, end as int).drop_last() == rest@.subrange(0, end - 1));
        end = end - 1;
    }
    rest.substring_char(0, end)
}

/// Whether `s` holds nothing but white space.
pub fn is_blank(s: &str) -> (r: bool)
    ensures
        r == (trimmed(s@).len() == 0),
{
    trim(s).is_empty()
}

/// Whether `pattern` stands in `chars` at position `i`.
fn stands_at(chars: &Vec<char>, pattern: &Vec<char>, i: usize) -> (r: bool)
    requires
        i <= chars.len(),
    ensures
        r == matches_at(chars@, pattern@, i as int),
{
    if pattern.len() > chars.len() - i {
        return false;
    }
    let mut k: usize = 0;
    while k < pattern.len()
        invariant
            i <= chars.len(),
            pattern.len() <= chars.len() - i,
            k <= pattern.len(),
            forall|j: int| 0 <= j < k ==> chars@[i + j] == #[trigger] pattern@[j],
        decreases pattern.len() - k,
    {
        if chars[i + k] != pattern[k] {
            assert(chars@.subrange(i as int, i + pattern.len())[k as int] != pattern@[k as int]);
            return false;
        }
        k = k + 1;
    }
    assert(chars@.subrange(i as int, i + pattern.len()) == pattern@);
    true
}

/// Whether `s` begins with `prefix`.
pub fn starts_with(s: &str, prefix: &str) -> (r: bool)
    ensures
        r == has_prefix(s@, prefix@),
{
    let chars = chars_of(s);
    let pattern = chars_of(prefix);
    assert(s@.subrange(0, prefix@.len() as int) == s@.take(prefix@.len() as int));
    stands_at(&chars, &pattern, 0)
}

/// What follows `prefix` in `s`, where `s` begins with it.
pub fn strip_prefix<'a>(s: &'a str, prefix: &str) -> (r: Option<&'a str>)
    ensures
        match r {
            Some(rest) => has_prefix(s@, prefix@) && rest@ == s@.skip(prefix@.len() as int),
            None => !has_prefix(s@, prefix@),
        },
{
    if starts_with(s, prefix) {
        let from: usize = prefix.unicode_len();
        let to: usize = s.unicode_len();
        assert(s@.subrange(from as int, to as int) == s@.skip(from as int));
        Some(s.substring_char(from, to))
    } else {
        None
    }
}

/// What stands before and after the first `pattern` in `s`.
pub fn split_once<'a>(s: &'a str, pattern: &str) -> (r: Option<(&'a str, &'a str)>)
    ensures
        match r {
            Some((before, after)) => split_first(s@, pattern@) == Some((before@, after@)),
            None => split_first(s@, pattern@) is None,
        },
{
    let chars = chars_of(s);
    let wanted = chars_of(pattern);
    let mut i: usize = 0;
    while i < chars.len()
        invariant
            chars@ == s@,
            wanted@ == pattern@,
            i <= chars.len(),
            find_from(s@, pattern@, 0) == find_from(s@, pattern@, i as int),
        decreases chars.len() - i,
    {
        if stands_at(&chars, &wanted, i) {
            let before = s.substring_char(0, i);
            let after = s.substring_char(i + wanted.len(), chars.len());
            assert(before@ == s@.take(i as int));
            assert(after@ == s@.skip(i + pattern@.len()));
            return Some((before, after));
        }
        i = i + 1;
    }
    if wanted.len() == 0 {
        let before = s.substring_char(0, i);
        let after = s.substring_char(i, i);
        assert(s@.subrange(i as int, i as int) == pattern@);
        assert(before@ == s@.take(i as int));
        assert(after@ == s@.skip(i as int));
        return Some((before, after));
    }
    assert(find_from(s@, pattern@, i + 1) is None);
    None
}

/// What stands before and after the last `pattern` in `s`.
pub fn rsplit_once<'a>(s: &'a str, pattern: &str) -> (r: Option<(&'a str, &'a str)>)
    ensures
        match r {
            Some((before, after)) => split_last(s@, pattern@) == Some((before@, after@)),
            None => split_last(s@, pattern@) is None,
        },
{
    let chars = chars_of(s);
    let wanted = chars_of(pattern);
    let mut left: usize = chars.len();
    loop
        invariant
            chars@ == s@,
            wanted@ == pattern@,
            left <= chars.len(),
            rfind_upto(s@, pattern@, s@.len() as int) == rfind_upto(s@, pattern@, left as int),
        decreases left,
    {
        if stands_at(&chars, &wanted, left) {
            let before = s.substring_char(0, left);
            let after = s.substring_char(left + wanted.len(), chars.len());
            assert(before@ == s@.take(left as int));
            assert(after@ == s@.skip(left + pattern@.len()));
            return Some((before, after));
        }
        if left == 0 {
            assert(rfind_upto(s@, pattern@, -1) is None);
            return None;
        }
        left = left - 1;
    }
}

/// How often `pattern` stands in `s`, occurrences that overlap an earlier one left out.
pub fn count_matches(s: &str, pattern: &str) -> (r: usize)
    requires
        pattern@.len() > 0,
    ensures
        r == count_from(s@, pattern@, 0),
{
    let chars = chars_of(s);
    let wanted = chars_of(pattern);
    let mut i: usize = 0;
    let mut n: usize = 0;
    while i < chars.len()
        invariant
            chars@ == s@,
            wanted@ == pattern@,
            wanted.len() > 0,
            n <= i <= chars.len(),
            count_from(s@, pattern@, 0) == n + count_from(s@, pattern@, i as int),
        decreases chars.len() - i,
    {
        if stands_at(&chars, &wanted, i) {
            i = i + wanted.len();
            n = n + 1;
        } else {
            i = i + 1;
        }
    }
    assert(count_from(s@, pattern@, i + 1) == 0);
    n
}

/// The texts of `list` one after the other, with `separator` between them.
pub fn join(list: &Vec<String>, separator: &str) -> (r: String)
    ensures
        r@ == joined(texts(list@), separator@),
{
    let ghost all = texts(list@);
    let mut r = String::new();
    for i in 0..list.len()
        invariant
            all == texts(list@),
            r@ == joined(all.take(i as int), separator@),
    {
        assert(all.take(i + 1).drop_last() == all.take(i as int));
        assert(all.take(i + 1).last() == list@[i as int]@);
        if i > 0 {
            r.append(separator);
        }
        r.append(list[i].as_str());
    }
    assert(all.take(list.len() as int) == all);
    r
}

/// The lines of `s`.
pub fn lines(s: &str) -> (r: Vec<String>)
    ensures
        texts(r@) == lines_of(s@),
{
    let chars = chars_of(s);
    let ghost newline: Seq<char> = seq!['\n'];
    let mut r: Vec<String> = Vec::new();
    let mut start: usize = 0;
    let mut i: usize = 0;
    assert(s@.skip(0) == s@);
    assert(texts(r@) + lines_of(s@) == lines_of(s@));
    while i < chars.len()
        invariant
            chars@ == s@,
            newline == seq!['\n'],
            start <= i <= chars.len(),
            forall|j: int| start <= j < i ==> #[trigger] chars@[j] != '\n',
            texts(r@) + lines_of(s@.skip(start as int)) == lines_of(s@),
        decreases chars.len() - i,
    {
        if chars[i] == '\n' {
            let ghost rest = s@.skip(start as int);
            let ghost before = texts(r@);
            proof {
                let k = i - start;
                lemma_find_from(rest, newline, 0);
                assert(rest.subrange(k, k + 1) == newline);
                assert(matches_at(rest, newline, k));
                assert forall|j: int| 0 <= j < k implies !#[trigger] matches_at(
                    rest,
                    newline,
                    j,
                ) by {
                    if matches_at(rest, newline, j) {
                        assert(rest.subrange(j, j + 1)[0] == rest[j]);
                        assert(rest[j] == chars@[start + j]);
                    }
                }
                assert(find_from(rest, newline, 0) == Some(k));
                assert(rest.take(k) == s@.subrange(start as int, i as int));
                assert(rest.skip(k + 1) == s@.skip(i + 1));
            }
            let end: usize = if i > start && chars[i - 1] == '\r' {
                i - 1
            } else {
                i
            };
            let line = string_of(&chars, start, end);
            assert(line@ == without_return(rest.take(i - start)));
            r.push(line);
            assert(texts(r@) == before.push(line@));
            start = i + 1;
            assert(texts(r@) + lines_of(s@.skip(start as int)) == before + lines_of(rest));
        }
        i = i + 1;
    }
    let ghost rest = s@.skip(start as int);
    let ghost before = texts(r@);
    if start < chars.len() {
        proof {
            lemma_find_from(rest, newline, 0);
            assert forall|j: int| 0 <= j implies !#[trigger] matches_at(rest, newline, j) by {
                if matches_at(rest, newline, j) {
                    assert(rest.subrange(j, j + 1)[0] == rest[j]);
                    assert(rest[j] == chars@[start + j]);
                }
            }
            assert(find_from(rest, newline, 0) is None);
        }
        let line = string_of(&chars, start, chars.len());
        assert(line@ == rest);
        r.push(line);
        assert(texts(r@) == before.push(line@));
        assert(texts(r@) == before + lines_of(rest));
    } else {
        assert(texts(r@) == before + lines_of(rest));
    }
    r
}

} // verus!
