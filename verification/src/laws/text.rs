//! What lines, words and columns of a text are.

use crate::shared::lido::column::{ascii_column_counts_characters, column};
use crate::text::{
    after, before, index_of, is_ascii_text, is_white, lemma_index_of_unique, contains,
    lemma_trim_start, lines, lowercase, occurs_at, starts_with, trim, trim_end, trim_start,
    word_len, words,
};
use vstd::prelude::*;

verus! {

/// Whether an ASCII character is a blank: tab to carriage return, or the space.
pub open spec fn is_blank(c: char) -> bool {
    9 <= c as u32 <= 13 || c == ' '
}

/// Of the ASCII characters the blanks are white space, and no others.
pub proof fn blanks_are_white(c: char)
    requires
        (c as u32) < 0x80,
    ensures
        is_white(c) <==> is_blank(c),
{
}

/// Capitals of ASCII have the letter below them, and no other character changes.
pub proof fn lower_case_is_that_of_ascii(s: Seq<char>, i: int)
    requires
        0 <= i < s.len(),
    ensures
        lowercase(s).len() == s.len(),
        'A' <= s[i] && s[i] <= 'Z' ==> lowercase(s)[i] as u32 == s[i] as u32 + 32,
        !('A' <= s[i] && s[i] <= 'Z') ==> lowercase(s)[i] == s[i],
{
}

/// Whether `t` is what is left of `s` without the white space at its ends: a run
/// of it with white space alone around it, that neither starts nor ends with it.
pub open spec fn is_trimmed(t: Seq<char>, s: Seq<char>) -> bool {
    exists|i: int, j: int|
        0 <= i <= j <= s.len() && t == #[trigger] s.subrange(i, j) && (forall|k: int|
            0 <= k < i || j <= k < s.len() ==> is_white(#[trigger] s[k])) && (i < j ==> !is_white(
            s[i],
        ) && !is_white(s[j - 1]))
}

proof fn lemma_trim_end(s: Seq<char>)
    ensures
        trim_end(s).len() <= s.len(),
        trim_end(s) == s.take(trim_end(s).len() as int),
        trim_end(s).len() > 0 ==> !is_white(trim_end(s).last()),
        forall|k: int| trim_end(s).len() <= k < s.len() ==> is_white(#[trigger] s[k]),
    decreases s.len(),
{
    if s.len() > 0 && is_white(s.last()) {
        lemma_trim_end(s.drop_last());
        let n = trim_end(s).len() as int;
        assert(s.drop_last().take(n) =~= s.take(n));
        assert forall|k: int| n <= k < s.len() implies is_white(#[trigger] s[k]) by {
            if k < s.len() - 1 {
                assert(s[k] == s.drop_last()[k]);
            }
        }
    } else {
        assert(s.take(s.len() as int) =~= s);
    }
}

proof fn lemma_skipped_white(s: Seq<char>)
    ensures
        forall|k: int| 0 <= k < s.len() - trim_start(s).len() ==> is_white(#[trigger] s[k]),
    decreases s.len(),
{
    if s.len() > 0 && is_white(s[0]) {
        lemma_skipped_white(s.drop_first());
        assert forall|k: int| 0 <= k < s.len() - trim_start(s).len() implies is_white(
            #[trigger] s[k],
        ) by {
            if k > 0 {
                assert(s[k] == s.drop_first()[k - 1]);
            }
        }
    }
}

/// Trimming takes away the white space at both ends, and nothing else.
pub proof fn trimming_takes_white_ends(s: Seq<char>)
    ensures
        is_trimmed(trim(s), s),
{
    let r = trim_start(s);
    lemma_trim_start(s);
    lemma_skipped_white(s);
    lemma_trim_end(r);
    let i = s.len() - r.len();
    let j = i + trim(s).len();
    assert(trim(s) =~= s.subrange(i, j));
    assert forall|k: int| 0 <= k < i || j <= k < s.len() implies is_white(#[trigger] s[k]) by {
        if k >= j {
            assert(s[k] == r[k - i]);
        }
    }
    if i < j {
        assert(s[i] == r[0]);
        assert(s[j - 1] == trim(s).last());
    }
}

/// There is one way to trim a text.
pub proof fn lemma_trimmed_unique(t: Seq<char>, s: Seq<char>)
    requires
        is_trimmed(t, s),
    ensures
        t == trim(s),
{
    trimming_takes_white_ends(s);
    let u = trim(s);
    let (i, j) = choose|i: int, j: int|
        0 <= i <= j <= s.len() && t == #[trigger] s.subrange(i, j) && (forall|k: int|
            0 <= k < i || j <= k < s.len() ==> is_white(#[trigger] s[k])) && (i < j ==> !is_white(
            s[i],
        ) && !is_white(s[j - 1]));
    let (m, n) = choose|i: int, j: int|
        0 <= i <= j <= s.len() && u == #[trigger] s.subrange(i, j) && (forall|k: int|
            0 <= k < i || j <= k < s.len() ==> is_white(#[trigger] s[k])) && (i < j ==> !is_white(
            s[i],
        ) && !is_white(s[j - 1]));
    if i < j {
        assert(!is_white(s[i]) && !is_white(s[j - 1]));
        assert(m <= i && j <= n);
        assert(!is_white(s[m]) && !is_white(s[n - 1]));
        assert(i <= m && n <= j);
    } else if m < n {
        assert(!is_white(s[m]));
    } else {
        assert(t =~= u);
    }
}

/// White space before a text adds no word.
pub proof fn words_skip_white(c: char, s: Seq<char>)
    requires
        is_white(c),
    ensures
        words(seq![c] + s) == words(s),
        words(Seq::<char>::empty()).len() == 0,
{
    let t = seq![c] + s;
    assert(t.drop_first() =~= s);
    assert(trim_start(t) == trim_start(s));
}

proof fn lemma_word(w: Seq<char>, rest: Seq<char>)
    requires
        forall|i: int| 0 <= i < w.len() ==> !is_white(#[trigger] w[i]),
        rest.len() == 0 || is_white(rest[0]),
    ensures
        word_len(w + rest) == w.len(),
    decreases w.len(),
{
    let s = w + rest;
    if w.len() > 0 {
        assert(s[0] == w[0]);
        assert(s.drop_first() =~= w.drop_first() + rest);
        assert forall|i: int| 0 <= i < w.drop_first().len() implies !is_white(
            #[trigger] w.drop_first()[i],
        ) by {
            assert(w.drop_first()[i] == w[i + 1]);
        }
        lemma_word(w.drop_first(), rest);
    } else {
        assert(s =~= rest);
    }
}

/// The first word of a text is what stands before its first white space, and the
/// others are those of the rest.
pub proof fn words_end_at_white(w: Seq<char>, rest: Seq<char>)
    requires
        w.len() > 0,
        forall|i: int| 0 <= i < w.len() ==> !is_white(#[trigger] w[i]),
        rest.len() == 0 || is_white(rest[0]),
    ensures
        words(w + rest) == seq![w] + words(rest),
{
    let s = w + rest;
    assert(s[0] == w[0]);
    assert(trim_start(s) == s);
    lemma_word(w, rest);
    assert(s.take(w.len() as int) =~= w);
    assert(s.skip(w.len() as int) =~= rest);
}

/// A line ends at a line feed, which is not part of it, nor is a carriage return
/// right before it; the lines after it are those of the rest. What stands after the
/// last line feed is a line too, unless it is nothing.
pub proof fn lines_end_at_line_feed(line: Seq<char>, rest: Seq<char>)
    requires
        forall|i: int| 0 <= i < line.len() ==> #[trigger] line[i] != '\n',
    ensures
        line.len() == 0 || line.last() != '\r' ==> lines(line + seq!['\n'] + rest) == seq![line]
            + lines(rest),
        lines(line + seq!['\r', '\n'] + rest) == seq![line] + lines(rest),
        line.len() > 0 ==> lines(line) == seq![line],
        lines(Seq::<char>::empty()).len() == 0,
{
    let s = line + seq!['\n'] + rest;
    lemma_line(line, rest);
    let long = line.push('\r');
    assert forall|i: int| 0 <= i < long.len() implies #[trigger] long[i] != '\n' by {
        if i < line.len() {
            assert(long[i] == line[i]);
        }
    }
    lemma_line(long, rest);
    assert(line + seq!['\r', '\n'] + rest =~= long + seq!['\n'] + rest);
    assert(long.drop_last() =~= line);
    lemma_index_of_unique(line, '\n', line.len() as int);
}

proof fn lemma_line(line: Seq<char>, rest: Seq<char>)
    requires
        forall|i: int| 0 <= i < line.len() ==> #[trigger] line[i] != '\n',
    ensures
        ({
            let s = line + seq!['\n'] + rest;
            s.len() > 0 && index_of(s, '\n') == line.len() && before(s, '\n') == line && after(
                s,
                '\n',
            ) == rest
        }),
{
    let s = line + seq!['\n'] + rest;
    assert forall|i: int| 0 <= i < line.len() implies #[trigger] s[i] != '\n' by {
        assert(s[i] == line[i]);
    }
    lemma_index_of_unique(s, '\n', line.len() as int);
    assert(before(s, '\n') =~= line);
    assert(after(s, '\n') =~= rest);
}

/// A text is parted at the first of a character in it.
pub proof fn texts_are_parted_at_the_first(a: Seq<char>, c: char, b: Seq<char>)
    requires
        forall|i: int| 0 <= i < a.len() ==> #[trigger] a[i] != c,
    ensures
        before(a + seq![c] + b, c) == a,
        after(a + seq![c] + b, c) == b,
        index_of(a + seq![c] + b, c) == a.len(),
        before(a, c) == a,
        index_of(a, c) == a.len(),
{
    let s = a + seq![c] + b;
    assert forall|i: int| 0 <= i < a.len() implies #[trigger] s[i] != c by {
        assert(s[i] == a[i]);
    }
    lemma_index_of_unique(s, c, a.len() as int);
    lemma_index_of_unique(a, c, a.len() as int);
    assert(before(s, c) =~= a);
    assert(after(s, c) =~= b);
    assert(before(a, c) =~= a);
}

/// Whether `t` is what stands in a line from one character to another, or to its
/// end, without the blanks around it, and is not nothing.
pub open spec fn stands_in(t: Seq<char>, line: Seq<char>, start: int, end: int) -> bool {
    let stop = if end < line.len() {
        end
    } else {
        line.len() as int
    };
    start < stop && t.len() > 0 && is_trimmed(t, line.subrange(start, stop))
}

/// A column of a line of ASCII characters is what stands in it from one character
/// to another; none where that is nothing.
pub proof fn columns_count_characters(line: Seq<char>, start: int, end: int)
    requires
        is_ascii_text(line),
        0 <= start < end,
    ensures
        match column(line, start, end) {
            Some(t) => stands_in(t, line, start, end),
            None => forall|t: Seq<char>| !#[trigger] stands_in(t, line, start, end),
        },
        forall|t: Seq<char>|
            #[trigger] stands_in(t, line, start, end) ==> column(line, start, end) == Some(t),
{
    ascii_column_counts_characters(line, start, end);
    let stop = if end < line.len() {
        end
    } else {
        line.len() as int
    };
    if start < stop {
        let inside = line.subrange(start, stop);
        trimming_takes_white_ends(inside);
        assert forall|t: Seq<char>| #[trigger] stands_in(t, line, start, end) implies t == trim(
            inside,
        ) by {
            lemma_trimmed_unique(t, inside);
        }
    }
}

/// A text starts with another iff it is that one and something after it.
pub proof fn prefixes_start_texts(s: Seq<char>, p: Seq<char>, rest: Seq<char>)
    ensures
        starts_with(p + rest, p),
        starts_with(s, p) ==> s == p + s.skip(p.len() as int),
        contains(rest + p + s, p),
        contains(s, p) ==> exists|i: int|
            0 <= i <= s.len() - p.len() && s == #[trigger] s.take(i) + p + s.skip(i + p.len()),
{
    assert((p + rest).take(p.len() as int) =~= p);
    if starts_with(s, p) {
        assert(s =~= p + s.skip(p.len() as int));
    }
    let t = rest + p + s;
    assert(t.subrange(rest.len() as int, rest.len() as int + p.len()) =~= p);
    assert(occurs_at(t, p, rest.len() as int));
    if contains(s, p) {
        let i = choose|i: int| occurs_at(s, p, i);
        assert(s =~= s.take(i) + p + s.skip(i + p.len()));
    }
}

} // verus!
