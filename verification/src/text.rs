//! Characters, lines, words and columns of a text.
//!
//! A text is a sequence of characters. Columns of a fixed-width table are
//! counted in bytes of its UTF-8 encoding.

use vstd::prelude::*;
use vstd::slice::{slice_subrange, slice_to_vec};

verus! {

/// `String::push` appends one character.
pub assume_specification[ std::string::String::push ](s: &mut std::string::String, c: char)
    ensures
        final(s)@ == old(s)@.push(c),
;

/// The Unicode property White_Space.
pub open spec fn is_white(c: char) -> bool {
    let n = c as u32;
    ||| 0x9 <= n <= 0xd
    ||| n == 0x20
    ||| n == 0x85
    ||| n == 0xa0
    ||| n == 0x1680
    ||| 0x2000 <= n <= 0x200a
    ||| n == 0x2028
    ||| n == 0x2029
    ||| n == 0x202f
    ||| n == 0x205f
    ||| n == 0x3000
}

pub open spec fn is_digit(c: char) -> bool {
    '0' <= c && c <= '9'
}

pub open spec fn is_upper(c: char) -> bool {
    'A' <= c && c <= 'Z'
}

pub open spec fn is_lower(c: char) -> bool {
    'a' <= c && c <= 'z'
}

pub open spec fn is_alphanumeric(c: char) -> bool {
    is_digit(c) || is_upper(c) || is_lower(c)
}

pub open spec fn is_ascii_text(s: Seq<char>) -> bool {
    forall|i: int| 0 <= i < s.len() ==> (#[trigger] s[i] as u32) < 0x80
}

/// The ASCII lower-case form of a character.
pub open spec fn lower(c: char) -> char {
    if is_upper(c) {
        ((c as u32 + 32) as u32) as char
    } else {
        c
    }
}

/// A text with every ASCII capital in lower case.
pub open spec fn lowercase(s: Seq<char>) -> Seq<char> {
    s.map_values(|c: char| lower(c))
}

/// Bytes that a character takes in UTF-8.
pub open spec fn char_width(c: char) -> nat {
    let n = c as u32;
    if n < 0x80 {
        1
    } else if n < 0x800 {
        2
    } else if n < 0x10000 {
        3
    } else {
        4
    }
}

/// Bytes that a text takes in UTF-8.
pub open spec fn byte_len(s: Seq<char>) -> nat
    decreases s.len(),
{
    if s.len() == 0 {
        0
    } else {
        byte_len(s.drop_last()) + char_width(s.last())
    }
}

/// The texts held by a list of character vectors.
pub open spec fn texts(v: Seq<Vec<char>>) -> Seq<Seq<char>> {
    Seq::new(v.len(), |i: int| v[i]@)
}

/// The text of an optional string.
pub open spec fn text_of(s: Option<String>) -> Option<Seq<char>> {
    match s {
        Some(t) => Some(t@),
        None => None,
    }
}

/// The texts held by a list of strings.
pub open spec fn string_views(v: Seq<String>) -> Seq<Seq<char>> {
    Seq::new(v.len(), |i: int| v[i]@)
}

pub open spec fn starts_with(s: Seq<char>, p: Seq<char>) -> bool {
    p.len() <= s.len() && s.take(p.len() as int) == p
}

/// Whether `p` occurs in `s` at index `i`.
pub open spec fn occurs_at(s: Seq<char>, p: Seq<char>, i: int) -> bool {
    0 <= i && i + p.len() <= s.len() && s.subrange(i, i + p.len()) == p
}

pub open spec fn contains(s: Seq<char>, p: Seq<char>) -> bool {
    exists|i: int| occurs_at(s, p, i)
}

/// Whether `i` is where `p` first occurs in `s`.
pub open spec fn first_at(s: Seq<char>, p: Seq<char>, i: int) -> bool {
    occurs_at(s, p, i) && forall|j: int| 0 <= j < i ==> !occurs_at(s, p, j)
}

/// What follows the first occurrence of `p` in `s`.
pub open spec fn after_text(s: Seq<char>, p: Seq<char>) -> Seq<char> {
    s.skip((choose|i: int| first_at(s, p, i)) + p.len())
}

pub proof fn lemma_first_at(s: Seq<char>, p: Seq<char>, i: int)
    requires
        first_at(s, p, i),
    ensures
        contains(s, p),
        after_text(s, p) == s.skip(i + p.len()),
{
    let k = choose|k: int| first_at(s, p, k);
    assert(first_at(s, p, k));
    assert(k == i);
}

/// Index of the first `c` in `s`, the length of `s` if there is none.
pub open spec fn index_of(s: Seq<char>, c: char) -> int
    decreases s.len(),
{
    if s.len() == 0 {
        0
    } else if s[0] == c {
        0
    } else {
        1 + index_of(s.drop_first(), c)
    }
}

/// `s` up to the first `c`, the whole of it if there is none.
pub open spec fn before(s: Seq<char>, c: char) -> Seq<char> {
    s.take(index_of(s, c))
}

/// What follows the first `c` in `s`.
pub open spec fn after(s: Seq<char>, c: char) -> Seq<char> {
    s.skip(index_of(s, c) + 1)
}

pub open spec fn trim_start(s: Seq<char>) -> Seq<char>
    decreases s.len(),
{
    if s.len() > 0 && is_white(s[0]) {
        trim_start(s.drop_first())
    } else {
        s
    }
}

pub open spec fn trim_end(s: Seq<char>) -> Seq<char>
    decreases s.len(),
{
    if s.len() > 0 && is_white(s.last()) {
        trim_end(s.drop_last())
    } else {
        s
    }
}

/// A text without the white space at its ends.
pub open spec fn trim(s: Seq<char>) -> Seq<char> {
    trim_end(trim_start(s))
}

/// Number of characters before the first white space.
pub open spec fn word_len(s: Seq<char>) -> int
    decreases s.len(),
{
    if s.len() == 0 || is_white(s[0]) {
        0
    } else {
        1 + word_len(s.drop_first())
    }
}

pub proof fn lemma_word_len(s: Seq<char>)
    ensures
        0 <= word_len(s) <= s.len(),
        s.len() > 0 && !is_white(s[0]) ==> word_len(s) > 0,
        forall|i: int| 0 <= i < word_len(s) ==> !is_white(#[trigger] s[i]),
        word_len(s) < s.len() ==> is_white(s[word_len(s)]),
    decreases s.len(),
{
    if s.len() > 0 && !is_white(s[0]) {
        lemma_word_len(s.drop_first());
        assert forall|i: int| 0 <= i < word_len(s) implies !is_white(#[trigger] s[i]) by {
            if i > 0 {
                assert(s[i] == s.drop_first()[i - 1]);
            }
        }
        if word_len(s) < s.len() {
            assert(s[word_len(s)] == s.drop_first()[word_len(s) - 1]);
        }
    }
}

pub proof fn lemma_trim_start(s: Seq<char>)
    ensures
        trim_start(s).len() <= s.len(),
        trim_start(s).len() > 0 ==> !is_white(trim_start(s)[0]),
        trim_start(s) == s.skip(s.len() - trim_start(s).len()),
    decreases s.len(),
{
    if s.len() > 0 && is_white(s[0]) {
        lemma_trim_start(s.drop_first());
        let k = s.len() - trim_start(s).len();
        assert(s.drop_first().skip(k - 1) =~= s.skip(k));
    } else {
        assert(s.skip(0) =~= s);
    }
}

/// The words of a text: its longest runs without white space, in order.
pub open spec fn words(s: Seq<char>) -> Seq<Seq<char>>
    decreases s.len(),
    via words_decreases
{
    let rest = trim_start(s);
    if rest.len() == 0 {
        Seq::empty()
    } else {
        seq![rest.take(word_len(rest))] + words(rest.skip(word_len(rest)))
    }
}

#[via_fn]
proof fn words_decreases(s: Seq<char>) {
    lemma_trim_start(s);
    lemma_word_len(trim_start(s));
}

/// A line without the carriage return before its line feed.
pub open spec fn strip_return(s: Seq<char>) -> Seq<char> {
    if s.len() > 0 && s.last() == '\r' {
        s.drop_last()
    } else {
        s
    }
}

/// The lines of a text. A line ends at a line feed, which is not part of it,
/// nor is a carriage return right before it; the last line needs no line feed.
pub open spec fn lines(s: Seq<char>) -> Seq<Seq<char>>
    decreases s.len(),
    via lines_decreases
{
    if s.len() == 0 {
        Seq::empty()
    } else if index_of(s, '\n') == s.len() {
        seq![s]
    } else {
        seq![strip_return(before(s, '\n'))] + lines(after(s, '\n'))
    }
}

#[via_fn]
proof fn lines_decreases(s: Seq<char>) {
    lemma_index_of(s, '\n');
}

pub proof fn lemma_index_of(s: Seq<char>, c: char)
    ensures
        0 <= index_of(s, c) <= s.len(),
        index_of(s, c) < s.len() ==> s[index_of(s, c)] == c,
        forall|i: int| 0 <= i < index_of(s, c) ==> #[trigger] s[i] != c,
    decreases s.len(),
{
    if s.len() > 0 && s[0] != c {
        lemma_index_of(s.drop_first(), c);
        let k = index_of(s, c);
        assert forall|i: int| 0 <= i < k implies #[trigger] s[i] != c by {
            if i > 0 {
                assert(s[i] == s.drop_first()[i - 1]);
            }
        }
        if k < s.len() {
            assert(s[k] == s.drop_first()[k - 1]);
        }
    }
}

/// An index with `c` in it and none before it is that of the first `c`.
pub proof fn lemma_index_of_unique(s: Seq<char>, c: char, k: int)
    requires
        0 <= k <= s.len(),
        k < s.len() ==> s[k] == c,
        forall|i: int| 0 <= i < k ==> #[trigger] s[i] != c,
    ensures
        index_of(s, c) == k,
{
    lemma_index_of(s, c);
}


/// The characters of a string.
pub fn chars_of(s: &str) -> (r: Vec<char>)
    ensures
        r@ == s@,
{
    let mut out: Vec<char> = Vec::new();
    for c in it: s.chars()
        invariant
            out@ == s@.take(it.index()),
            it.seq() == s@,
    {
        proof {
            assert(s@.take(it.index() + 1) =~= s@.take(it.index()).push(c));
        }
        out.push(c);
    }
    proof {
        assert(s@.take(s@.len() as int) =~= s@);
    }
    out
}

/// The string made of some characters.
pub fn string_of(s: &[char]) -> (r: String)
    ensures
        r@ == s@,
{
    let mut out = String::new();
    let mut i: usize = 0;
    while i < s.len()
        invariant
            i <= s@.len(),
            out@ == s@.take(i as int),
        decreases s@.len() - i,
    {
        proof {
            assert(s@.take(i + 1) =~= s@.take(i as int).push(s@[i as int]));
        }
        out.push(s[i]);
        i += 1;
    }
    proof {
        assert(s@.take(i as int) =~= s@);
    }
    out
}

pub fn same_chars(a: &[char], b: &[char]) -> (r: bool)
    ensures
        r == (a@ == b@),
{
    if a.len() != b.len() {
        return false;
    }
    let mut i: usize = 0;
    while i < a.len()
        invariant
            i <= a@.len(),
            a@.len() == b@.len(),
            forall|j: int| 0 <= j < i ==> a@[j] == b@[j],
        decreases a@.len() - i,
    {
        if a[i] != b[i] {
            return false;
        }
        i += 1;
    }
    proof {
        assert(a@ =~= b@);
    }
    true
}

pub fn white(c: char) -> (r: bool)
    ensures
        r == is_white(c),
{
    let n: u32 = c as u32;
    (0x9 <= n && n <= 0xd) || n == 0x20 || n == 0x85 || n == 0xa0 || n == 0x1680 || (0x2000 <= n
        && n <= 0x200a) || n == 0x2028 || n == 0x2029 || n == 0x202f || n == 0x205f || n == 0x3000
}

pub fn digit(c: char) -> (r: bool)
    ensures
        r == is_digit(c),
{
    '0' <= c && c <= '9'
}

pub fn upper(c: char) -> (r: bool)
    ensures
        r == is_upper(c),
{
    'A' <= c && c <= 'Z'
}

pub fn alphanumeric(c: char) -> (r: bool)
    ensures
        r == is_alphanumeric(c),
{
    digit(c) || upper(c) || ('a' <= c && c <= 'z')
}

pub fn width(c: char) -> (r: usize)
    ensures
        r == char_width(c),
{
    let n: u32 = c as u32;
    if n < 0x80 {
        1
    } else if n < 0x800 {
        2
    } else if n < 0x10000 {
        3
    } else {
        4
    }
}

pub fn all_alphanumeric(s: &[char]) -> (r: bool)
    ensures
        r == (forall|i: int| 0 <= i < s@.len() ==> is_alphanumeric(#[trigger] s@[i])),
{
    let mut i: usize = 0;
    while i < s.len()
        invariant
            i <= s@.len(),
            forall|j: int| 0 <= j < i ==> is_alphanumeric(#[trigger] s@[j]),
        decreases s@.len() - i,
    {
        if !alphanumeric(s[i]) {
            return false;
        }
        i += 1;
    }
    true
}

pub fn all_upper(s: &[char]) -> (r: bool)
    ensures
        r == (forall|i: int| 0 <= i < s@.len() ==> is_upper(#[trigger] s@[i])),
{
    let mut i: usize = 0;
    while i < s.len()
        invariant
            i <= s@.len(),
            forall|j: int| 0 <= j < i ==> is_upper(#[trigger] s@[j]),
        decreases s@.len() - i,
    {
        if !upper(s[i]) {
            return false;
        }
        i += 1;
    }
    true
}

/// A text with every ASCII capital in lower case.
pub fn lowercase_of(s: &[char]) -> (r: Vec<char>)
    ensures
        r@ == lowercase(s@),
{
    let mut out: Vec<char> = Vec::new();
    let mut i: usize = 0;
    while i < s.len()
        invariant
            i <= s@.len(),
            out@.len() == i,
            forall|j: int| 0 <= j < i ==> out@[j] == lower(s@[j]),
        decreases s@.len() - i,
    {
        let c = s[i];
        let l = if upper(c) {
            (c as u8 + 32) as char
        } else {
            c
        };
        out.push(l);
        i += 1;
    }
    proof {
        assert(out@ =~= lowercase(s@));
    }
    out
}

pub fn begins(s: &[char], p: &[char]) -> (r: bool)
    ensures
        r == starts_with(s@, p@),
{
    if s.len() < p.len() {
        false
    } else {
        same_chars(slice_subrange(s, 0, p.len()), p)
    }
}

/// Index of the first occurrence of `p` in `s`.
pub fn find(s: &[char], p: &[char]) -> (r: Option<usize>)
    ensures
        match r {
            Some(i) => first_at(s@, p@, i as int),
            None => !contains(s@, p@),
        },
{
    if s.len() < p.len() {
        return None;
    }
    let top: usize = s.len() - p.len();
    let mut i: usize = 0;
    while i <= top
        invariant
            i <= top + 1,
            top + p.len() == s.len(),
            forall|j: int| 0 <= j < i ==> !occurs_at(s@, p@, j),
        decreases top + 1 - i,
    {
        if same_chars(slice_subrange(s, i, i + p.len()), p) {
            return Some(i);
        }
        if i == top {
            proof {
                assert forall|j: int| !occurs_at(s@, p@, j) by {
                    if 0 <= j <= top {
                    }
                }
            }
            return None;
        }
        i += 1;
    }
    None
}

pub fn holds(s: &[char], p: &[char]) -> (r: bool)
    ensures
        r == contains(s@, p@),
{
    match find(s, p) {
        Some(i) => {
            assert(occurs_at(s@, p@, i as int));
            true
        },
        None => false,
    }
}

/// Index of the first `c` in `s`, the length of `s` if there is none.
pub fn position(s: &[char], c: char) -> (r: usize)
    ensures
        r == index_of(s@, c),
        r <= s@.len(),
{
    let mut i: usize = 0;
    while i < s.len()
        invariant
            i <= s@.len(),
            forall|j: int| 0 <= j < i ==> #[trigger] s@[j] != c,
        decreases s@.len() - i,
    {
        if s[i] == c {
            proof {
                lemma_index_of_unique(s@, c, i as int);
            }
            return i;
        }
        i += 1;
    }
    proof {
        lemma_index_of_unique(s@, c, i as int);
    }
    i
}

pub fn trimmed_start(s: &[char]) -> (r: &[char])
    ensures
        r@ == trim_start(s@),
{
    let mut i: usize = 0;
    proof {
        assert(s@.skip(0) =~= s@);
    }
    while i < s.len() && white(s[i])
        invariant
            i <= s@.len(),
            trim_start(s@.skip(i as int)) == trim_start(s@),
        decreases s@.len() - i,
    {
        proof {
            assert(s@.skip(i as int).drop_first() =~= s@.skip(i + 1));
            assert(s@.skip(i as int)[0] == s@[i as int]);
        }
        i += 1;
    }
    proof {
        if i < s@.len() {
            assert(s@.skip(i as int)[0] == s@[i as int]);
        }
        assert(s@.subrange(i as int, s@.len() as int) =~= s@.skip(i as int));
    }
    slice_subrange(s, i, s.len())
}

pub fn trimmed_end(s: &[char]) -> (r: &[char])
    ensures
        r@ == trim_end(s@),
{
    let mut n: usize = s.len();
    proof {
        assert(s@.take(s@.len() as int) =~= s@);
    }
    while n > 0 && white(s[n - 1])
        invariant
            n <= s@.len(),
            trim_end(s@.take(n as int)) == trim_end(s@),
        decreases n,
    {
        proof {
            assert(s@.take(n as int).drop_last() =~= s@.take(n - 1));
            assert(s@.take(n as int).last() == s@[n - 1]);
        }
        n -= 1;
    }
    proof {
        if n > 0 {
            assert(s@.take(n as int).last() == s@[n - 1]);
        }
        assert(s@.subrange(0, n as int) =~= s@.take(n as int));
    }
    slice_subrange(s, 0, n)
}

/// A text without the white space at its ends.
pub fn trimmed(s: &[char]) -> (r: &[char])
    ensures
        r@ == trim(s@),
{
    trimmed_end(trimmed_start(s))
}

fn first_word_len(s: &[char]) -> (r: usize)
    ensures
        r == word_len(s@),
        r <= s@.len(),
{
    let mut i: usize = 0;
    proof {
        assert(s@.skip(0) =~= s@);
    }
    while i < s.len() && !white(s[i])
        invariant
            i <= s@.len(),
            word_len(s@) == i + word_len(s@.skip(i as int)),
        decreases s@.len() - i,
    {
        proof {
            assert(s@.skip(i as int).drop_first() =~= s@.skip(i + 1));
            assert(s@.skip(i as int)[0] == s@[i as int]);
        }
        i += 1;
    }
    proof {
        if i < s@.len() {
            assert(s@.skip(i as int)[0] == s@[i as int]);
        }
    }
    i
}

/// The words of a text.
pub fn words_of(s: &[char]) -> (r: Vec<Vec<char>>)
    ensures
        texts(r@) == words(s@),
{
    let mut out: Vec<Vec<char>> = Vec::new();
    let mut rest: &[char] = trimmed_start(s);
    proof {
        lemma_trim_start(s@);
        lemma_trim_idempotent(s@);
        assert(texts(out@) + words(rest@) =~= words(s@));
    }
    while rest.len() > 0
        invariant
            trim_start(rest@) == rest@,
            texts(out@) + words(rest@) == words(s@),
        decreases rest@.len(),
    {
        let n: usize = first_word_len(rest);
        let ghost tail = rest@.skip(n as int);
        proof {
            lemma_trim_start(rest@);
            lemma_word_len(rest@);
            lemma_trim_start(tail);
            lemma_trim_idempotent(tail);
            assert(rest@.subrange(0, n as int) =~= rest@.take(n as int));
            assert(rest@.subrange(n as int, rest@.len() as int) =~= tail);
        }
        let word = slice_to_vec(slice_subrange(rest, 0, n));
        let ghost before_push = out@;
        out.push(word);
        proof {
            assert(texts(out@) =~= texts(before_push).push(rest@.take(n as int)));
            assert(texts(before_push) + words(rest@) =~= texts(out@) + words(tail));
            assert(words(tail) == words(trim_start(tail)));
        }
        rest = trimmed_start(slice_subrange(rest, n, rest.len()));
    }
    proof {
        assert(words(rest@) =~= Seq::<Seq<char>>::empty());
        assert(texts(out@) + words(rest@) =~= texts(out@));
    }
    out
}

proof fn lemma_trim_idempotent(s: Seq<char>)
    ensures
        trim_start(trim_start(s)) == trim_start(s),
        words(trim_start(s)) == words(s),
{
    lemma_trim_start(s);
}

/// The lines of a text.
pub fn lines_of(s: &[char]) -> (r: Vec<Vec<char>>)
    ensures
        texts(r@) == lines(s@),
{
    let mut out: Vec<Vec<char>> = Vec::new();
    let mut rest: &[char] = s;
    proof {
        assert(texts(out@) + lines(rest@) =~= lines(s@));
    }
    while rest.len() > 0
        invariant
            texts(out@) + lines(rest@) == lines(s@),
        decreases rest@.len(),
    {
        let k: usize = position(rest, '\n');
        let ghost before_push = out@;
        if k == rest.len() {
            out.push(slice_to_vec(rest));
            proof {
                assert(texts(out@) =~= texts(before_push) + seq![rest@]);
            }
            return out;
        }
        let mut end: usize = k;
        if k > 0 && rest[k - 1] == '\r' {
            end = k - 1;
        }
        proof {
            assert(rest@.subrange(0, end as int) =~= strip_return(before(rest@, '\n')));
            assert(rest@.subrange(k + 1, rest@.len() as int) =~= after(rest@, '\n'));
        }
        out.push(slice_to_vec(slice_subrange(rest, 0, end)));
        proof {
            let line = strip_return(before(rest@, '\n'));
            assert(texts(out@) =~= texts(before_push).push(line));
            assert(texts(before_push) + lines(rest@) =~= texts(out@) + lines(after(rest@, '\n')));
        }
        rest = slice_subrange(rest, k + 1, rest.len());
    }
    proof {
        assert(texts(out@) + lines(rest@) =~= texts(out@));
    }
    out
}


/// Whether `i` characters of `s` take `offset` bytes.
pub open spec fn boundary_at(s: Seq<char>, offset: int, i: int) -> bool {
    0 <= i <= s.len() && byte_len(s.take(i)) == offset
}

/// The character of `s` that starts at byte `offset`, its length for the end.
pub open spec fn boundary(s: Seq<char>, offset: int) -> Option<int> {
    if exists|i: int| boundary_at(s, offset, i) {
        Some(choose|i: int| boundary_at(s, offset, i))
    } else {
        None
    }
}

/// The text from byte `start` to byte `end`, if characters start at both.
pub open spec fn byte_slice(s: Seq<char>, start: int, end: int) -> Option<Seq<char>> {
    match (boundary(s, start), boundary(s, end)) {
        (Some(i), Some(j)) => Some(s.subrange(i, j)),
        _ => None,
    }
}

proof fn lemma_byte_len_step(s: Seq<char>, i: int)
    requires
        0 <= i < s.len(),
    ensures
        byte_len(s.take(i + 1)) == byte_len(s.take(i)) + char_width(s[i]),
{
    assert(s.take(i + 1).drop_last() =~= s.take(i));
}

proof fn lemma_byte_len_grows(s: Seq<char>, i: int, j: int)
    requires
        0 <= i <= j <= s.len(),
    ensures
        byte_len(s.take(i)) + (j - i) <= byte_len(s.take(j)),
    decreases j - i,
{
    if i < j {
        lemma_byte_len_grows(s, i, j - 1);
        lemma_byte_len_step(s, j - 1);
    }
}

/// At most one character starts at a byte.
pub proof fn lemma_boundary(s: Seq<char>, offset: int, i: int)
    requires
        boundary_at(s, offset, i),
    ensures
        boundary(s, offset) == Some(i),
{
    let k = choose|k: int| boundary_at(s, offset, k);
    assert(boundary_at(s, offset, k));
    if i < k {
        lemma_byte_len_grows(s, i, k);
    } else if k < i {
        lemma_byte_len_grows(s, k, i);
    }
}

/// Where every character is ASCII, bytes and characters count alike.
pub proof fn lemma_ascii_boundary(s: Seq<char>, i: int)
    requires
        0 <= i <= s.len(),
        is_ascii_text(s),
    ensures
        byte_len(s.take(i)) == i,
        boundary(s, i) == Some(i),
    decreases i,
{
    if i > 0 {
        lemma_ascii_boundary(s, i - 1);
        lemma_byte_len_step(s, i - 1);
    }
    assert(boundary_at(s, i, i));
    lemma_boundary(s, i, i);
}

/// The text from byte `start` to byte `end` or the end of `s`, whichever comes
/// first, if that is past `start` and characters start at both.
pub fn byte_range(s: &[char], start: usize, end: usize) -> (r: Option<&[char]>)
    ensures
        ({
            let stop = if end < byte_len(s@) { end as int } else { byte_len(s@) as int };
            match r {
                Some(t) => start < stop && byte_slice(s@, start as int, stop) == Some(t@),
                None => start >= stop || byte_slice(s@, start as int, stop) is None,
            }
        }),
{
    let mut first: Option<usize> = None;
    let mut last: Option<usize> = None;
    let mut i: usize = 0;
    let mut offset: usize = 0;
    let ghost total = byte_len(s@);
    proof {
        assert(s@.take(0) =~= Seq::<char>::empty());
        assert(s@.take(s@.len() as int) =~= s@);
        if start == 0 {
            assert(boundary_at(s@, 0, 0));
        }
    }
    while i < s.len() && offset < end
        invariant
            i <= s@.len(),
            total == byte_len(s@),
            offset == byte_len(s@.take(i as int)),
            i > 0 ==> byte_len(s@.take(i - 1)) < end,
            match first {
                Some(k) => k < i && boundary_at(s@, start as int, k as int),
                None => forall|k: int| 0 <= k < i ==> !boundary_at(s@, start as int, k),
            },
        decreases s@.len() - i,
    {
        if offset == start {
            first = Some(i);
        }
        let w: usize = width(s[i]);
        proof {
            lemma_byte_len_step(s@, i as int);
        }
        if offset > usize::MAX - w {
            proof {
                lemma_overrun(s@, start as int, end as int, i as int);
            }
            return None;
        }
        offset = offset + w;
        i += 1;
    }
    proof {
        assert(s@.take(s@.len() as int) =~= s@);
        lemma_byte_len_grows(s@, i as int, s@.len() as int);
    }
    let ghost stop = if end < total { end as int } else { total as int };
    if i < s.len() {
        if offset == end {
            last = Some(i);
        }
    } else {
        if offset <= end {
            last = Some(i);
        }
    }
    proof {
        lemma_stop(s@, end as int, i as int);
        if let Some(k) = last {
            lemma_boundary(s@, stop, k as int);
        }
        if let Some(k) = first {
            lemma_boundary(s@, start as int, k as int);
            lemma_byte_len_grows(s@, k as int, i as int);
        }
    }
    match (first, last) {
        (Some(a), Some(b)) => {
            proof {
                lemma_byte_len_grows(s@, a as int, b as int);
            }
            if a < b {
                Some(slice_subrange(s, a, b))
            } else {
                None
            }
        },
        _ => {
            proof {
                if first is None && start < stop {
                    assert forall|k: int| !boundary_at(s@, start as int, k) by {
                        if i <= k <= s@.len() {
                            lemma_byte_len_grows(s@, i as int, k);
                        }
                    }
                }
            }
            None
        },
    }
}

/// Where the scan for `end` stops past it, no character starts there.
proof fn lemma_stop(s: Seq<char>, end: int, i: int)
    requires
        0 <= i <= s.len(),
        i > 0 ==> byte_len(s.take(i - 1)) < end,
        i < s.len() ==> byte_len(s.take(i)) >= end,
        end >= 0,
    ensures
        ({
            let total = byte_len(s) as int;
            let stop = if end < total { end } else { total };
            let here = byte_len(s.take(i)) as int;
            &&& here == stop ==> boundary_at(s, stop, i)
            &&& here != stop ==> here > end && boundary(s, stop) is None
        }),
{
    let total = byte_len(s) as int;
    let stop = if end < total { end } else { total };
    let here = byte_len(s.take(i)) as int;
    assert(s.take(s.len() as int) =~= s);
    lemma_byte_len_grows(s, i, s.len() as int);
    if here != stop {
        if i == s.len() {
            assert(here == total);
        }
        assert(here > end);
        assert forall|k: int| !boundary_at(s, stop, k) by {
            if 0 <= k <= s.len() {
                if k < i {
                    lemma_byte_len_grows(s, k, i - 1);
                } else {
                    lemma_byte_len_grows(s, i, k);
                }
            }
        }
    }
}

/// A character that ends past every machine offset leaves no boundary at `end`.
proof fn lemma_overrun(s: Seq<char>, start: int, end: int, i: int)
    requires
        0 <= i < s.len(),
        byte_len(s.take(i)) < end <= usize::MAX,
        byte_len(s.take(i)) + char_width(s[i]) > usize::MAX,
    ensures
        end < byte_len(s),
        byte_slice(s, start, end) is None,
{
    lemma_byte_len_step(s, i);
    assert(s.take(s.len() as int) =~= s);
    lemma_byte_len_grows(s, i + 1, s.len() as int);
    assert forall|k: int| !boundary_at(s, end, k) by {
        if 0 <= k <= s.len() {
            if k <= i {
                lemma_byte_len_grows(s, k, i);
            } else {
                lemma_byte_len_grows(s, i + 1, k);
            }
        }
    }
}

} // verus!
