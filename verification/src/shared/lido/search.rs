//! Searches for the line that opens a section.

use crate::text::{contains, holds, same_chars, texts, trim, trimmed};
use vstd::prelude::*;

verus! {

/// Index of the first line from `from` on that contains a text.
pub open spec fn line_containing(ls: Seq<Seq<char>>, p: Seq<char>, from: int) -> Option<int>
    decreases ls.len() - from,
{
    if from < 0 || from >= ls.len() {
        None
    } else if contains(ls[from], p) {
        Some(from)
    } else {
        line_containing(ls, p, from + 1)
    }
}

/// Index of the first line from `from` on that holds a text and blanks around it.
pub open spec fn line_reading(ls: Seq<Seq<char>>, p: Seq<char>, from: int) -> Option<int>
    decreases ls.len() - from,
{
    if from < 0 || from >= ls.len() {
        None
    } else if trim(ls[from]) == p {
        Some(from)
    } else {
        line_reading(ls, p, from + 1)
    }
}

/// A line is found iff one from `from` on contains the text.
pub proof fn lemma_line_containing(ls: Seq<Seq<char>>, p: Seq<char>, from: int)
    requires
        0 <= from,
    ensures
        match line_containing(ls, p, from) {
            Some(k) => from <= k < ls.len() && contains(ls[k], p) && forall|j: int|
                from <= j < k ==> !contains(#[trigger] ls[j], p),
            None => forall|j: int| from <= j < ls.len() ==> !contains(#[trigger] ls[j], p),
        },
    decreases ls.len() - from,
{
    if from < ls.len() && !contains(ls[from], p) {
        lemma_line_containing(ls, p, from + 1);
    }
}

/// A line is found iff one from `from` on reads as the text.
pub proof fn lemma_line_reading(ls: Seq<Seq<char>>, p: Seq<char>, from: int)
    requires
        0 <= from,
    ensures
        match line_reading(ls, p, from) {
            Some(k) => from <= k < ls.len() && trim(ls[k]) == p && forall|j: int|
                from <= j < k ==> trim(#[trigger] ls[j]) != p,
            None => forall|j: int| from <= j < ls.len() ==> trim(#[trigger] ls[j]) != p,
        },
    decreases ls.len() - from,
{
    if from < ls.len() && trim(ls[from]) != p {
        lemma_line_reading(ls, p, from + 1);
    }
}

/// Index of the first line that contains a text.
pub fn find_containing(ls: &Vec<Vec<char>>, p: &[char]) -> (r: Option<usize>)
    ensures
        match r {
            Some(k) => k < ls@.len() && line_containing(texts(ls@), p@, 0) == Some(k as int),
            None => line_containing(texts(ls@), p@, 0) is None,
        },
{
    let ghost g = texts(ls@);
    let mut i: usize = 0;
    while i < ls.len()
        invariant
            g == texts(ls@),
            i <= ls@.len(),
            line_containing(g, p@, i as int) == line_containing(g, p@, 0),
        decreases ls@.len() - i,
    {
        if holds(ls[i].as_slice(), p) {
            return Some(i);
        }
        i += 1;
    }
    None
}

/// Index of the first line that holds a text and blanks around it.
pub fn find_reading(ls: &Vec<Vec<char>>, p: &[char]) -> (r: Option<usize>)
    ensures
        match r {
            Some(k) => k < ls@.len() && line_reading(texts(ls@), p@, 0) == Some(k as int),
            None => line_reading(texts(ls@), p@, 0) is None,
        },
{
    let ghost g = texts(ls@);
    let mut i: usize = 0;
    while i < ls.len()
        invariant
            g == texts(ls@),
            i <= ls@.len(),
            line_reading(g, p@, i as int) == line_reading(g, p@, 0),
        decreases ls@.len() - i,
    {
        if same_chars(trimmed(ls[i].as_slice()), p) {
            return Some(i);
        }
        i += 1;
    }
    None
}

} // verus!
