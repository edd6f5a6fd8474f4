//! Character-level text utilities: conversion between strings and character
//! vectors, substring search, HTML escaping for search snippets, and the
//! blank-text test used to validate new entry bodies.

use vstd::prelude::*;
use vstd::string::StrSliceExecFns;

verus! {

/// Relies on `String`'s `FromIterator<char>` impl: collecting an iterator of
/// characters yields the string of exactly those characters, in order.
#[verifier::external_body]
pub(crate) fn string_from_chars(v: &Vec<char>) -> (r: String)
    ensures
        r@ == v@,
{
    v.iter().collect()
}

/// The characters of a string slice, as a vector.
pub fn chars_of(s: &str) -> (r: Vec<char>)
    ensures
        r@ == s@,
{
    let n = s.unicode_len();
    let mut r: Vec<char> = Vec::new();
    let mut i: usize = 0;
    while i < n
        invariant
            n == s@.len(),
            i <= n,
            r@ == s@.take(i as int),
        decreases n - i,
    {
        let c = s.get_char(i);
        r.push(c);
        proof {
            assert(s@.take(i as int + 1) =~= s@.take(i as int).push(s@.index(i as int)));
        }
        i = i + 1;
    }
    proof {
        assert(s@.take(n as int) =~= s@);
    }
    r
}

/// ASCII whitespace, the characters trimmed from entry bodies.
pub open spec fn is_space_char(c: char) -> bool {
    c == ' ' || c == '\t' || c == '\n' || c == '\r'
}

/// A text is blank when every character is whitespace; an entry body must not
/// be blank.
pub open spec fn is_blank(s: Seq<char>) -> bool {
    forall|i: int| 0 <= i < s.len() ==> is_space_char(s[i])
}

/// Whether a string is empty after trimming whitespace.
pub fn check_blank(s: &str) -> (r: bool)
    ensures
        r == is_blank(s@),
{
    let n = s.unicode_len();
    let mut i: usize = 0;
    while i < n
        invariant
            n == s@.len(),
            i <= n,
            forall|j: int| 0 <= j < i ==> is_space_char(s@[j]),
        decreases n - i,
    {
        let c = s.get_char(i);
        if !(c == ' ' || c == '\t' || c == '\n' || c == '\r') {
            return false;
        }
        i = i + 1;
    }
    true
}

/// The query occurs in the body starting at position `i`.
pub open spec fn matches_at(body: Seq<char>, q: Seq<char>, i: int) -> bool {
    &&& 0 <= i
    &&& i + q.len() <= body.len()
    &&& body.subrange(i, i + q.len() as int) == q
}

/// The query occurs somewhere in the body.
pub open spec fn contains_seq(body: Seq<char>, q: Seq<char>) -> bool {
    exists|i: int| matches_at(body, q, i)
}

/// The position of the first occurrence of the query at or after `i`, or -1.
pub open spec fn find_from(body: Seq<char>, q: Seq<char>, i: int) -> int
    decreases body.len() + 1 - i,
{
    if i + q.len() > body.len() || i > body.len() {
        -1
    } else if matches_at(body, q, i) {
        i
    } else {
        find_from(body, q, i + 1)
    }
}

/// The position of the first occurrence of the query, or -1 when it does not
/// occur.
pub open spec fn find_first(body: Seq<char>, q: Seq<char>) -> int {
    find_from(body, q, 0)
}

/// If no occurrence lies in `[from, i)` and one lies at `i`, the search from
/// `from` lands exactly on `i`.
proof fn lemma_find_from_lands(body: Seq<char>, q: Seq<char>, from: int, i: int)
    requires
        0 <= from <= i,
        matches_at(body, q, i),
        forall|j: int| from <= j < i ==> !matches_at(body, q, j),
    ensures
        find_from(body, q, from) == i,
    decreases i - from,
{
    if from < i {
        lemma_find_from_lands(body, q, from + 1, i);
    }
}

/// If the query occurs nowhere at or after `from`, the search reports -1.
proof fn lemma_find_from_misses(body: Seq<char>, q: Seq<char>, from: int)
    requires
        0 <= from,
        forall|j: int| j >= from ==> !matches_at(body, q, j),
    ensures
        find_from(body, q, from) == -1,
    decreases body.len() + 1 - from,
{
    if !(from + q.len() > body.len() || from > body.len()) {
        lemma_find_from_misses(body, q, from + 1);
    }
}

/// Finds the first occurrence of `q` in `body`, if any.
pub fn find_sub(body: &Vec<char>, q: &Vec<char>) -> (r: Option<usize>)
    ensures
        r matches Some(i) ==> i as int == find_first(body@, q@) && matches_at(body@, q@, i as int),
        r is Some <==> contains_seq(body@, q@),
{
    if q.len() > body.len() {
        proof {
            assert(forall|j: int| !matches_at(body@, q@, j));
        }
        return None;
    }
    let last_start = body.len() - q.len();
    let mut i: usize = 0;
    loop
        invariant
            q.len() <= body.len(),
            last_start == body.len() - q.len(),
            i <= last_start + 1,
            forall|j: int| 0 <= j < i ==> !matches_at(body@, q@, j),
        ensures
            i == last_start + 1,
            forall|j: int| 0 <= j < i ==> !matches_at(body@, q@, j),
        decreases last_start + 1 - i,
    {
        if i > last_start {
            break;
        }
        let mut k: usize = 0;
        let mut eq: bool = true;
        while k < q.len()
            invariant
                q.len() <= body.len(),
                i + q.len() <= body.len(),
                k <= q.len(),
                eq ==> forall|t: int| 0 <= t < k ==> body@[i + t] == q@[t],
                !eq ==> k == q.len(),
                !eq ==> exists|t: int| 0 <= t < q@.len() && body@[i + t] != q@[t],
            decreases q.len() - k,
        {
            if body[i + k] != q[k] {
                proof {
                    assert(body@[i + k] != q@[k as int]);
                }
                eq = false;
                k = q.len();
            } else {
                proof {
                    assert(forall|t: int| 0 <= t < k + 1 ==> body@[i + t] == q@[t]);
                }
                k = k + 1;
            }
        }
        if eq {
            proof {
                assert(body@.subrange(i as int, i + q@.len() as int) =~= q@);
                lemma_find_from_lands(body@, q@, 0, i as int);
            }
            return Some(i);
        }
        proof {
            assert(!matches_at(body@, q@, i as int)) by {
                let t = choose|t: int| 0 <= t < q@.len() && body@[i + t] != q@[t];
                if body@.subrange(i as int, i + q@.len() as int) == q@ {
                    assert(body@.subrange(i as int, i + q@.len() as int)[t] == q@[t]);
                }
            }
        }
        i = i + 1;
    }
    proof {
        assert forall|j: int| !matches_at(body@, q@, j) by {
            if 0 <= j < i as int {
                assert(!matches_at(body@, q@, j));
            } else if j >= i as int {
                assert(j + q@.len() > body@.len());
            }
        }
        lemma_find_from_misses(body@, q@, 0);
    }
    None
}

/// The HTML escape of one character: the five characters with markup meaning
/// become entities, every other character stands for itself.
pub open spec fn escape_char(c: char) -> Seq<char> {
    if c == '&' {
        seq!['&', 'a', 'm', 'p', ';']
    } else if c == '<' {
        seq!['&', 'l', 't', ';']
    } else if c == '>' {
        seq!['&', 'g', 't', ';']
    } else if c == '"' {
        seq!['&', 'q', 'u', 'o', 't', ';']
    } else if c == '\'' {
        seq!['&', '#', '3', '9', ';']
    } else {
        seq![c]
    }
}

/// The HTML escape of a text, character by character.
pub open spec fn escape_seq(s: Seq<char>) -> Seq<char>
    decreases s.len(),
{
    if s.len() == 0 {
        Seq::empty()
    } else {
        escape_seq(s.drop_last()) + escape_char(s.last())
    }
}

/// Appends the HTML escape of one character.
fn push_escaped(out: &mut Vec<char>, c: char)
    ensures
        final(out)@ == old(out)@ + escape_char(c),
{
    if c == '&' {
        out.push('&');
        out.push('a');
        out.push('m');
        out.push('p');
        out.push(';');
    } else if c == '<' {
        out.push('&');
        out.push('l');
        out.push('t');
        out.push(';');
    } else if c == '>' {
        out.push('&');
        out.push('g');
        out.push('t');
        out.push(';');
    } else if c == '"' {
        out.push('&');
        out.push('q');
        out.push('u');
        out.push('o');
        out.push('t');
        out.push(';');
    } else if c == '\'' {
        out.push('&');
        out.push('#');
        out.push('3');
        out.push('9');
        out.push(';');
    } else {
        out.push(c);
    }
    proof {
        assert(out@ =~= old(out)@ + escape_char(c));
    }
}

/// HTML-escapes a character range, producing text safe to embed in a page.
pub fn escape_chars(s: &Vec<char>) -> (r: Vec<char>)
    ensures
        r@ == escape_seq(s@),
{
    let mut out: Vec<char> = Vec::new();
    let mut i: usize = 0;
    while i < s.len()
        invariant
            i <= s@.len(),
            out@ == escape_seq(s@.take(i as int)),
        decreases s@.len() - i,
    {
        push_escaped(&mut out, s[i]);
        proof {
            assert(s@.take(i as int + 1).drop_last() =~= s@.take(i as int));
            assert(s@.take(i as int + 1).last() == s@[i as int]);
        }
        i = i + 1;
    }
    proof {
        assert(s@.take(s@.len() as int) =~= s@);
    }
    out
}

} // verus!
