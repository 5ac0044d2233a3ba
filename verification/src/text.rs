//! Leftmost substring search and single-occurrence replacement on text.
//!
//! Text is modelled as a sequence of characters. The specification functions
//! say what a leftmost occurrence is; the executable functions find it and
//! rewrite it.

use vstd::prelude::*;

verus! {

/// `pat` stands in `text` as a contiguous run that starts at index `i`.
pub open spec fn occurs_at(text: Seq<char>, pat: Seq<char>, i: int) -> bool {
    &&& 0 <= i
    &&& i + pat.len() <= text.len()
    &&& text.subrange(i, i + pat.len()) == pat
}

/// `pat` stands somewhere in `text`.
pub open spec fn occurs(text: Seq<char>, pat: Seq<char>) -> bool {
    exists|i: int| occurs_at(text, pat, i)
}

/// `pat` stands in `text` at `i` and nowhere before `i`.
pub open spec fn is_leftmost(text: Seq<char>, pat: Seq<char>, i: int) -> bool {
    &&& occurs_at(text, pat, i)
    &&& forall|j: int| 0 <= j < i ==> !occurs_at(text, pat, j)
}

/// The index at which the leftmost occurrence of `pat` in `text` starts,
/// or `None` where `pat` does not occur in `text`.
pub open spec fn leftmost(text: Seq<char>, pat: Seq<char>) -> Option<int> {
    if occurs(text, pat) {
        Some(choose|i: int| is_leftmost(text, pat, i))
    } else {
        None
    }
}

/// `text` with the `len` characters from index `at` on replaced by `with`.
pub open spec fn splice(text: Seq<char>, at: int, len: int, with: Seq<char>) -> Seq<char> {
    text.subrange(0, at) + with + text.subrange(at + len, text.len() as int)
}

/// `text` with the leftmost occurrence of `pat` replaced by `rep`, or `None`
/// where `pat` does not occur in `text`. Later occurrences are left alone.
pub open spec fn rewrite(text: Seq<char>, pat: Seq<char>, rep: Seq<char>) -> Option<Seq<char>> {
    match leftmost(text, pat) {
        Some(i) => Some(splice(text, i, pat.len() as int, rep)),
        None => None,
    }
}

/// `line` without the line terminator at its end, if it has one: a line
/// feed, or a carriage return and a line feed.
pub open spec fn without_line_end(line: Seq<char>) -> Seq<char> {
    if line.len() >= 2 && line[line.len() - 2] == '\r' && line[line.len() - 1] == '\n' {
        line.subrange(0, line.len() - 2)
    } else if line.len() >= 1 && line[line.len() - 1] == '\n' {
        line.subrange(0, line.len() - 1)
    } else {
        line
    }
}

/// An occurrence at `k` implies a leftmost occurrence at or before `k`.
pub proof fn lemma_leftmost_exists(text: Seq<char>, pat: Seq<char>, k: int)
    requires
        occurs_at(text, pat, k),
    ensures
        exists|i: int| 0 <= i <= k && is_leftmost(text, pat, i),
    decreases k,
{
    if forall|j: int| 0 <= j < k ==> !occurs_at(text, pat, j) {
        assert(is_leftmost(text, pat, k));
    } else {
        let j = choose|j: int| 0 <= j < k && occurs_at(text, pat, j);
        lemma_leftmost_exists(text, pat, j);
    }
}

/// `leftmost` is the leftmost occurrence where there is one, and `None` only
/// where there is no occurrence at all.
pub proof fn lemma_leftmost_is_leftmost(text: Seq<char>, pat: Seq<char>)
    ensures
        match leftmost(text, pat) {
            Some(i) => is_leftmost(text, pat, i),
            None => forall|j: int| !occurs_at(text, pat, j),
        },
{
    if occurs(text, pat) {
        let k = choose|k: int| occurs_at(text, pat, k);
        lemma_leftmost_exists(text, pat, k);
    }
}

/// There is only one leftmost occurrence: whatever index is one, `leftmost`
/// returns it.
pub proof fn lemma_leftmost_unique(text: Seq<char>, pat: Seq<char>, i: int)
    requires
        is_leftmost(text, pat, i),
    ensures
        leftmost(text, pat) == Some(i),
{
    lemma_leftmost_is_leftmost(text, pat);
}

/// The characters of a string slice, in order.
pub fn to_chars(s: &str) -> (v: Vec<char>)
    ensures
        v@ == s@,
{
    let mut v: Vec<char> = Vec::new();
    for c in it: s.chars()
        invariant
            v@ == it.seq().take(it.index()),
    {
        v.push(c);
    }
    v
}

/// Turns a line as it was read into a buffer: takes the line terminator off
/// its end, and nothing else.
pub fn strip_line_end(line: &str) -> (r: String)
    ensures
        r@ == without_line_end(line@),
{
    let chars = to_chars(line);
    let n: usize = chars.len();
    if n >= 2 && chars[n - 2] == '\r' && chars[n - 1] == '\n' {
        String::from_str(line.substring_char(0, n - 2))
    } else if n >= 1 && chars[n - 1] == '\n' {
        String::from_str(line.substring_char(0, n - 1))
    } else {
        String::from_str(line)
    }
}

/// Tests whether `pat` stands in `text` at index `i`.
pub fn matches_at(text: &Vec<char>, pat: &Vec<char>, i: usize) -> (r: bool)
    ensures
        r == occurs_at(text@, pat@, i as int),
{
    if pat.len() > text.len() || i > text.len() - pat.len() {
        return false;
    }
    let mut k: usize = 0;
    while k < pat.len()
        invariant
            k <= pat.len(),
            i + pat.len() <= text.len(),
            forall|j: int| 0 <= j < k ==> text@[i + j] == pat@[j],
        decreases pat.len() - k,
    {
        if text[i + k] != pat[k] {
            return false;
        }
        k += 1;
    }
    proof {
        assert(text@.subrange(i as int, i + pat.len()) =~= pat@);
    }
    true
}

/// Finds where the leftmost occurrence of `pat` in `text` starts.
pub fn find(text: &Vec<char>, pat: &Vec<char>) -> (r: Option<usize>)
    ensures
        match r {
            Some(i) => leftmost(text@, pat@) == Some(i as int),
            None => leftmost(text@, pat@) is None,
        },
{
    if pat.len() > text.len() {
        return None;
    }
    let last: usize = text.len() - pat.len();
    let mut i: usize = 0;
    loop
        invariant
            i <= last,
            last == text.len() - pat.len(),
            forall|j: int| 0 <= j < i ==> !occurs_at(text@, pat@, j),
        decreases last - i,
    {
        if matches_at(text, pat, i) {
            proof {
                lemma_leftmost_unique(text@, pat@, i as int);
            }
            return Some(i);
        }
        if i == last {
            return None;
        }
        i += 1;
    }
}

/// Replaces the leftmost occurrence of `pat` in `line` by `rep`. Returns `None`
/// where `pat` does not occur in `line`.
pub fn replace_first(line: &str, pat: &str, rep: &str) -> (r: Option<String>)
    ensures
        match r {
            Some(s) => rewrite(line@, pat@, rep@) == Some(s@),
            None => rewrite(line@, pat@, rep@) is None,
        },
{
    let text = to_chars(line);
    let needle = to_chars(pat);
    let end: usize = text.len();
    match find(&text, &needle) {
        Some(i) => {
            proof {
                lemma_leftmost_is_leftmost(text@, needle@);
            }
            let mut out = String::from_str(line.substring_char(0, i));
            out.append(rep);
            out.append(line.substring_char(i + needle.len(), end));
            Some(out)
        },
        None => None,
    }
}

} // verus!
