//! Leftmost substring search and replacement on sequences of characters.

use vstd::prelude::*;

verus! {

/// `pat` stands in `hay` at position `i`.
pub open spec fn occurs_at(hay: Seq<char>, pat: Seq<char>, i: int) -> bool {
    &&& 0 <= i
    &&& i + pat.len() <= hay.len()
    &&& hay.subrange(i, i + pat.len()) == pat
}

/// `pat` stands somewhere in `hay`.
pub open spec fn occurs(hay: Seq<char>, pat: Seq<char>) -> bool {
    exists|i: int| occurs_at(hay, pat, i)
}

/// `pat` stands in `hay` at position `i` and at no earlier position.
pub open spec fn leftmost(hay: Seq<char>, pat: Seq<char>, i: int) -> bool {
    &&& occurs_at(hay, pat, i)
    &&& forall|j: int| 0 <= j < i ==> !occurs_at(hay, pat, j)
}

/// The leftmost position at which `pat` stands in `hay`, where it stands in
/// it at all.
pub open spec fn first_occurrence(hay: Seq<char>, pat: Seq<char>) -> int {
    choose|i: int| leftmost(hay, pat, i)
}

/// `hay` with the `cut` characters from position `i` on replaced by `with`.
pub open spec fn replace_at(hay: Seq<char>, i: int, cut: int, with: Seq<char>) -> Seq<char> {
    hay.subrange(0, i) + with + hay.subrange(i + cut, hay.len() as int)
}

/// `hay` with the leftmost occurrence of `pat` replaced by `with`.
pub open spec fn replace_first(hay: Seq<char>, pat: Seq<char>, with: Seq<char>) -> Seq<char> {
    replace_at(hay, first_occurrence(hay, pat), pat.len() as int, with)
}

/// A leftmost occurrence is the first occurrence.
pub proof fn lemma_leftmost_is_first(hay: Seq<char>, pat: Seq<char>, i: int)
    requires
        leftmost(hay, pat, i),
    ensures
        occurs(hay, pat),
        first_occurrence(hay, pat) == i,
{
    let j = first_occurrence(hay, pat);
    assert(leftmost(hay, pat, j));
    if j < i {
        assert(!occurs_at(hay, pat, j));
    } else if i < j {
        assert(!occurs_at(hay, pat, i));
    }
}

/// Below every occurrence there is a leftmost one.
proof fn lemma_leftmost_below(hay: Seq<char>, pat: Seq<char>, w: int)
    requires
        occurs_at(hay, pat, w),
    ensures
        exists|i: int| leftmost(hay, pat, i),
    decreases w,
{
    if exists|j: int| 0 <= j < w && occurs_at(hay, pat, j) {
        let j = choose|j: int| 0 <= j < w && occurs_at(hay, pat, j);
        lemma_leftmost_below(hay, pat, j);
    } else {
        assert(leftmost(hay, pat, w));
    }
}

/// Where the pattern occurs, its first occurrence is the leftmost one.
pub proof fn lemma_first_is_leftmost(hay: Seq<char>, pat: Seq<char>)
    requires
        occurs(hay, pat),
    ensures
        leftmost(hay, pat, first_occurrence(hay, pat)),
{
    let w = choose|w: int| occurs_at(hay, pat, w);
    lemma_leftmost_below(hay, pat, w);
}

/// The characters of a string slice, in order.
pub fn to_chars(s: &str) -> (v: Vec<char>)
    ensures
        v@ == s@,
{
    let mut v: Vec<char> = Vec::new();
    for c in it: s.chars()
        invariant
            v@ == it.seq().take(it.index() as int),
            it.seq() == s@,
    {
        v.push(c);
    }
    v
}

/// Whether `pat` stands in `hay` at position `i`.
fn matches_at(hay: &[char], pat: &[char], i: usize) -> (b: bool)
    requires
        i + pat.len() <= hay.len(),
    ensures
        b == occurs_at(hay@, pat@, i as int),
{
    let mut k: usize = 0;
    while k < pat.len()
        invariant
            k <= pat.len(),
            i + pat.len() <= hay.len(),
            forall|j: int| 0 <= j < k ==> hay@[i + j] == pat@[j],
        decreases pat.len() - k,
    {
        if hay[i + k] != pat[k] {
            assert(hay@.subrange(i as int, i + pat@.len())[k as int] == hay@[i + k]);
            return false;
        }
        k += 1;
    }
    assert(hay@.subrange(i as int, i + pat@.len()) =~= pat@);
    true
}

/// Finds the leftmost position at which `pat` stands in `hay`.
///
/// The empty pattern stands at position 0 of every sequence.
pub fn find_first(hay: &[char], pat: &[char]) -> (r: Option<usize>)
    ensures
        match r {
            Some(i) => leftmost(hay@, pat@, i as int),
            None => !occurs(hay@, pat@),
        },
{
    if pat.len() > hay.len() {
        return None;
    }
    let mut i: usize = 0;
    while pat.len() <= hay.len() - i
        invariant
            i <= hay.len(),
            forall|j: int| 0 <= j < i ==> !occurs_at(hay@, pat@, j),
        decreases hay.len() - i,
    {
        if matches_at(hay, pat, i) {
            return Some(i);
        }
        assert(pat.len() > 0) by {
            if pat.len() == 0 {
                assert(hay@.subrange(i as int, i as int) =~= pat@);
            }
        }
        i += 1;
    }
    None
}

} // verus!
