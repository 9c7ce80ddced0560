//! Searching and copying byte ranges.

use vstd::prelude::*;

verus! {

/// `pat` occurs in `s` starting at index `i`.
pub open spec fn occurs_at(s: Seq<u8>, pat: Seq<u8>, i: int) -> bool {
    0 <= i && i + pat.len() <= s.len() && s.subrange(i, i + pat.len()) == pat
}

/// The first index `k` in `i .. end` at which `pat` occurs and fits
/// entirely before `end`.
pub open spec fn find_between(s: Seq<u8>, pat: Seq<u8>, i: int, end: int) -> Option<int>
    decreases end - i + 1,
{
    if i < 0 || i + pat.len() > end || end > s.len() {
        None
    } else if s.subrange(i, i + pat.len()) == pat {
        Some(i)
    } else {
        find_between(s, pat, i + 1, end)
    }
}

/// What `find_between` returns, stated without recursion.
pub proof fn lemma_find_between(s: Seq<u8>, pat: Seq<u8>, i: int, end: int)
    requires
        0 <= i,
        end <= s.len(),
    ensures
        match find_between(s, pat, i, end) {
            Some(k) => i <= k && k + pat.len() <= end && occurs_at(s, pat, k) && forall|j: int|
                i <= j < k ==> !occurs_at(s, pat, j),
            None => forall|j: int| i <= j && j + pat.len() <= end ==> !occurs_at(s, pat, j),
        },
    decreases end - i + 1,
{
    if i + pat.len() > end {
    } else if s.subrange(i, i + pat.len()) == pat {
    } else {
        lemma_find_between(s, pat, i + 1, end);
    }
}

/// `find_between` is fixed by the first occurrence in the range.
pub proof fn lemma_find_between_at(s: Seq<u8>, pat: Seq<u8>, i: int, end: int, k: int)
    requires
        0 <= i <= k,
        k + pat.len() <= end <= s.len(),
        occurs_at(s, pat, k),
        forall|j: int| i <= j < k ==> !occurs_at(s, pat, j),
    ensures
        find_between(s, pat, i, end) == Some(k),
{
    lemma_find_between(s, pat, i, end);
}

/// Whether `pat` occurs in `s` at index `i`.
pub fn matches_at(s: &[u8], pat: &[u8], i: usize) -> (r: bool)
    ensures
        r == occurs_at(s@, pat@, i as int),
{
    if pat.len() > s.len() || i > s.len() - pat.len() {
        return false;
    }
    let n: usize = s.len();
    let mut j: usize = 0;
    while j < pat.len()
        invariant
            s@.len() == n,
            i + pat@.len() <= s@.len(),
            j <= pat@.len(),
            forall|t: int| 0 <= t < j ==> s@[i + t] == pat@[t],
        decreases pat.len() - j,
    {
        if s[i + j] != pat[j] {
            assert(s@.subrange(i as int, i + pat@.len())[j as int] != pat@[j as int]);
            return false;
        }
        j = j + 1;
    }
    assert(s@.subrange(i as int, i + pat@.len()) =~= pat@);
    true
}

/// The first index in `start .. end` at which `pat` occurs and fits before
/// `end`.
pub fn find(s: &[u8], pat: &[u8], start: usize, end: usize) -> (r: Option<usize>)
    requires
        end <= s@.len(),
    ensures
        r matches Some(k) ==> find_between(s@, pat@, start as int, end as int) == Some(k as int),
        r is None ==> find_between(s@, pat@, start as int, end as int) is None,
{
    if pat.len() > end || start > end - pat.len() {
        return None;
    }
    let last: usize = end - pat.len();
    let mut i: usize = start;
    loop
        invariant
            start <= i <= last,
            last + pat@.len() == end,
            end <= s@.len(),
            find_between(s@, pat@, start as int, end as int) == find_between(
                s@,
                pat@,
                i as int,
                end as int,
            ),
        decreases last - i,
    {
        if matches_at(s, pat, i) {
            return Some(i);
        }
        if i == last {
            assert(find_between(s@, pat@, i + 1, end as int) is None);
            return None;
        }
        i = i + 1;
    }
}

/// A copy of `s[a .. b]`.
pub fn copy_range(s: &[u8], a: usize, b: usize) -> (r: Vec<u8>)
    requires
        a <= b <= s@.len(),
    ensures
        r@ == s@.subrange(a as int, b as int),
{
    let mut r: Vec<u8> = Vec::new();
    let mut i: usize = a;
    while i < b
        invariant
            a <= i <= b <= s@.len(),
            r@ == s@.subrange(a as int, i as int),
        decreases b - i,
    {
        r.push(s[i]);
        i = i + 1;
        assert(r@ =~= s@.subrange(a as int, i as int));
    }
    r
}

/// Whether two byte sequences are equal.
pub fn bytes_eq(a: &[u8], b: &[u8]) -> (r: bool)
    ensures
        r == (a@ == b@),
{
    if a.len() != b.len() {
        return false;
    }
    let mut i: usize = 0;
    while i < a.len()
        invariant
            a@.len() == b@.len(),
            i <= a@.len(),
            forall|t: int| 0 <= t < i ==> a@[t] == b@[t],
        decreases a.len() - i,
    {
        if a[i] != b[i] {
            return false;
        }
        i = i + 1;
    }
    assert(a@ =~= b@);
    true
}

/// Whether `s` begins with `prefix`.
pub fn starts_with(s: &[u8], prefix: &[u8]) -> (r: bool)
    ensures
        r == (prefix@.len() <= s@.len() && s@.subrange(0, prefix@.len() as int) == prefix@),
{
    matches_at(s, prefix, 0)
}

/// The bytes of an ASCII text.
pub open spec fn ascii(s: Seq<char>) -> Seq<u8> {
    Seq::new(s.len(), |i: int| s[i] as u8)
}

/// The bytes of an ASCII string slice.
pub fn ascii_bytes(s: &str) -> (r: &[u8])
    requires
        s.is_ascii(),
    ensures
        r@ == ascii(s@),
{
    proof {
        vstd::string::is_ascii_spec_bytes(s);
    }
    s.as_bytes()
}

/// The bytes of an ASCII string slice, owned.
pub fn ascii_vec(s: &str) -> (r: Vec<u8>)
    requires
        s.is_ascii(),
    ensures
        r@ == ascii(s@),
{
    let b = ascii_bytes(s);
    copy_range(b, 0, b.len())
}

/// Appends `s` to `out`.
pub fn append(out: &mut Vec<u8>, s: &[u8])
    ensures
        final(out)@ == old(out)@ + s@,
{
    let ghost start = out@;
    let mut i: usize = 0;
    while i < s.len()
        invariant
            i <= s@.len(),
            out@ == start + s@.subrange(0, i as int),
        decreases s.len() - i,
    {
        out.push(s[i]);
        i = i + 1;
        assert(out@ =~= start + s@.subrange(0, i as int));
    }
    assert(s@.subrange(0, i as int) =~= s@);
}

} // verus!
