//! Searching and splitting byte sequences.

use vstd::prelude::*;
use vstd::slice::slice_subrange;
use vstd::slice::slice_to_vec;

verus! {

/// `pat` stands in `s` at index `i`.
pub open spec fn occurs_at(s: Seq<u8>, pat: Seq<u8>, i: int) -> bool {
    0 <= i && i + pat.len() <= s.len() && s.subrange(i, i + pat.len()) == pat
}

/// The first index, from `i` on, at which the non-empty `pat` stands in `s`.
pub open spec fn find_from(s: Seq<u8>, pat: Seq<u8>, i: int) -> Option<int>
    decreases s.len() - i,
{
    if i < 0 || i >= s.len() || i + pat.len() > s.len() {
        None
    } else if occurs_at(s, pat, i) {
        Some(i)
    } else {
        find_from(s, pat, i + 1)
    }
}

/// What `find_from` finds is the first occurrence at or after `i`.
pub proof fn lemma_find_from(s: Seq<u8>, pat: Seq<u8>, i: int)
    requires
        pat.len() > 0,
        0 <= i,
    ensures
        find_from(s, pat, i) matches Some(j) ==> {
            &&& i <= j
            &&& occurs_at(s, pat, j)
            &&& forall|k: int| i <= k < j ==> !occurs_at(s, pat, k)
        },
        find_from(s, pat, i) is None ==> forall|k: int| i <= k ==> !occurs_at(s, pat, k),
    decreases s.len() - i,
{
    if i < 0 || i >= s.len() || i + pat.len() > s.len() {
    } else if occurs_at(s, pat, i) {
    } else {
        lemma_find_from(s, pat, i + 1);
    }
}

/// An occurrence with none before it, from `i` on, is what `find_from` finds.
pub proof fn lemma_find_first(s: Seq<u8>, pat: Seq<u8>, i: int, j: int)
    requires
        pat.len() > 0,
        0 <= i <= j,
        occurs_at(s, pat, j),
        forall|k: int| i <= k < j ==> !occurs_at(s, pat, k),
    ensures
        find_from(s, pat, i) == Some(j),
{
    lemma_find_from(s, pat, i);
}

/// Whether `pat` stands in `s` at index `i`.
pub fn matches_at(s: &[u8], pat: &[u8], i: usize) -> (r: bool)
    ensures
        r == occurs_at(s@, pat@, i as int),
{
    if i > s.len() || pat.len() > s.len() - i {
        return false;
    }
    let mut k: usize = 0;
    while k < pat.len()
        invariant
            i + pat.len() <= s.len(),
            k <= pat.len(),
            forall|m: int| 0 <= m < k ==> s@[i + m] == pat@[m],
        decreases pat@.len() - k,
    {
        if s[i + k] != pat[k] {
            assert(s@.subrange(i as int, i + pat@.len())[k as int] != pat@[k as int]);
            return false;
        }
        k = k + 1;
    }
    assert(s@.subrange(i as int, i + pat@.len()) =~= pat@);
    true
}

/// The first index, from `start` on, at which the non-empty `pat` stands in `s`.
pub fn find_pattern(s: &[u8], pat: &[u8], start: usize) -> (r: Option<usize>)
    requires
        pat@.len() > 0,
    ensures
        r matches Some(j) ==> find_from(s@, pat@, start as int) == Some(j as int),
        r is None ==> find_from(s@, pat@, start as int) is None,
{
    let mut i = start;
    while i < s.len()
        invariant
            pat@.len() > 0,
            start <= i,
            find_from(s@, pat@, start as int) == find_from(s@, pat@, i as int),
        decreases s@.len() - i,
    {
        if pat.len() > s.len() - i {
            return None;
        }
        if matches_at(s, pat, i) {
            return Some(i);
        }
        i = i + 1;
    }
    None
}

/// The pieces of `s[start..]` between the occurrences of the non-empty `sep`,
/// read from left to right, as `str::split` gives them.
pub open spec fn split_from(s: Seq<u8>, sep: Seq<u8>, start: int) -> Seq<Seq<u8>>
    decreases s.len() - start,
{
    if sep.len() == 0 || start < 0 {
        seq![s.subrange(start, s.len() as int)]
    } else {
        match find_from(s, sep, start) {
            None => seq![s.subrange(start, s.len() as int)],
            Some(j) => {
                proof {
                    lemma_find_from(s, sep, start);
                }
                seq![s.subrange(start, j)] + split_from(s, sep, j + sep.len())
            },
        }
    }
}

/// The pieces of `s` between the occurrences of the non-empty `sep`.
pub open spec fn split(s: Seq<u8>, sep: Seq<u8>) -> Seq<Seq<u8>> {
    split_from(s, sep, 0)
}

/// `s` cut at the first occurrence of `sep`, the occurrence itself left out,
/// as `str::split_once` gives it.
pub open spec fn split_once(s: Seq<u8>, sep: Seq<u8>) -> Option<(Seq<u8>, Seq<u8>)> {
    match find_from(s, sep, 0) {
        Some(j) => Some((s.subrange(0, j), s.subrange(j + sep.len(), s.len() as int))),
        None => None,
    }
}

/// A copy of `s[from..to]`.
pub fn copy_range(s: &[u8], from: usize, to: usize) -> (r: Vec<u8>)
    requires
        from <= to <= s@.len(),
    ensures
        r@ == s@.subrange(from as int, to as int),
{
    slice_to_vec(slice_subrange(s, from, to))
}

/// The pieces of `s` between the occurrences of the non-empty `sep`.
pub fn split_on(s: &[u8], sep: &[u8]) -> (r: Vec<Vec<u8>>)
    requires
        sep@.len() > 0,
    ensures
        r@.map_values(|v: Vec<u8>| v@) == split(s@, sep@),
{
    let mut out: Vec<Vec<u8>> = Vec::new();
    let mut start: usize = 0;
    loop
        invariant
            sep@.len() > 0,
            start <= s@.len(),
            split(s@, sep@) == out@.map_values(|v: Vec<u8>| v@) + split_from(s@, sep@, start as int),
        decreases s@.len() - start,
    {
        let ghost before = out@.map_values(|v: Vec<u8>| v@);
        match find_pattern(s, sep, start) {
            None => {
                let piece = copy_range(s, start, s.len());
                out.push(piece);
                assert(out@.map_values(|v: Vec<u8>| v@) =~= before.push(piece@));
                assert(split_from(s@, sep@, start as int) == seq![piece@]);
                assert(split(s@, sep@) =~= out@.map_values(|v: Vec<u8>| v@));
                return out;
            },
            Some(j) => {
                proof {
                    lemma_find_from(s@, sep@, start as int);
                }
                let n = s.len();
                assert(j + sep@.len() <= n);
                let piece = copy_range(s, start, j);
                out.push(piece);
                assert(out@.map_values(|v: Vec<u8>| v@) =~= before.push(piece@));
                let ghost rest = split_from(s@, sep@, j + sep@.len());
                assert(split_from(s@, sep@, start as int) == seq![piece@] + rest);
                assert(before + (seq![piece@] + rest) =~= before.push(piece@) + rest);
                start = j + sep.len();
            },
        }
    }
}

/// `s` cut at the first occurrence of the non-empty `sep`.
pub fn split_once_on(s: &[u8], sep: &[u8]) -> (r: Option<(Vec<u8>, Vec<u8>)>)
    requires
        sep@.len() > 0,
    ensures
        r is Some <==> split_once(s@, sep@) is Some,
        r matches Some((a, b)) ==> split_once(s@, sep@) == Some((a@, b@)),
{
    match find_pattern(s, sep, 0) {
        None => None,
        Some(j) => {
            proof {
                lemma_find_from(s@, sep@, 0);
            }
            let n = s.len();
            assert(j + sep@.len() <= n);
            let a = copy_range(s, 0, j);
            let b = copy_range(s, j + sep.len(), s.len());
            Some((a, b))
        },
    }
}

/// `s` ends with `t`.
pub open spec fn ends_with(s: Seq<u8>, t: Seq<u8>) -> bool {
    t.len() <= s.len() && s.subrange(s.len() - t.len(), s.len() as int) == t
}

/// Whether `s` ends with `t`.
pub fn ends_with_bytes(s: &[u8], t: &[u8]) -> (r: bool)
    ensures
        r == ends_with(s@, t@),
{
    t.len() <= s.len() && matches_at(s, t, s.len() - t.len())
}

/// Whether `a` and `b` hold the same bytes.
pub fn bytes_equal(a: &[u8], b: &[u8]) -> (r: bool)
    ensures
        r == (a@ == b@),
{
    if a.len() != b.len() {
        return false;
    }
    let r = matches_at(a, b, 0);
    assert(a@.subrange(0, b@.len() as int) =~= a@);
    r
}

} // verus!
