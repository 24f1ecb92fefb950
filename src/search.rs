//! Boyer–Moore–Horspool search over the ascending (address, byte) pairs of
//! a store. Positions are indices into that sequence, not addresses, so a
//! match may span a gap between addresses that hold no byte.
use crate::image::{ascending_listing, IntelHex};
use vstd::prelude::*;

verus! {

/// The pattern occurs at position `i` of the byte column of `hay`.
pub open spec fn matches_at(hay: Seq<(usize, u8)>, pat: Seq<u8>, i: int) -> bool {
    &&& 0 <= i
    &&& i + pat.len() <= hay.len()
    &&& forall|j: int| 0 <= j < pat.len() ==> #[trigger] hay[i + j].1 == pat[j]
}

/// The addresses at which a match starts, over the positions before `n`, ascending.
pub open spec fn matches_before(hay: Seq<(usize, u8)>, pat: Seq<u8>, n: int) -> Seq<usize>
    decreases n,
{
    if n <= 0 {
        seq![]
    } else if matches_at(hay, pat, n - 1) {
        matches_before(hay, pat, n - 1).push(hay[n - 1].0)
    } else {
        matches_before(hay, pat, n - 1)
    }
}

/// All match start addresses; a pattern that is empty or longer than 255 bytes matches nowhere.
pub open spec fn spec_search(hay: Seq<(usize, u8)>, pat: Seq<u8>) -> Seq<usize> {
    if pat.len() == 0 || pat.len() > 255 {
        seq![]
    } else {
        matches_before(hay, pat, hay.len() as int)
    }
}

/// The last index below `upto` at which `pat` holds `c`, or -1.
pub open spec fn last_occurrence(pat: Seq<u8>, c: u8, upto: int) -> int
    decreases upto,
{
    if upto <= 0 {
        -1
    } else if pat[upto - 1] == c {
        upto - 1
    } else {
        last_occurrence(pat, c, upto - 1)
    }
}

/// How far the window may move when its last byte is `c`, using the
/// pattern's first `upto` bytes.
pub open spec fn shift_for(pat: Seq<u8>, c: u8, upto: int) -> int {
    pat.len() - 1 - last_occurrence(pat, c, upto)
}

proof fn lemma_last_occurrence(pat: Seq<u8>, c: u8, upto: int)
    requires
        0 <= upto <= pat.len(),
    ensures
        -1 <= last_occurrence(pat, c, upto) < upto,
        last_occurrence(pat, c, upto) >= 0 ==> pat[last_occurrence(pat, c, upto)] == c,
        forall|q: int| last_occurrence(pat, c, upto) < q < upto ==> pat[q] != c,
    decreases upto,
{
    if upto > 0 {
        lemma_last_occurrence(pat, c, upto - 1);
    }
}

proof fn lemma_no_match_range(hay: Seq<(usize, u8)>, pat: Seq<u8>, i: int, k: int)
    requires
        0 <= i <= k,
        forall|t: int| i <= t < k ==> !matches_at(hay, pat, t),
    ensures
        matches_before(hay, pat, k) == matches_before(hay, pat, i),
    decreases k - i,
{
    if k > i {
        lemma_no_match_range(hay, pat, i, k - 1);
    }
}

/// The addresses of all matches of `pattern` in the byte column of `haystack`,
/// ascending; overlapping matches are all reported.
pub fn search_bmh(haystack: &[(usize, u8)], pattern: &[u8]) -> (r: Vec<usize>)
    ensures
        r@ == spec_search(haystack@, pattern@),
{
    let ghost hay = haystack@;
    let ghost pat = pattern@;
    let m = pattern.len();
    if m == 0 || m > 255 {
        return Vec::new();
    }
    let n = haystack.len();
    if n < m {
        proof {
            lemma_no_match_range(hay, pat, 0, n as int);
        }
        return Vec::new();
    }
    let mut bad_match: Vec<u8> = Vec::new();
    let mut c: usize = 0;
    while c < 256
        invariant
            c <= 256,
            1 <= m <= 255,
            bad_match@.len() == c,
            forall|d: int| 0 <= d < c ==> bad_match@[d] == m,
        decreases 256 - c,
    {
        bad_match.push(m as u8);
        c += 1;
    }
    let mut i: usize = 0;
    while i < m - 1
        invariant
            1 <= m <= 255,
            pat == pattern@,
            m == pattern@.len(),
            i <= m - 1,
            bad_match@.len() == 256,
            forall|d: int|
                0 <= d < 256 ==> #[trigger] bad_match@[d] == shift_for(pat, d as u8, i as int),
        decreases m - 1 - i,
    {
        bad_match.set(pattern[i] as usize, (m - 1 - i) as u8);
        assert forall|d: int| 0 <= d < 256 implies #[trigger] bad_match@[d] == shift_for(
            pat,
            d as u8,
            i + 1,
        ) by {
            lemma_last_occurrence(pat, d as u8, i as int);
        }
        i += 1;
    }
    let mut results: Vec<usize> = Vec::new();
    let mut i: usize = 0;
    while i <= n - m
        invariant
            1 <= m <= 255,
            m <= n,
            n == hay.len(),
            hay == haystack@,
            pat == pattern@,
            m == pat.len(),
            bad_match@.len() == 256,
            forall|d: int|
                0 <= d < 256 ==> #[trigger] bad_match@[d] == shift_for(pat, d as u8, m - 1),
            i <= n,
            results@ == matches_before(hay, pat, i as int),
        decreases n - i,
    {
        let mut j: usize = m;
        while j > 0 && haystack[i + j - 1].1 == pattern[j - 1]
            invariant
                i + m <= n,
                n == haystack@.len(),
                m == pattern@.len(),
                j <= m,
                forall|q: int| j <= q < m ==> haystack@[i + q].1 == pattern@[q],
            decreases j,
        {
            j -= 1;
        }
        if j == 0 {
            assert(matches_at(hay, pat, i as int));
            results.push(haystack[i].0);
            i += 1;
        } else {
            let last = haystack[i + m - 1].1;
            let s = bad_match[last as usize] as usize;
            proof {
                lemma_last_occurrence(pat, last, m - 1);
                assert(!matches_at(hay, pat, i as int)) by {
                    assert(hay[i + (j - 1)].1 != pat[j - 1]);
                }
                assert forall|t: int| i <= t < i + s implies !matches_at(hay, pat, t) by {
                    if t > i && matches_at(hay, pat, t) {
                        let q = i + m - 1 - t;
                        assert(hay[t + q].1 == pat[q]);
                    }
                }
                lemma_no_match_range(hay, pat, i as int, i + s);
            }
            i += s;
        }
    }
    proof {
        assert forall|t: int| i <= t < n implies !matches_at(hay, pat, t) by {}
        lemma_no_match_range(hay, pat, i as int, n as int);
    }
    results
}

impl IntelHex {
    /// The addresses at which `pattern` starts in the ascending sequence of
    /// stored bytes.
    pub fn search(&self, pattern: &[u8]) -> (r: Vec<usize>)
        ensures
            r@ == spec_search(ascending_listing(self.store()), pattern@),
    {
        let e = self.entries();
        search_bmh(e.as_slice(), pattern)
    }
}

} // verus!
