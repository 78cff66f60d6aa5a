//! The single-direction index: backward search over a Burrows-Wheeler transform,
//! with a boundary table and a sampled rank table.

use vstd::prelude::*;

verus! {

/// Number of occurrences of `a` among the first `n` symbols of `s`.
pub open spec fn count_upto(s: Seq<u8>, n: int, a: u8) -> nat
    decreases n,
{
    if n <= 0 {
        0
    } else {
        count_upto(s, n - 1, a) + if s[n - 1] == a { 1nat } else { 0nat }
    }
}

/// Number of symbols strictly smaller than `a` among the first `n` symbols of `s`.
pub open spec fn less_upto(s: Seq<u8>, n: int, a: int) -> nat
    decreases n,
{
    if n <= 0 {
        0
    } else {
        less_upto(s, n - 1, a) + if (s[n - 1] as int) < a { 1nat } else { 0nat }
    }
}

/// Boundary of `a`: the number of symbols of `s` strictly smaller than `a`, which is
/// where the band of suffixes starting with `a` begins.
pub open spec fn boundary(s: Seq<u8>, a: int) -> nat {
    less_upto(s, s.len() as int, a)
}

/// One step of backward search: the half-open interval `[l, r)` of suffixes starting
/// with some word, narrowed to those starting with `a` followed by that word.
pub open spec fn search_step(s: Seq<u8>, lr: (int, int), a: u8) -> (int, int) {
    (
        (boundary(s, a as int) + count_upto(s, lr.0, a)) as int,
        (boundary(s, a as int) + count_upto(s, lr.1, a)) as int,
    )
}

/// The half-open interval that backward search reaches for pattern `p`: the whole
/// range for the empty pattern, then one step per symbol from the last to the first.
pub open spec fn search_interval(s: Seq<u8>, p: Seq<u8>) -> (int, int)
    decreases p.len(),
{
    if p.len() == 0 {
        (0, s.len() as int)
    } else {
        search_step(s, search_interval(s, p.drop_first()), p[0])
    }
}

pub proof fn lemma_count_bounds(s: Seq<u8>, m: int, n: int, a: u8)
    requires
        0 <= m <= n,
    ensures
        count_upto(s, m, a) <= count_upto(s, n, a),
        count_upto(s, n, a) - count_upto(s, m, a) <= n - m,
        count_upto(s, n, a) <= n,
    decreases n,
{
    if n > 0 {
        if m < n {
            lemma_count_bounds(s, m, n - 1, a);
        }
        lemma_count_bounds(s, 0, n - 1, a);
    }
}

pub proof fn lemma_less_step(s: Seq<u8>, n: int, a: u8)
    requires
        0 <= n,
    ensures
        less_upto(s, n, a as int + 1) == less_upto(s, n, a as int) + count_upto(s, n, a),
        less_upto(s, n, a as int + 1) <= n,
    decreases n,
{
    if n > 0 {
        lemma_less_step(s, n - 1, a);
    }
}

/// No symbol is smaller than zero.
pub proof fn lemma_less_zero(s: Seq<u8>, n: int)
    ensures
        less_upto(s, n, 0) == 0,
    decreases n,
{
    if n > 0 {
        lemma_less_zero(s, n - 1);
    }
}

/// Boundary of `a` plus the occurrences of `a` is the boundary of the next symbol, which
/// is at most the length of the text.
pub proof fn lemma_band_end(s: Seq<u8>, a: u8)
    ensures
        boundary(s, a as int) + count_upto(s, s.len() as int, a) == boundary(s, a as int + 1),
        boundary(s, a as int + 1) <= s.len(),
{
    lemma_less_step(s, s.len() as int, a);
}

/// An empty search interval stays empty when the pattern grows at the front.
pub proof fn lemma_step_keeps_empty(s: Seq<u8>, lr: (int, int), a: u8)
    requires
        0 <= lr.1 <= lr.0,
    ensures
        search_step(s, lr, a).1 <= search_step(s, lr, a).0,
        0 <= search_step(s, lr, a).1,
{
    lemma_count_bounds(s, lr.1, lr.0, a);
}

/// Once the search interval of a suffix of `p` is empty, so is that of `p`.
pub proof fn lemma_empty_persists(s: Seq<u8>, p: Seq<u8>, m: int)
    requires
        0 <= m <= p.len(),
        search_interval(s, p.subrange(m, p.len() as int)).1 <= search_interval(
            s,
            p.subrange(m, p.len() as int),
        ).0,
    ensures
        search_interval(s, p).1 <= search_interval(s, p).0,
    decreases m,
{
    lemma_search_in_range(s, p.subrange(m, p.len() as int));
    if m > 0 {
        let tail = p.subrange(m, p.len() as int);
        let longer = p.subrange(m - 1, p.len() as int);
        assert(longer.drop_first() =~= tail);
        lemma_step_keeps_empty(s, search_interval(s, tail), longer[0]);
        lemma_empty_persists(s, p, m - 1);
    } else {
        assert(p.subrange(0, p.len() as int) =~= p);
    }
}

/// Every search interval lies within `[0, len]` with its start no later than past its end.
pub proof fn lemma_search_in_range(s: Seq<u8>, p: Seq<u8>)
    ensures
        0 <= search_interval(s, p).0 <= s.len(),
        0 <= search_interval(s, p).1 <= s.len(),
    decreases p.len(),
{
    if p.len() > 0 {
        let lr = search_interval(s, p.drop_first());
        lemma_search_in_range(s, p.drop_first());
        lemma_count_bounds(s, lr.0, s.len() as int, p[0]);
        lemma_count_bounds(s, lr.1, s.len() as int, p[0]);
        lemma_band_end(s, p[0]);
    }
}

/// A pattern holding a symbol that never occurs in the text has an empty search
/// interval.
pub proof fn lemma_absent_symbol_empty(s: Seq<u8>, p: Seq<u8>, j: int)
    requires
        0 <= j < p.len(),
        count_upto(s, s.len() as int, p[j]) == 0,
    ensures
        search_interval(s, p).1 <= search_interval(s, p).0,
{
    let tail = p.subrange(j + 1, p.len() as int);
    let here = p.subrange(j, p.len() as int);
    assert(here.drop_first() =~= tail);
    lemma_search_in_range(s, tail);
    let lr = search_interval(s, tail);
    lemma_count_bounds(s, lr.0, s.len() as int, p[j]);
    lemma_count_bounds(s, lr.1, s.len() as int, p[j]);
    lemma_empty_persists(s, p, j);
}

/// Backward search over a Burrows-Wheeler transform, with the boundary of each byte
/// value and, for each symbol that occurs, its running count sampled every `k`
/// positions (symbols that never occur keep no samples).
pub struct FMIndex<'a> {
    bwt: &'a [u8],
    k: usize,
    less: Vec<usize>,
    occ: Vec<Vec<usize>>,
}

/// The counts of `a` in `bwt` sampled every `k` positions: entry `j` is the number of
/// occurrences of `a` in `bwt[0..=j*k]`.
fn sample_counts(bwt: &[u8], k: usize, a: u8) -> (row: Vec<usize>)
    requires
        k >= 1,
        bwt.len() >= 1,
    ensures
        row.len() * k >= bwt.len(),
        forall|j: int| 0 <= j < row.len() ==> #[trigger] row@[j] == count_upto(bwt@, j * k + 1, a),
{
    let n = bwt.len();
    let mut row: Vec<usize> = Vec::new();
    let mut cnt: usize = 0;
    let mut i: usize = 0;
    let mut p: usize = 0;
    let mut done = false;
    assert(row@.len() * k == 0) by (nonlinear_arith)
        requires
            row@.len() == 0,
    ;
    while !done
        invariant
            n == bwt.len(),
            k >= 1,
            i <= n,
            cnt == count_upto(bwt@, i as int, a),
            !done ==> p < n && p as int == row.len() * k && i <= p,
            done ==> row.len() * k >= n,
            forall|j: int| 0 <= j < row.len() ==> #[trigger] row@[j] == count_upto(bwt@, j * k + 1, a),
        decreases n - p + if done { 0int } else { 1int },
    {
        while i <= p
            invariant
                n == bwt.len(),
                p < n,
                i <= p + 1,
                cnt == count_upto(bwt@, i as int, a),
            decreases p + 1 - i,
        {
            proof {
                lemma_count_bounds(bwt@, i as int, i as int, a);
            }
            if bwt[i] == a {
                cnt = cnt + 1;
            }
            i = i + 1;
        }
        let ghost len = row.len();
        row.push(cnt);
        assert((len + 1) * k == len * k + k) by (nonlinear_arith);
        if n - p <= k {
            done = true;
        } else {
            p = p + k;
        }
    }
    row
}

impl<'a> FMIndex<'a> {
    /// The transformed text.
    pub closed spec fn text(&self) -> Seq<u8> {
        self.bwt@
    }

    /// The tables agree with the transformed text.
    pub closed spec fn wf(&self) -> bool {
        &&& 1 <= self.bwt@.len() < usize::MAX
        &&& self.k >= 1
        &&& self.less@.len() == 257
        &&& forall|a: int| 0 <= a < 257 ==> #[trigger] self.less@[a] == boundary(self.bwt@, a)
        &&& self.occ@.len() == 256
        &&& forall|a: int|
            0 <= a < 256 ==> (#[trigger] self.occ@[a])@.len() * self.k >= self.bwt@.len() || (
            self.occ@[a]@.len() == 0 && count_upto(self.bwt@, self.bwt@.len() as int, a as u8) == 0)
        &&& forall|a: int, j: int|
            0 <= a < 256 && 0 <= j < self.occ@[a]@.len() ==> #[trigger] self.occ@[a]@[j]
                == count_upto(self.bwt@, j * self.k + 1, a as u8)
    }

    /// The transformed text of a well-formed index is non-empty and its length fits.
    pub proof fn lemma_text_len(&self)
        requires
            self.wf(),
        ensures
            1 <= self.text().len() < usize::MAX,
    {
    }

    /// Builds the index over `bwt`, keeping for each symbol that occurs in it one count
    /// for every `k`-th position (a larger `k` uses less memory and answers rank queries
    /// more slowly). The symbols are those of the transform itself.
    pub fn new(bwt: &'a [u8], k: usize) -> (r: Self)
        requires
            1 <= bwt.len() < usize::MAX,
            k >= 1,
        ensures
            r.wf(),
            r.text() == bwt@,
    {
        let n = bwt.len();
        let mut counts: Vec<usize> = Vec::new();
        let mut a: usize = 0;
        while a < 256
            invariant
                a <= 256,
                counts@.len() == a,
                forall|c: int| 0 <= c < a ==> #[trigger] counts@[c] == 0,
            decreases 256 - a,
        {
            counts.push(0);
            a = a + 1;
        }
        let mut i: usize = 0;
        while i < n
            invariant
                n == bwt.len(),
                i <= n,
                counts@.len() == 256,
                forall|c: int| 0 <= c < 256 ==> #[trigger] counts@[c] == count_upto(bwt@, i as int, c as u8),
            decreases n - i,
        {
            let b = bwt[i] as usize;
            proof {
                lemma_count_bounds(bwt@, i as int, i as int, bwt@[i as int]);
            }
            let c = counts[b] + 1;
            counts.set(b, c);
            i = i + 1;
            assert forall|c: int| 0 <= c < 256 implies #[trigger] counts@[c] == count_upto(
                bwt@,
                i as int,
                c as u8,
            ) by {
                assert(c as u8 as int == c);
            }
        }
        let mut less: Vec<usize> = Vec::new();
        less.push(0);
        proof {
            lemma_less_zero(bwt@, n as int);
        }
        let mut a: usize = 0;
        while a < 256
            invariant
                n == bwt.len(),
                a <= 256,
                less@.len() == a + 1,
                counts@.len() == 256,
                forall|c: int| 0 <= c < 256 ==> #[trigger] counts@[c] == count_upto(bwt@, n as int, c as u8),
                forall|b: int| 0 <= b <= a ==> #[trigger] less@[b] == boundary(bwt@, b),
            decreases 256 - a,
        {
            proof {
                lemma_less_step(bwt@, n as int, a as u8);
            }
            let next = less[a] + counts[a];
            less.push(next);
            a = a + 1;
        }
        let mut occ: Vec<Vec<usize>> = Vec::new();
        let mut b: usize = 0;
        while b < 256
            invariant
                n == bwt.len(),
                1 <= n,
                k >= 1,
                b <= 256,
                occ@.len() == b,
                counts@.len() == 256,
                forall|c: int| 0 <= c < 256 ==> #[trigger] counts@[c] == count_upto(bwt@, n as int, c as u8),
                forall|c: int|
                    0 <= c < b ==> (#[trigger] occ@[c])@.len() * k >= n || (occ@[c]@.len() == 0
                        && count_upto(bwt@, n as int, c as u8) == 0),
                forall|c: int, j: int|
                    0 <= c < b && 0 <= j < occ@[c]@.len() ==> #[trigger] occ@[c]@[j]
                        == count_upto(bwt@, j * k + 1, c as u8),
            decreases 256 - b,
        {
            if counts[b] > 0 {
                let row = sample_counts(bwt, k, b as u8);
                occ.push(row);
            } else {
                occ.push(Vec::new());
            }
            b = b + 1;
        }
        FMIndex { bwt, k, less, occ }
    }

    /// The number of occurrences of `a` in the first `p` symbols of the transformed text.
    pub fn rank_before(&self, p: usize, a: u8) -> (r: usize)
        requires
            self.wf(),
            p <= self.text().len(),
        ensures
            r == count_upto(self.text(), p as int, a),
    {
        if p == 0 {
            return 0;
        }
        let q = p - 1;
        let k = self.k;
        let j = q / k;
        let row = &self.occ[a as usize];
        if row.len() == 0 {
            proof {
                lemma_count_bounds(self.bwt@, p as int, self.bwt@.len() as int, a);
            }
            return 0;
        }
        proof {
            let len = row@.len();
            assert(j * k <= q) by (nonlinear_arith)
                requires
                    j == q / k,
                    k >= 1,
            ;
            assert(j < len) by (nonlinear_arith)
                requires
                    j * k <= q,
                    q < len * k,
                    k >= 1,
            ;
        }
        let mut cnt = row[j];
        let mut i = j * k + 1;
        while i < p
            invariant
                p <= self.bwt@.len(),
                i <= p,
                cnt == count_upto(self.bwt@, i as int, a),
            decreases p - i,
        {
            proof {
                lemma_count_bounds(self.bwt@, i as int, i as int, a);
            }
            if self.bwt[i] == a {
                cnt = cnt + 1;
            }
            i = i + 1;
        }
        cnt
    }

    /// The number of symbols of the transformed text strictly smaller than `a`.
    pub fn boundary_of(&self, a: u8) -> (r: usize)
        requires
            self.wf(),
        ensures
            r == boundary(self.text(), a as int),
    {
        self.less[a as usize]
    }

    /// The number of symbols of the transformed text strictly smaller than `a`, for
    /// `a` up to 256 (where it is the length of the text).
    pub(crate) fn boundary_at(&self, a: usize) -> (r: usize)
        requires
            self.wf(),
            a <= 256,
        ensures
            r == boundary(self.text(), a as int),
    {
        self.less[a]
    }

    /// Backward search: the inclusive interval `(l, r)` of suffix-array positions whose
    /// suffixes start with `pattern`. When the pattern does not occur the result is the
    /// empty marker `(1, 0)`.
    pub fn backward_search(&self, pattern: &[u8]) -> (r: (usize, usize))
        requires
            self.wf(),
        ensures
            search_interval(self.text(), pattern@).0 < search_interval(self.text(), pattern@).1
                ==> r.0 == search_interval(self.text(), pattern@).0 && r.1
                == search_interval(self.text(), pattern@).1 - 1,
            search_interval(self.text(), pattern@).1 <= search_interval(self.text(), pattern@).0
                ==> r == (1usize, 0usize),
    {
        let s = Ghost(self.bwt@);
        let mut l: usize = 0;
        let mut r: usize = self.bwt.len();
        let mut m: usize = pattern.len();
        proof {
            assert(pattern@.subrange(m as int, pattern@.len() as int) =~= Seq::<u8>::empty());
        }
        while m > 0 && l < r
            invariant
                self.wf(),
                s@ == self.bwt@,
                m <= pattern@.len(),
                r <= s@.len(),
                (l as int, r as int) == search_interval(s@, pattern@.subrange(m as int, pattern@.len() as int)),
            decreases m,
        {
            let a = pattern[m - 1];
            let ghost tail = pattern@.subrange(m as int, pattern@.len() as int);
            let ghost longer = pattern@.subrange(m - 1, pattern@.len() as int);
            proof {
                assert(longer.drop_first() =~= tail);
                lemma_search_in_range(s@, longer);
            }
            let less = self.boundary_of(a);
            let nl = less + self.rank_before(l, a);
            let nr = less + self.rank_before(r, a);
            l = nl;
            r = nr;
            m = m - 1;
        }
        proof {
            if l >= r {
                lemma_empty_persists(s@, pattern@, m as int);
            }
            assert(pattern@.subrange(0, pattern@.len() as int) =~= pattern@);
        }
        if l < r {
            (l, r - 1)
        } else {
            (1, 0)
        }
    }
}

} // verus!
