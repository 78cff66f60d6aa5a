//! The bidirectional index over a text followed by its reverse complement: intervals
//! that track a pattern on both strands, their extension by one symbol at either end,
//! and the enumeration of supermaximal exact matches.

use vstd::prelude::*;
use crate::alphabet::{comp, comp_spec, dna_seq, is_dna, is_dna_text, is_dna_word, SENTINEL};
use crate::fmindex::{
    boundary, count_upto, lemma_band_end, lemma_count_bounds, search_interval,
    search_step, FMIndex,
};

verus! {

/// A match tracked on both strands: the suffix-array interval `[lower, lower + size)` of
/// its forward occurrences, `[lower_rev, lower_rev + size)` of the occurrences of its
/// reverse complement, and the length of the matched pattern.
#[derive(Clone, Copy, Debug, PartialEq, Eq, Structural)]
pub struct BiInterval {
    pub lower: usize,
    pub lower_rev: usize,
    pub size: usize,
    pub match_size: usize,
}

/// Why a transform cannot back a bidirectional index.
#[derive(Clone, Copy, Debug, PartialEq, Eq, Structural)]
pub enum BuildError {
    /// A symbol is not one of `$ A C G N T`.
    InvalidSymbol,
}

impl BiInterval {
    /// The same match seen from the other strand: the two start offsets exchanged.
    pub open spec fn mirror(self) -> BiInterval {
        BiInterval {
            lower: self.lower_rev,
            lower_rev: self.lower,
            size: self.size,
            match_size: self.match_size,
        }
    }

    /// Both intervals lie within a suffix array of length `n`.
    pub open spec fn within(self, n: int) -> bool {
        self.lower + self.size <= n && self.lower_rev + self.size <= n
    }

    /// The mirrored interval.
    pub fn swapped(&self) -> (r: BiInterval)
        ensures
            r == self.mirror(),
    {
        BiInterval {
            lower: self.lower_rev,
            lower_rev: self.lower,
            size: self.size,
            match_size: self.match_size,
        }
    }

    fn positions(&self, pos: &[usize], lower: usize) -> (r: Vec<usize>)
        requires
            lower + self.size <= pos.len(),
        ensures
            r@ == pos@.subrange(lower as int, lower + self.size),
    {
        let mut r: Vec<usize> = Vec::new();
        let mut t: usize = lower;
        let end = lower + self.size;
        while t < end
            invariant
                lower <= t <= end,
                end == lower + self.size,
                end <= pos.len(),
                r@ == pos@.subrange(lower as int, t as int),
            decreases end - t,
        {
            r.push(pos[t]);
            t = t + 1;
            assert(r@ =~= pos@.subrange(lower as int, t as int));
        }
        r
    }

    /// The text positions of the forward occurrences, read from the suffix array `pos`.
    pub fn occ(&self, pos: &[usize]) -> (r: Vec<usize>)
        requires
            self.lower + self.size <= pos.len(),
        ensures
            r@ == pos@.subrange(self.lower as int, self.lower + self.size),
    {
        self.positions(pos, self.lower)
    }

    /// The text positions of the reverse-complement occurrences, read from the suffix
    /// array `pos`.
    pub fn occ_revcomp(&self, pos: &[usize]) -> (r: Vec<usize>)
        requires
            self.lower_rev + self.size <= pos.len(),
        ensures
            r@ == pos@.subrange(self.lower_rev as int, self.lower_rev + self.size),
    {
        self.positions(pos, self.lower_rev)
    }
}

/// Mirroring an interval twice gives it back unchanged.
pub proof fn lemma_mirror_involution(iv: BiInterval)
    ensures
        iv.mirror().mirror() == iv,
{
}

/// Whether `A` and `T`, and `C` and `G`, occur equally often in `s`.
pub open spec fn balanced(s: Seq<u8>) -> bool {
    count_upto(s, s.len() as int, 65) == count_upto(s, s.len() as int, 84) && count_upto(
        s,
        s.len() as int,
        67,
    ) == count_upto(s, s.len() as int, 71)
}

/// The number of occurrences that remain when the match of `iv` is preceded by `b`.
pub open spec fn ext_size(s: Seq<u8>, iv: BiInterval, b: u8) -> int {
    count_upto(s, iv.lower + iv.size, b) - count_upto(s, iv.lower as int, b)
}

/// Within the reverse-complement interval, the sub-intervals of the symbols `b` are laid
/// out in the order of their complements: this sums the sizes of those among the first
/// `m` symbols (in ascending order) of the alphabet whose complement comes before
/// the complement `cb` of the extending symbol.
pub open spec fn rev_before(s: Seq<u8>, iv: BiInterval, m: int, cb: u8) -> int
    decreases m,
{
    if m <= 0 {
        0
    } else {
        rev_before(s, iv, m - 1, cb) + if dna_seq()[m - 1] < cb {
            ext_size(s, iv, comp_spec(dna_seq()[m - 1]))
        } else {
            0
        }
    }
}

/// The interval of `b` followed by the match of `iv`.
pub open spec fn backward_ext_spec(s: Seq<u8>, iv: BiInterval, b: u8) -> BiInterval {
    BiInterval {
        lower: (boundary(s, b as int) + count_upto(s, iv.lower as int, b)) as usize,
        lower_rev: (iv.lower_rev + rev_before(s, iv, 6, comp_spec(b))) as usize,
        size: ext_size(s, iv, b) as usize,
        match_size: (iv.match_size + 1) as usize,
    }
}

/// The interval of the match of `iv` followed by `b`: extension at the front on the
/// other strand, by the complement.
pub open spec fn forward_ext_spec(s: Seq<u8>, iv: BiInterval, b: u8) -> BiInterval {
    backward_ext_spec(s, iv.mirror(), comp_spec(b)).mirror()
}

/// The interval of the one-symbol pattern `a`.
pub open spec fn init_spec(s: Seq<u8>, a: u8) -> BiInterval {
    BiInterval {
        lower: boundary(s, a as int) as usize,
        lower_rev: boundary(s, comp_spec(a) as int) as usize,
        size: (boundary(s, a as int + 1) - boundary(s, a as int)) as usize,
        match_size: 1,
    }
}

/// The interval reached from the symbol `p[i]` by extending forward through `p[e - 1]`.
pub open spec fn fwd_spec(s: Seq<u8>, p: Seq<u8>, i: int, e: int) -> BiInterval
    decreases e - i,
{
    if e <= i + 1 {
        init_spec(s, p[i])
    } else {
        forward_ext_spec(s, fwd_spec(s, p, i, e - 1), p[e - 1])
    }
}

/// The interval of `p[st..e]` reached from `p[i]` by forward extension to `e`, then
/// backward extension down to `st`.
pub open spec fn ext_from(s: Seq<u8>, p: Seq<u8>, st: int, i: int, e: int) -> BiInterval
    decreases i - st,
{
    if st >= i {
        fwd_spec(s, p, i, e)
    } else {
        backward_ext_spec(s, ext_from(s, p, st + 1, i, e), p[st])
    }
}

/// The interval of a non-empty pattern `p` built from its last symbol by backward
/// extension through the others.
pub open spec fn backward_chain(s: Seq<u8>, p: Seq<u8>) -> BiInterval
    decreases p.len(),
{
    if p.len() <= 1 {
        init_spec(s, p[0])
    } else {
        backward_ext_spec(s, backward_chain(s, p.drop_first()), p[0])
    }
}

/// Extending backward by `a` moves the forward-strand interval exactly as one step of
/// backward search.
pub proof fn lemma_backward_ext_is_search_step(s: Seq<u8>, iv: BiInterval, a: u8)
    requires
        iv.lower + iv.size <= s.len() < usize::MAX,
    ensures
        backward_ext_spec(s, iv, a).lower == search_step(s, (iv.lower as int, iv.lower + iv.size), a).0,
        backward_ext_spec(s, iv, a).lower + backward_ext_spec(s, iv, a).size == search_step(
            s,
            (iv.lower as int, iv.lower + iv.size),
            a,
        ).1,
        backward_ext_spec(s, iv, a).lower + backward_ext_spec(s, iv, a).size <= s.len(),
{
    lemma_count_bounds(s, iv.lower as int, iv.lower + iv.size, a);
    lemma_count_bounds(s, iv.lower + iv.size, s.len() as int, a);
    lemma_band_end(s, a);
}

/// Building the interval of a pattern by backward extension from its last symbol gives,
/// on the forward strand, exactly the interval that backward search finds.
pub proof fn lemma_backward_chain_is_search(s: Seq<u8>, p: Seq<u8>)
    requires
        p.len() >= 1,
        s.len() < usize::MAX,
    ensures
        backward_chain(s, p).lower == search_interval(s, p).0,
        backward_chain(s, p).lower + backward_chain(s, p).size == search_interval(s, p).1,
        backward_chain(s, p).lower + backward_chain(s, p).size <= s.len(),
    decreases p.len(),
{
    if p.len() <= 1 {
        assert(p.drop_first() =~= Seq::<u8>::empty());
        assert(search_interval(s, p.drop_first()) == (0int, s.len() as int));
        assert(count_upto(s, 0, p[0]) == 0);
        lemma_band_end(s, p[0]);
    } else {
        lemma_backward_chain_is_search(s, p.drop_first());
        lemma_backward_ext_is_search_step(s, backward_chain(s, p.drop_first()), p[0]);
    }
}

/// `iv` is the interval of `p[st..e]` reached from `p[i]`, with `st <= i < e <= len`,
/// within a suffix array of length `n`.
pub open spec fn reached(s: Seq<u8>, p: Seq<u8>, iv: BiInterval, st: int, i: int, e: int) -> bool {
    &&& 0 <= st <= i < e <= p.len()
    &&& iv == ext_from(s, p, st, i, e)
    &&& iv.within(s.len() as int)
    &&& iv.match_size == e - st
}

/// `iv` is the interval of some `p[st..e]` that covers position `i`, reached from `p[i]`
/// by extension, whose match cannot be extended backward by `p[st - 1]`.
pub open spec fn covering_match(s: Seq<u8>, p: Seq<u8>, i: int, iv: BiInterval) -> bool {
    exists|st: int, e: int|
        #![trigger ext_from(s, p, st, i, e)]
        0 <= st <= i < e <= p.len() && iv == ext_from(s, p, st, i, e) && iv.match_size == e - st
            && (st > 0 ==> backward_ext_spec(s, iv, p[st - 1]).size == 0)
}

/// The forward sweep of match enumeration, from position `e` with current interval
/// `iv`: each interval whose forward extension by `p[e]` loses occurrences is added to
/// `acc`, the sweep stops when the extension is empty, and the last interval reached
/// is added at the end.
pub open spec fn forward_sweep(
    s: Seq<u8>,
    p: Seq<u8>,
    e: int,
    iv: BiInterval,
    acc: Seq<BiInterval>,
) -> Seq<BiInterval>
    decreases p.len() - e,
{
    if e >= p.len() {
        acc.push(iv)
    } else {
        let ext = forward_ext_spec(s, iv, p[e]);
        let acc2 = if iv.size != ext.size { acc.push(iv) } else { acc };
        if ext.size == 0 {
            acc2.push(iv)
        } else {
            forward_sweep(s, p, e + 1, ext, acc2)
        }
    }
}

/// One position of the backward sweep: the candidates `prev[0..t]` are extended by `a`
/// from the last to the first. A candidate is recorded in `found` when its extension is
/// empty (or `last_step` holds), no extension has survived yet and none was recorded at
/// this position; surviving extensions go to `curr`, one for each run of equal sizes.
/// Returns the survivors and the recorded matches.
pub open spec fn backward_scan(
    s: Seq<u8>,
    prev: Seq<BiInterval>,
    t: int,
    a: u8,
    last_step: bool,
    curr: Seq<BiInterval>,
    last: usize,
    recorded: bool,
    found: Seq<BiInterval>,
) -> (Seq<BiInterval>, Seq<BiInterval>)
    decreases t,
{
    if t <= 0 {
        (curr, found)
    } else {
        let iv = prev[t - 1];
        let ext = backward_ext_spec(s, iv, a);
        let now = (ext.size == 0 || last_step) && curr.len() == 0 && !recorded;
        let found2 = if now { found.push(iv) } else { found };
        let keep = ext.size != 0 && (curr.len() == 0 || ext.size != last);
        let curr2 = if keep { curr.push(ext) } else { curr };
        let last2 = if keep { ext.size } else { last };
        backward_scan(s, prev, t - 1, a, last_step, curr2, last2, recorded || now, found2)
    }
}

/// The backward sweep from position `pos` (the candidates `prev` all start there): each
/// position extends them by `p[pos - 1]`, or by the sentinel before the pattern, until
/// none survives.
pub open spec fn backward_sweep(
    s: Seq<u8>,
    p: Seq<u8>,
    pos: int,
    prev: Seq<BiInterval>,
    found: Seq<BiInterval>,
) -> Seq<BiInterval>
    decreases pos,
{
    let a = if pos <= 0 { 36u8 } else { p[pos - 1] };
    let r = backward_scan(s, prev, prev.len() as int, a, pos <= 0, Seq::empty(), 0, false, found);
    if r.0.len() == 0 || pos <= 0 {
        r.1
    } else {
        backward_sweep(s, p, pos - 1, r.0, r.1)
    }
}

/// The supermaximal exact matches of `p` covering position `i`: the forward sweep from
/// the interval of `p[i]`, then the backward sweep over its candidates.
pub open spec fn smems_spec(s: Seq<u8>, p: Seq<u8>, i: int) -> Seq<BiInterval> {
    backward_sweep(
        s,
        p,
        i,
        forward_sweep(s, p, i + 1, init_spec(s, p[i]), Seq::empty()),
        Seq::empty(),
    )
}

/// Sum of the counts of the six symbols among the first `n` symbols of `s`.
pub open spec fn count6(s: Seq<u8>, n: int) -> int {
    (count_upto(s, n, 36) + count_upto(s, n, 65) + count_upto(s, n, 67) + count_upto(s, n, 71)
        + count_upto(s, n, 78) + count_upto(s, n, 84)) as int
}

proof fn lemma_count6(s: Seq<u8>, x: int, y: int)
    requires
        0 <= x <= y,
    ensures
        count6(s, y) - count6(s, x) <= y - x,
    decreases y,
{
    if x < y {
        lemma_count6(s, x, y - 1);
        assert(count_upto(s, y, 36) == count_upto(s, y - 1, 36) + if s[y - 1] == 36 { 1nat } else { 0nat });
        assert(count_upto(s, y, 65) == count_upto(s, y - 1, 65) + if s[y - 1] == 65 { 1nat } else { 0nat });
        assert(count_upto(s, y, 67) == count_upto(s, y - 1, 67) + if s[y - 1] == 67 { 1nat } else { 0nat });
        assert(count_upto(s, y, 71) == count_upto(s, y - 1, 71) + if s[y - 1] == 71 { 1nat } else { 0nat });
        assert(count_upto(s, y, 78) == count_upto(s, y - 1, 78) + if s[y - 1] == 78 { 1nat } else { 0nat });
        assert(count_upto(s, y, 84) == count_upto(s, y - 1, 84) + if s[y - 1] == 84 { 1nat } else { 0nat });
    }
}

proof fn lemma_rev_nonneg(s: Seq<u8>, iv: BiInterval, t: int, cb: u8)
    requires
        forall|b: u8| ext_size(s, iv, b) >= 0,
    ensures
        0 <= rev_before(s, iv, t, cb),
    decreases t,
{
    if t > 0 {
        lemma_rev_nonneg(s, iv, t - 1, cb);
        assert(ext_size(s, iv, comp_spec(dna_seq()[t - 1])) >= 0);
    }
}

proof fn lemma_rev_mono(s: Seq<u8>, iv: BiInterval, t: int, cb: u8)
    requires
        0 <= t <= 6,
        forall|b: u8| ext_size(s, iv, b) >= 0,
    ensures
        0 <= rev_before(s, iv, t, cb) <= rev_before(s, iv, 6, cb),
    decreases 6 - t,
{
    lemma_rev_nonneg(s, iv, t, cb);
    if t < 6 {
        lemma_rev_mono(s, iv, t + 1, cb);
        assert(ext_size(s, iv, comp_spec(dna_seq()[t])) >= 0);
    }
}

/// The sub-interval of `b` and the ones laid out before it on the reverse strand fit in
/// the interval being extended.
proof fn lemma_ext_fits(s: Seq<u8>, iv: BiInterval, b: u8)
    requires
        is_dna(b),
        iv.lower + iv.size <= s.len(),
    ensures
        forall|c: u8| ext_size(s, iv, c) >= 0,
        0 <= rev_before(s, iv, 6, comp_spec(b)),
        rev_before(s, iv, 6, comp_spec(b)) + ext_size(s, iv, b) <= iv.size,
{
    let l = iv.lower as int;
    let h = iv.lower + iv.size;
    assert forall|c: u8| ext_size(s, iv, c) >= 0 by {
        lemma_count_bounds(s, l, h, c);
    }
    lemma_count6(s, l, h);
    lemma_rev_mono(s, iv, 0, comp_spec(b));
    assert(dna_seq()[0] == 36 && dna_seq()[1] == 65 && dna_seq()[2] == 67 && dna_seq()[3] == 71
        && dna_seq()[4] == 78 && dna_seq()[5] == 84);
    let cb = comp_spec(b);
    assert(rev_before(s, iv, 1, cb) == if 36 < cb { ext_size(s, iv, 36) } else { 0 });
    assert(rev_before(s, iv, 2, cb) == rev_before(s, iv, 1, cb) + if 65 < cb { ext_size(s, iv, 84) } else { 0 });
    assert(rev_before(s, iv, 3, cb) == rev_before(s, iv, 2, cb) + if 67 < cb { ext_size(s, iv, 71) } else { 0 });
    assert(rev_before(s, iv, 4, cb) == rev_before(s, iv, 3, cb) + if 71 < cb { ext_size(s, iv, 67) } else { 0 });
    assert(rev_before(s, iv, 5, cb) == rev_before(s, iv, 4, cb) + if 78 < cb { ext_size(s, iv, 78) } else { 0 });
    assert(rev_before(s, iv, 6, cb) == rev_before(s, iv, 5, cb) + if 84 < cb { ext_size(s, iv, 65) } else { 0 });
    assert(count6(s, h) - count6(s, l) == ext_size(s, iv, 36) + ext_size(s, iv, 65) + ext_size(s, iv, 67)
        + ext_size(s, iv, 71) + ext_size(s, iv, 78) + ext_size(s, iv, 84));
}

/// A well-formed bidirectional index.
pub struct FMDIndex<'a> {
    fmindex: FMIndex<'a>,
}

/// The symbol of rank `t` in `$ A C G N T`.
fn dna_symbol(t: usize) -> (c: u8)
    requires
        t < 6,
    ensures
        c == dna_seq()[t as int],
{
    if t == 0 {
        36
    } else if t == 1 {
        65
    } else if t == 2 {
        67
    } else if t == 3 {
        71
    } else if t == 4 {
        78
    } else {
        84
    }
}

impl<'a> FMDIndex<'a> {
    /// The transformed text.
    pub closed spec fn text(&self) -> Seq<u8> {
        self.fmindex.text()
    }

    /// The inner index is well formed over a balanced text of `$ A C G N T`.
    pub closed spec fn wf(&self) -> bool {
        self.fmindex.wf() && balanced(self.fmindex.text()) && is_dna_word(self.fmindex.text())
    }

    /// A well-formed index is over a balanced text of `$ A C G N T`.
    pub proof fn lemma_wf_text(&self)
        requires
            self.wf(),
        ensures
            balanced(self.text()),
            is_dna_word(self.text()),
            1 <= self.text().len() < usize::MAX,
    {
        self.fmindex.lemma_text_len();
    }

    /// Builds the bidirectional index over the transform of `T1 $ R1 $ T2 $ R2 $ ...`,
    /// where each `Ri` is the reverse complement of `Ti`, keeping counts every `k`
    /// positions. Such a text holds as many `A` as `T` and as many `C` as `G`, and so
    /// does its transform. Fails when a symbol is not one of `$ A C G N T`.
    pub fn new(bwt: &'a [u8], k: usize) -> (r: Result<Self, BuildError>)
        requires
            1 <= bwt.len() < usize::MAX,
            k >= 1,
            balanced(bwt@),
        ensures
            r is Ok <==> is_dna_word(bwt@),
            r matches Ok(idx) ==> idx.wf() && idx.text() == bwt@,
            r is Err ==> r == Err::<Self, BuildError>(BuildError::InvalidSymbol),
    {
        if !is_dna_text(bwt) {
            return Err(BuildError::InvalidSymbol);
        }
        let fmindex = FMIndex::new(bwt, k);
        Ok(FMDIndex { fmindex })
    }

    /// The interval of the one-symbol pattern `pattern[i]`.
    pub fn init_interval(&self, pattern: &[u8], i: usize) -> (r: BiInterval)
        requires
            self.wf(),
            i < pattern.len(),
        ensures
            r == init_spec(self.text(), pattern@[i as int]),
            r.within(self.text().len() as int),
    {
        let a = pattern[i];
        let ca = comp(a);
        let lower = self.fmindex.boundary_of(a);
        let next = self.fmindex.boundary_at(a as usize + 1);
        proof {
            let s = self.text();
            self.fmindex.lemma_text_len();
            lemma_band_end(s, a);
            lemma_band_end(s, ca);
            assert(count_upto(s, s.len() as int, a) == count_upto(s, s.len() as int, ca));
        }
        BiInterval {
            lower: lower,
            lower_rev: self.fmindex.boundary_of(ca),
            size: next - lower,
            match_size: 1,
        }
    }

    /// Extends the match of `interval` at its front by the symbol `a`.
    pub fn backward_ext(&self, interval: &BiInterval, a: u8) -> (r: BiInterval)
        requires
            self.wf(),
            interval.within(self.text().len() as int),
            is_dna(a),
            interval.match_size < usize::MAX,
        ensures
            r == backward_ext_spec(self.text(), *interval, a),
            r.within(self.text().len() as int),
    {
        let ghost s = self.text();
        proof {
            self.fmindex.lemma_text_len();
        }
        let l = interval.lower;
        let h = interval.lower + interval.size;
        let ca = comp(a);
        proof {
            lemma_ext_fits(s, *interval, a);
            lemma_band_end(s, a);
            lemma_count_bounds(s, h as int, s.len() as int, a);
            lemma_count_bounds(s, l as int, h as int, a);
        }
        let mut off: usize = 0;
        let mut t: usize = 0;
        while t < 6
            invariant
                self.wf(),
                s == self.text(),
                h == interval.lower + interval.size,
                h <= s.len(),
                l == interval.lower,
                t <= 6,
                off == rev_before(s, *interval, t as int, ca),
                forall|c: u8| ext_size(s, *interval, c) >= 0,
                rev_before(s, *interval, 6, ca) <= interval.size,
            decreases 6 - t,
        {
            proof {
                lemma_rev_mono(s, *interval, t as int + 1, ca);
            }
            let c = dna_symbol(t);
            if c < ca {
                let b = comp(c);
                off = off + (self.fmindex.rank_before(h, b) - self.fmindex.rank_before(l, b));
            }
            t = t + 1;
        }
        let o = self.fmindex.rank_before(l, a);
        BiInterval {
            lower: self.fmindex.boundary_of(a) + o,
            lower_rev: interval.lower_rev + off,
            size: self.fmindex.rank_before(h, a) - o,
            match_size: interval.match_size + 1,
        }
    }

    /// Extends the match of `interval` at its end by the symbol `a`.
    pub fn forward_ext(&self, interval: &BiInterval, a: u8) -> (r: BiInterval)
        requires
            self.wf(),
            interval.within(self.text().len() as int),
            is_dna(a),
            interval.match_size < usize::MAX,
        ensures
            r == forward_ext_spec(self.text(), *interval, a),
            r.within(self.text().len() as int),
    {
        let ca = comp(a);
        proof {
            crate::alphabet::lemma_comp_involution(a);
        }
        self.backward_ext(&interval.swapped(), ca).swapped()
    }

    /// The supermaximal exact matches of `pattern` that cover position `i`, longest
    /// first among those that end together.
    ///
    /// The match of `pattern[i]` is first extended forward, keeping each interval whose
    /// extension loses occurrences, and the last one reached. These candidates are then
    /// extended backward one position at a time, smallest first; at each position the
    /// first candidate that can go no further, while no other candidate has gone on, is
    /// a match. Each result is the interval of some `pattern[st..e]` with
    /// `st <= i < e`, reached by extension from `pattern[i]`, and cannot be extended
    /// backward by `pattern[st - 1]`.
    pub fn smems(&self, pattern: &[u8], i: usize) -> (found: Vec<BiInterval>)
        requires
            self.wf(),
            i < pattern.len() < usize::MAX,
            is_dna_word(pattern@),
        ensures
            found@ == smems_spec(self.text(), pattern@, i as int),
            1 <= found.len() <= i + 1,
            forall|r: int|
                0 <= r < found.len() ==> covering_match(self.text(), pattern@, i as int, #[trigger] found@[r]),
            init_spec(self.text(), pattern@[i as int]).size > 0 ==> forall|r: int|
                0 <= r < found.len() ==> (#[trigger] found@[r]).size > 0,
    {
        let ghost s = self.text();
        let ghost p = pattern@;
        let ghost n = s.len() as int;
        let np = pattern.len();
        let ghost occurs = init_spec(s, p[i as int]).size > 0;
        let mut interval = self.init_interval(pattern, i);
        let mut cands: Vec<BiInterval> = Vec::new();
        let ghost mut cand_e: Seq<int> = Seq::empty();
        let mut e: usize = i + 1;
        let mut done = false;
        let ghost total = forward_sweep(s, p, i + 1, init_spec(s, p[i as int]), Seq::empty());
        while e < np && !done
            invariant
                total == forward_sweep(s, p, i + 1, init_spec(s, p[i as int]), Seq::empty()),
                (if done { cands@.push(interval) } else { forward_sweep(s, p, e as int, interval, cands@) }) == total,
                self.wf(),
                s == self.text(),
                n == s.len(),
                p == pattern@,
                np == pattern.len(),
                i < np < usize::MAX,
                is_dna_word(p),
                i + 1 <= e <= np,
                interval == fwd_spec(s, p, i as int, e as int),
                interval.within(n),
                interval.match_size == e - i,
                occurs == (init_spec(s, p[i as int]).size > 0),
                occurs ==> interval.size > 0,
                occurs ==> forall|t: int| 0 <= t < cands.len() ==> (#[trigger] cands@[t]).size > 0,
                cands.len() == cand_e.len(),
                forall|t: int|
                    0 <= t < cands.len() ==> reached(s, p, #[trigger] cands@[t], i as int, i as int, cand_e[t]),
            decreases np - e + if done { 0int } else { 1int },
        {
            let ext = self.forward_ext(&interval, pattern[e]);
            if interval.size != ext.size {
                cands.push(interval);
                proof {
                    cand_e = cand_e.push(e as int);
                }
            }
            if ext.size == 0 {
                done = true;
            } else {
                interval = ext;
                e = e + 1;
            }
        }
        cands.push(interval);
        proof {
            cand_e = cand_e.push(e as int);
            assert forall|t: int| 0 <= t < cands.len() implies #[trigger] ext_from(s, p, i as int, i as int, cand_e[t])
                == fwd_spec(s, p, i as int, cand_e[t]) by {}
        }
        let mut prev = cands;
        let ghost mut prev_e = cand_e;
        let mut found: Vec<BiInterval> = Vec::new();
        let ghost mut ms: Seq<int> = Seq::empty();
        let ghost mut me: Seq<int> = Seq::empty();
        let mut pos: usize = i;
        let mut stop = false;
        let ghost result = backward_sweep(s, p, i as int, total, Seq::empty());
        assert(prev@ == total);
        while !stop
            invariant
                result == backward_sweep(s, p, i as int, total, Seq::empty()),
                (if stop { found@ } else { backward_sweep(s, p, pos as int, prev@, found@) }) == result,
                self.wf(),
                s == self.text(),
                n == s.len(),
                p == pattern@,
                np == pattern.len(),
                i < np < usize::MAX,
                is_dna_word(p),
                pos <= i,
                !stop ==> prev.len() > 0,
                prev.len() == prev_e.len(),
                forall|t: int|
                    0 <= t < prev.len() ==> reached(s, p, #[trigger] prev@[t], pos as int, i as int, prev_e[t]),
                found.len() == ms.len(),
                found.len() == me.len(),
                forall|r: int|
                    0 <= r < found.len() ==> reached(s, p, #[trigger] found@[r], ms[r], i as int, me[r])
                        && (ms[r] > 0 ==> backward_ext_spec(s, found@[r], p[ms[r] - 1]).size == 0),
                stop ==> found.len() > 0,
                found.len() + pos <= i + if stop { 1int } else { 0int },
                occurs == (init_spec(s, p[i as int]).size > 0),
                occurs ==> forall|t: int| 0 <= t < prev.len() ==> (#[trigger] prev@[t]).size > 0,
                occurs ==> forall|r: int| 0 <= r < found.len() ==> (#[trigger] found@[r]).size > 0,
            decreases pos + if stop { 0int } else { 1int },
        {
            let a = if pos == 0 {
                SENTINEL
            } else {
                pattern[pos - 1]
            };
            let mut curr: Vec<BiInterval> = Vec::new();
            let ghost mut curr_e: Seq<int> = Seq::empty();
            let mut recorded = false;
            let mut last: usize = 0;
            let ghost found_before = found@;
            let mut t: usize = prev.len();
            let ghost scan = backward_scan(s, prev@, prev.len() as int, a, pos == 0, Seq::empty(), 0, false, found@);
            assert(a == if pos <= 0 { 36u8 } else { p[pos - 1] });
            while t > 0
                invariant
                    scan == backward_scan(s, prev@, prev.len() as int, a, pos == 0, Seq::empty(), 0, false, found_before),
                    backward_scan(s, prev@, t as int, a, pos == 0, curr@, last, recorded, found@) == scan,
                    self.wf(),
                    s == self.text(),
                    n == s.len(),
                    p == pattern@,
                    np == pattern.len(),
                    i < np < usize::MAX,
                    is_dna(a),
                    pos == 0 || a == p[pos - 1],
                    pos <= i,
                    prev.len() > 0,
                    t <= prev.len(),
                    prev.len() == prev_e.len(),
                    forall|u: int|
                        0 <= u < prev.len() ==> reached(s, p, #[trigger] prev@[u], pos as int, i as int, prev_e[u]),
                    curr.len() == curr_e.len(),
                    forall|u: int|
                        0 <= u < curr.len() ==> pos > 0 ==> reached(s, p, #[trigger] curr@[u], pos - 1, i as int, curr_e[u]),
                    found.len() == ms.len(),
                    found.len() == me.len(),
                    forall|r: int|
                        0 <= r < found.len() ==> reached(s, p, #[trigger] found@[r], ms[r], i as int, me[r])
                            && (ms[r] > 0 ==> backward_ext_spec(s, found@[r], p[ms[r] - 1]).size == 0),
                    t < prev.len() ==> recorded || curr.len() > 0,
                    pos == 0 && t < prev.len() ==> recorded,
                    t == prev.len() ==> curr.len() == 0 && !recorded,
                    recorded ==> found.len() > 0,
                    found.len() + pos <= i + if recorded { 1int } else { 0int },
                    occurs == (init_spec(s, p[i as int]).size > 0),
                    occurs ==> forall|u: int| 0 <= u < prev.len() ==> (#[trigger] prev@[u]).size > 0,
                    occurs ==> forall|r: int| 0 <= r < found.len() ==> (#[trigger] found@[r]).size > 0,
                    forall|u: int| 0 <= u < curr.len() ==> (#[trigger] curr@[u]).size > 0,
                decreases t,
            {
                t = t - 1;
                let iv = prev[t];
                let ext = self.backward_ext(&iv, a);
                if (ext.size == 0 || pos == 0) && curr.len() == 0 && !recorded {
                    recorded = true;
                    found.push(iv);
                    proof {
                        ms = ms.push(pos as int);
                        me = me.push(prev_e[t as int]);
                    }
                }
                if ext.size != 0 && (curr.len() == 0 || ext.size != last) {
                    last = ext.size;
                    curr.push(ext);
                    proof {
                        curr_e = curr_e.push(prev_e[t as int]);
                    }
                }
            }
            if curr.len() == 0 || pos == 0 {
                stop = true;
            } else {
                prev = curr;
                proof {
                    prev_e = curr_e;
                }
                pos = pos - 1;
            }
        }
        proof {
            assert forall|r: int| 0 <= r < found.len() implies covering_match(
                s,
                p,
                i as int,
                #[trigger] found@[r],
            ) by {
                assert(reached(s, p, found@[r], ms[r], i as int, me[r]));
            }
        }
        found
    }
}

} // verus!
