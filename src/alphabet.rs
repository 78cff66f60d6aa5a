//! The DNA alphabet with sentinel and wildcard, and the complement of its symbols.

use vstd::prelude::*;

verus! {

/// The sentinel that terminates each sequence of an indexed text.
pub const SENTINEL: u8 = 36;

/// The symbols `$ A C G N T` as a sequence, ascending.
pub open spec fn dna_seq() -> Seq<u8> {
    seq![36u8, 65u8, 67u8, 71u8, 78u8, 84u8]
}

/// Whether `a` is one of `$ A C G N T`.
pub open spec fn is_dna(a: u8) -> bool {
    a == 36 || a == 65 || a == 67 || a == 71 || a == 78 || a == 84
}

/// Whether every symbol of `s` is one of `$ A C G N T`.
pub open spec fn is_dna_word(s: Seq<u8>) -> bool {
    forall|t: int| 0 <= t < s.len() ==> is_dna(#[trigger] s[t])
}

/// The complement of a symbol: `A` and `T`, `C` and `G` are exchanged; every
/// other symbol, the sentinel and the wildcard `N` among them, is its own complement.
pub open spec fn comp_spec(a: u8) -> u8 {
    if a == 65 {
        84
    } else if a == 84 {
        65
    } else if a == 67 {
        71
    } else if a == 71 {
        67
    } else {
        a
    }
}

/// The reverse complement of a text.
pub open spec fn revcomp_spec(s: Seq<u8>) -> Seq<u8> {
    Seq::new(s.len(), |t: int| comp_spec(s[s.len() - 1 - t]))
}

/// Complementing twice gives the symbol back.
pub proof fn lemma_comp_involution(a: u8)
    ensures
        comp_spec(comp_spec(a)) == a,
        is_dna(a) ==> is_dna(comp_spec(a)),
{
}

/// Whether `a` is one of `$ A C G N T`.
pub fn is_dna_symbol(a: u8) -> (r: bool)
    ensures
        r == is_dna(a),
{
    a == 36 || a == 65 || a == 67 || a == 71 || a == 78 || a == 84
}

/// Whether every symbol of `text` is one of `$ A C G N T`.
pub fn is_dna_text(text: &[u8]) -> (r: bool)
    ensures
        r == is_dna_word(text@),
{
    let mut t: usize = 0;
    while t < text.len()
        invariant
            t <= text.len(),
            forall|u: int| 0 <= u < t ==> is_dna(#[trigger] text@[u]),
        decreases text.len() - t,
    {
        if !is_dna_symbol(text[t]) {
            return false;
        }
        t = t + 1;
    }
    true
}

/// The complement of a symbol.
pub fn comp(a: u8) -> (r: u8)
    ensures
        r == comp_spec(a),
{
    if a == 65 {
        84
    } else if a == 84 {
        65
    } else if a == 67 {
        71
    } else if a == 71 {
        67
    } else {
        a
    }
}

/// The reverse complement of a text: read backwards, each symbol complemented.
pub fn revcomp(text: &[u8]) -> (r: Vec<u8>)
    ensures
        r@ == revcomp_spec(text@),
{
    let n = text.len();
    let mut r: Vec<u8> = Vec::new();
    let mut t: usize = 0;
    while t < n
        invariant
            n == text.len(),
            t <= n,
            r@.len() == t,
            forall|u: int| 0 <= u < t ==> #[trigger] r@[u] == comp_spec(text@[n - 1 - u]),
        decreases n - t,
    {
        r.push(comp(text[n - 1 - t]));
        t = t + 1;
    }
    assert(r@ =~= revcomp_spec(text@));
    r
}

} // verus!
