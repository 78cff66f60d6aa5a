use fmindex::alphabet::{comp, is_dna_text, revcomp};
use fmindex::FMIndex;

fn suffix_array(text: &[u8]) -> Vec<usize> {
    let mut pos: Vec<usize> = (0..text.len()).collect();
    pos.sort_by(|&a, &b| text[a..].cmp(&text[b..]));
    pos
}

fn bwt(text: &[u8], pos: &[usize]) -> Vec<u8> {
    let n = text.len();
    pos.iter().map(|&p| text[(p + n - 1) % n]).collect()
}

#[test]
fn backward_search_finds_tta() {
    let text = b"GCCTTAACATTATTACGCCTA$";
    let pos = suffix_array(text);
    let bwt = bwt(text, &pos);
    let fm = FMIndex::new(&bwt, 3);
    let sai = fm.backward_search(b"TTA");
    assert_eq!(sai, (19, 21));
    let mut occ: Vec<usize> = pos[sai.0..=sai.1].to_vec();
    occ.sort();
    assert_eq!(occ, [3, 9, 12]);
}

#[test]
fn backward_search_of_absent_symbol_is_empty() {
    let text = b"GCCTTAACATTATTACGCCTA$";
    let pos = suffix_array(text);
    let bwt = bwt(text, &pos);
    let fm = FMIndex::new(&bwt, 3);
    let (l, r) = fm.backward_search(b"TNA");
    assert!(l > r);
    assert_eq!((l, r), (1, 0));
    let (l, r) = fm.backward_search(b"\x00");
    assert!(l > r);
    let (l, r) = fm.backward_search(b"AAAA");
    assert!(l > r);
}

#[test]
fn backward_search_of_empty_pattern_is_everything() {
    let text = b"ACGT$";
    let pos = suffix_array(text);
    let bwt = bwt(text, &pos);
    let fm = FMIndex::new(&bwt, 1);
    assert_eq!(fm.backward_search(b""), (0, 4));
}

#[test]
fn rank_and_boundary() {
    let bwt = b"ACCA$GA".to_vec();
    let fm = FMIndex::new(&bwt, 2);
    assert_eq!(fm.rank_before(0, b'A'), 0);
    assert_eq!(fm.rank_before(4, b'A'), 2);
    assert_eq!(fm.rank_before(7, b'A'), 3);
    assert_eq!(fm.rank_before(3, b'C'), 2);
    assert_eq!(fm.boundary_of(b'$'), 0);
    assert_eq!(fm.boundary_of(b'A'), 1);
    assert_eq!(fm.boundary_of(b'C'), 4);
    assert_eq!(fm.boundary_of(b'G'), 6);
    assert_eq!(fm.boundary_of(b'T'), 7);
}

#[test]
fn complement_and_reverse_complement() {
    assert_eq!(comp(b'A'), b'T');
    assert_eq!(comp(b'G'), b'C');
    assert_eq!(comp(b'N'), b'N');
    assert_eq!(comp(b'$'), b'$');
    assert_eq!(revcomp(b"GCCTTAACAT"), b"ATGTTAAGGC".to_vec());
    assert!(is_dna_text(b"ACGTN$"));
    assert!(!is_dna_text(b"ACGU"));
}

#[test]
fn sampling_rate_does_not_change_answers() {
    let text = b"GCCTTAACATTATTACGCCTA$";
    let pos = suffix_array(text);
    let bwt = bwt(text, &pos);
    let fm1 = FMIndex::new(&bwt, 1);
    let fm5 = FMIndex::new(&bwt, 5);
    let fm64 = FMIndex::new(&bwt, 64);
    for p in [&b"TTA"[..], b"A", b"CGCC", b"GG", b"TAX", b""] {
        let r = fm1.backward_search(p);
        assert_eq!(fm5.backward_search(p), r);
        assert_eq!(fm64.backward_search(p), r);
    }
    assert_eq!(fm1.backward_search(b"GG"), (1, 0));
    assert_eq!(fm5.rank_before(22, b'X'), 0);
}
