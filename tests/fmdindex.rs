use fmindex::alphabet::revcomp;
use fmindex::{BiInterval, FMDIndex};

fn suffix_array(text: &[u8]) -> Vec<usize> {
    let mut pos: Vec<usize> = (0..text.len()).collect();
    pos.sort_by(|&a, &b| text[a..].cmp(&text[b..]));
    pos
}

fn bwt(text: &[u8], pos: &[usize]) -> Vec<u8> {
    let n = text.len();
    pos.iter().map(|&p| text[(p + n - 1) % n]).collect()
}

fn bidirectional_text(orig: &[u8]) -> Vec<u8> {
    [orig, b"$", revcomp(orig).as_slice(), b"$"].concat()
}

#[test]
fn test_smems() {
    let orig_text = b"GCCTTAACAT";
    let text = bidirectional_text(orig_text);
    let pos = suffix_array(text.as_slice());
    let bwt = bwt(text.as_slice(), &pos);
    let fmdindex = FMDIndex::new(&bwt, 3).unwrap();
    {
        let pattern = b"AA";
        let intervals = fmdindex.smems(pattern, 0);
        assert_eq!(intervals[0].occ(&pos), [5, 16]);
        assert_eq!(intervals[0].occ_revcomp(&pos), [3, 14]);
    }
    {
        let pattern = b"CTTAA";
        let intervals = fmdindex.smems(pattern, 1);
        assert_eq!(intervals[0].occ(&pos), [2]);
        assert_eq!(intervals[0].occ_revcomp(&pos), [14]);
        assert_eq!(intervals[0].match_size, 5)
    }
}

#[test]
fn test_init_interval() {
    let text = b"ACGT$TGCA$";
    let pos = suffix_array(text);
    let bwt = bwt(text, &pos);
    let fmdindex = FMDIndex::new(&bwt, 3).unwrap();
    let pattern = b"T";
    let interval = fmdindex.init_interval(pattern, 0);
    assert_eq!(interval.occ(&pos), [3, 5]);
    assert_eq!(interval.occ_revcomp(&pos), [8, 0]);
}

#[test]
fn single_smem_for_whole_pattern() {
    let text = bidirectional_text(b"GCCTTAACAT");
    let pos = suffix_array(&text);
    let bwt = bwt(&text, &pos);
    let fmdindex = FMDIndex::new(&bwt, 3).unwrap();
    let intervals = fmdindex.smems(b"CTTAA", 1);
    assert_eq!(intervals.len(), 1);
    assert_eq!(intervals[0].size, 1);
}

#[test]
fn smems_with_pivot_at_last_position() {
    let text = bidirectional_text(b"GCCTTAACAT");
    let pos = suffix_array(&text);
    let bwt = bwt(&text, &pos);
    let fmdindex = FMDIndex::new(&bwt, 3).unwrap();
    let intervals = fmdindex.smems(b"AA", 1);
    assert_eq!(intervals[0].occ(&pos), [5, 16]);
    assert_eq!(intervals[0].match_size, 2);
}

#[test]
fn smems_are_maximal_and_cover_pivot() {
    // "GTTA" occurs once, at 13, and "GTTAC" nowhere: the longest match of "GTTAC"
    // covering position 2 is "GTTA".
    let text = bidirectional_text(b"GCCTTAACAT");
    let pos = suffix_array(&text);
    let bwt = bwt(&text, &pos);
    let fmdindex = FMDIndex::new(&bwt, 3).unwrap();
    let intervals = fmdindex.smems(b"GTTAC", 2);
    assert_eq!(intervals[0].match_size, 4);
    assert_eq!(intervals[0].occ(&pos), [13]);
}

#[test]
fn smems_of_absent_symbol_is_empty() {
    let text = bidirectional_text(b"GCCTTAACAT");
    let pos = suffix_array(&text);
    let bwt = bwt(&text, &pos);
    let fmdindex = FMDIndex::new(&bwt, 3).unwrap();
    let intervals = fmdindex.smems(b"ANA", 1);
    assert_eq!(intervals.len(), 1);
    assert_eq!(intervals[0].size, 0);
}

#[test]
fn revcomp_strand_matches_forward_of_revcomp() {
    let text = bidirectional_text(b"GCCTTAACAT");
    let pos = suffix_array(&text);
    let bwt = bwt(&text, &pos);
    let fmdindex = FMDIndex::new(&bwt, 3).unwrap();
    let p = b"CTT";
    let mut iv = fmdindex.init_interval(p, 0);
    iv = fmdindex.forward_ext(&iv, p[1]);
    iv = fmdindex.forward_ext(&iv, p[2]);
    let rc = revcomp(p);
    assert_eq!(rc, b"AAG".to_vec());
    let mut rv = fmdindex.init_interval(&rc, 0);
    rv = fmdindex.forward_ext(&rv, rc[1]);
    rv = fmdindex.forward_ext(&rv, rc[2]);
    let mut a = iv.occ_revcomp(&pos);
    let mut b = rv.occ(&pos);
    a.sort();
    b.sort();
    assert_eq!(a, b);
    assert_eq!(a, [16]);
}

#[test]
fn mirror_twice_is_identity() {
    let iv = BiInterval { lower: 3, lower_rev: 8, size: 2, match_size: 4 };
    let m = iv.swapped();
    assert_eq!(m, BiInterval { lower: 8, lower_rev: 3, size: 2, match_size: 4 });
    assert_eq!(m.swapped(), iv);
}

#[test]
fn forward_then_backward_matches_backward_search() {
    let text = bidirectional_text(b"GCCTTAACAT");
    let pos = suffix_array(&text);
    let bwt = bwt(&text, &pos);
    let fm = fmindex::FMIndex::new(&bwt, 3);
    let fmdindex = FMDIndex::new(&bwt, 3).unwrap();
    let p = b"TTA";
    let mut iv = fmdindex.init_interval(p, 1);
    iv = fmdindex.forward_ext(&iv, b'A');
    iv = fmdindex.backward_ext(&iv, b'T');
    assert_eq!(iv.match_size, 3);
    let (l, r) = fm.backward_search(p);
    assert_eq!((iv.lower, iv.lower + iv.size - 1), (l, r));
}

#[test]
fn extension_by_absent_symbol_is_empty() {
    let text = bidirectional_text(b"GCCTTAACAT");
    let pos = suffix_array(&text);
    let bwt = bwt(&text, &pos);
    let fmdindex = FMDIndex::new(&bwt, 3).unwrap();
    let iv = fmdindex.init_interval(b"A", 0);
    assert_eq!(iv.size, 6);
    let ext = fmdindex.backward_ext(&iv, b'N');
    assert_eq!(ext.size, 0);
    assert_eq!(ext.match_size, 2);
}

#[test]
fn rejects_invalid_symbol() {
    let bwt = b"AXT$".to_vec();
    assert_eq!(FMDIndex::new(&bwt, 2).err(), Some(fmindex::BuildError::InvalidSymbol));
}

#[test]
fn smems_is_repeatable() {
    let text = bidirectional_text(b"GCCTTAACAT");
    let pos = suffix_array(&text);
    let bwt = bwt(&text, &pos);
    let fmdindex = FMDIndex::new(&bwt, 3).unwrap();
    let first = fmdindex.smems(b"GTTAC", 2);
    let second = fmdindex.smems(b"GTTAC", 2);
    assert_eq!(first, second);
    let whole = fmdindex.smems(b"CTTAA", 1);
    assert_eq!(whole.len(), 1);
    assert_eq!(whole[0].occ_revcomp(&pos), [14]);
}
