use hemoglobin::{find_kmers, Base, Sequence};

const ALL: [Base; 4] = [Base::A, Base::C, Base::G, Base::T];

#[test]
fn complement_twice_is_identity() {
    for b in ALL {
        assert_eq!(b.complement().complement(), b);
    }
}

#[test]
fn numeric_codes_round_trip() {
    for b in ALL {
        assert_eq!(Base::from_u64(b.to_u64()), Some(b));
    }
    assert_eq!(Base::A.to_u64(), 0);
    assert_eq!(Base::T.to_u64(), 3);
    assert_eq!(Base::from_u64(u64::MAX), None);
    assert_eq!(Base::from_u64(17), None);
}

#[test]
fn new_reads_bases_in_order() {
    let s = Sequence::new("ATCG");
    assert_eq!(s.0, vec![Base::A, Base::T, Base::C, Base::G]);
    assert_eq!(s.to_string(), "ATCG");
}

#[test]
fn new_skips_other_symbols() {
    let noisy = Sequence::new("a1A\nT-c C x\tG g.T\r\n");
    assert_eq!(noisy, Sequence::new("ATCGT"));
    assert_eq!(Sequence::new("acgt 0123\n").0.len(), 0);
    assert_eq!(Sequence::new("").0.len(), 0);
}

#[test]
fn base_symbols() {
    assert_eq!(Base::A.to_str(), "A");
    assert_eq!(Base::C.to_str(), "C");
    assert_eq!(Base::G.to_str(), "G");
    assert_eq!(Base::T.to_str(), "T");
    assert_eq!(Sequence::new("").to_string(), "");
}

#[test]
fn pack_round_trip() {
    let texts = ["", "G", "TACGATCTAGT", "GTGGCCTGCCAAAAAAAAAAAAAAAAAAAAAT", "TTTTTTTTTTTTTTTTTTTTTTTTTTTTTTTT"];
    for t in texts {
        let s = Sequence::new(t);
        let n = s.0.len();
        let word = s.subsequence_as_u64(0, n).unwrap();
        assert_eq!(Sequence::from_u64(word, n as u8), s);
    }
}

#[test]
fn pack_exact_values() {
    let s = Sequence::new("TTTTTTTTTTTTTTTTTTTTTTTTTTTTTTTTT");
    assert_eq!(s.subsequence_as_u64(0, 32), Some(u64::MAX));
    assert_eq!(s.subsequence_as_u64(1, 32), Some(u64::MAX));
    assert_eq!(s.subsequence_as_u64(0, 1), Some(0xC000000000000000));
    assert_eq!(Sequence::new("ACGT").subsequence_as_u64(0, 4), Some(0x1B00000000000000));
    assert_eq!(Sequence::new("CA").subsequence_as_u64(0, 2), Some(0x4000000000000000));
}

#[test]
fn pack_range_violations() {
    let s = Sequence::new("TACGATCTAGT");
    assert_eq!(s.subsequence_as_u64(0, 33), None);
    assert_eq!(s.subsequence_as_u64(11, 1), None);
    assert_eq!(s.subsequence_as_u64(12, 0), None);
    assert_eq!(s.subsequence_as_u64(11, 0), Some(0));
    assert_eq!(s.subsequence_as_u64(usize::MAX, 2), None);
    assert_eq!(s.subsequence_as_u64(0, usize::MAX), None);
    let long = Sequence::new("AAAAAAAAAAAAAAAAAAAAAAAAAAAAAAAAAAAAAAAAA");
    assert_eq!(long.subsequence_as_u64(0, 33), None);
}

#[test]
fn unpack_clamps_length() {
    assert_eq!(Sequence::from_u64(u64::MAX, 0).0.len(), 0);
    assert_eq!(Sequence::from_u64(u64::MAX, 32).0.len(), 32);
    assert_eq!(Sequence::from_u64(u64::MAX, 255).0.len(), 32);
    assert_eq!(Sequence::from_u64(0x1B00000000000000, 4), Sequence::new("ACGT"));
}

#[test]
fn reverse_complement_twice_is_identity() {
    for t in ["", "A", "TACGATCTAGTCTAGGATC", "GGGCCCAT"] {
        let s = Sequence::new(t);
        assert_eq!(s.reverse_complement().reverse_complement(), s);
    }
    assert_eq!(Sequence::new("AACG").reverse_complement(), Sequence::new("CGTT"));
    assert_eq!(Sequence::new("").reverse_complement(), Sequence::new(""));
}

#[test]
fn composition_sums_to_length() {
    for t in ["", "A", "TACGATCTAGTCTAGGATC", "GGGCCCATTTT"] {
        let s = Sequence::new(t);
        let c = s.count_bases();
        assert_eq!(c.A + c.C + c.G + c.T, s.0.len() as u64);
    }
    let c = Sequence::new("GGGCCCATTTT").count_bases();
    assert_eq!((c.A, c.C, c.G, c.T), (1, 3, 3, 4));
}

#[test]
fn sequence_equality() {
    assert_eq!(Sequence::new("ACGT"), Sequence::new("ACGT"));
    assert_ne!(Sequence::new("ACGT"), Sequence::new("ACGA"));
    assert_ne!(Sequence::new("ACG"), Sequence::new("ACGT"));
}

#[test]
fn kmers_longer_than_sequence() {
    let s = Sequence::new("ACG");
    let k = Sequence::new("ACGTA");
    assert_eq!(find_kmers(&s, &k, false), Vec::<u64>::new());
    assert_eq!(find_kmers(&s, &k, true), Vec::<u64>::new());
    // A circular strand may match a pattern longer than itself.
    assert_eq!(find_kmers(&Sequence::new("AC"), &Sequence::new("ACA"), true), vec![0]);
}

#[test]
fn kmers_empty_pattern_matches_everywhere() {
    let s = Sequence::new("ACGT");
    let e = Sequence::new("");
    assert_eq!(find_kmers(&s, &e, false), vec![0, 1, 2, 3, 4]);
    assert_eq!(find_kmers(&s, &e, true), vec![0, 1, 2, 3]);
    assert_eq!(find_kmers(&e, &e, false), vec![0]);
    assert_eq!(find_kmers(&e, &e, true), Vec::<u64>::new());
    assert_eq!(find_kmers(&e, &Sequence::new("A"), true), Vec::<u64>::new());
}

#[test]
fn kmers_overlapping_and_wrapping() {
    let s = Sequence::new("AAAA");
    let k = Sequence::new("AA");
    assert_eq!(find_kmers(&s, &k, false), vec![0, 1, 2]);
    assert_eq!(find_kmers(&s, &k, true), vec![0, 1, 2, 3]);
    let g = Sequence::new("GATTACA");
    assert_eq!(find_kmers(&g, &Sequence::new("AG"), false), Vec::<u64>::new());
    assert_eq!(find_kmers(&g, &Sequence::new("AG"), true), vec![6]);
    assert_eq!(find_kmers(&g, &Sequence::new("CAGA"), true), vec![5]);
}
