use bio::data_structures::fmindex::FMIndexable;
use seq_index::alphabet::Alphabet;
use seq_index::bwt::bwt;
use seq_index::error::IndexError;
use seq_index::fmindex::{build_index, FMIndex};
use seq_index::interval::{materialize_positions, BackwardSearchResult, Interval};
use seq_index::less::Less;
use seq_index::occ::Occ;
use seq_index::text::{is_valid_text, suffix_array};

fn dna() -> Alphabet {
    Alphabet::dna()
}

fn shared<T: Send + Sync>(_: &T) {}

fn build_fm_index(text: &[u8], alphabet: &Alphabet) -> (FMIndex, Vec<usize>) {
    build_index(text, alphabet, 3).unwrap()
}

fn naive_rank(s: &[u8], c: u8, pos: usize) -> usize {
    s.iter().take(pos).filter(|&&x| x == c).count()
}

fn naive_suffix_array(text: &[u8]) -> Vec<usize> {
    let mut sa: Vec<usize> = (0..text.len()).collect();
    sa.sort_by(|&i, &j| text[i..].cmp(&text[j..]));
    sa
}

#[test]
fn test_fm_index_search() {
    let text = b"ACAGCTCGATCGGTA$";
    let pattern = b"ATCG";

    let alphabet = dna();

    let (fmindex, sa) = build_fm_index(text, &alphabet);
    let interval = fmindex.backward_search(pattern);
    let mut partial_match_len = 0;

    let positions = match interval {
        BackwardSearchResult::Complete(saint) => saint.occ(&sa).unwrap(),
        BackwardSearchResult::Partial(saint, l) => {
            partial_match_len = l;
            saint.occ(&sa).unwrap()
        }
        BackwardSearchResult::Absent => Vec::new(),
    };

    println!("{:?}", positions);
    println!("{}", partial_match_len);
    assert!(matches!(interval, BackwardSearchResult::Complete(_)));
    assert_eq!(positions, vec![8]);
    assert_eq!(partial_match_len, 0);
}

#[test]
fn test_fm_index_search_partial() {
    let text = b"ACAGCTCGTCGGTA$";
    let pattern = b"ATCG";

    let alphabet = dna();

    let (fmindex, sa) = build_fm_index(text, &alphabet);
    let interval = fmindex.backward_search(pattern);
    let mut partial_match_len = 0;

    let positions = match interval {
        BackwardSearchResult::Complete(saint) => saint.occ(&sa).unwrap(),
        BackwardSearchResult::Partial(saint, l) => {
            partial_match_len = l;
            saint.occ(&sa).unwrap()
        }
        BackwardSearchResult::Absent => Vec::new(),
    };

    println!("{:?}", positions);
    println!("{}", partial_match_len);
    assert!(matches!(interval, BackwardSearchResult::Partial(_, 3)));
    assert_eq!(positions, vec![8, 5]);
    assert_eq!(partial_match_len, 3);
}

#[test]
fn suffix_array_of_documented_text() {
    let sa = suffix_array(b"GCCTTAACATTATTACGCCTA$").unwrap();
    assert_eq!(
        sa,
        vec![21, 20, 5, 6, 14, 11, 8, 7, 17, 1, 15, 18, 2, 16, 0, 19, 4, 13, 10, 3, 12, 9]
    );
}

#[test]
fn suffix_array_is_sorted_permutation() {
    let texts: [&[u8]; 6] = [
        b"$",
        b"A$",
        b"AAAA$",
        b"ACAGCTCGATCGGTA$",
        b"mississippi!",
        b"abracadabra abracadabra\x00",
    ];
    for text in texts.iter() {
        let sa = suffix_array(text).unwrap();
        assert_eq!(sa, naive_suffix_array(text));
        let mut seen = vec![false; text.len()];
        for &p in sa.iter() {
            assert!(!seen[p]);
            seen[p] = true;
        }
        for w in sa.windows(2) {
            assert!(text[w[0]..] < text[w[1]..]);
        }
    }
}

#[test]
fn suffix_array_over_every_byte_value() {
    let mut text: Vec<u8> = Vec::new();
    for round in 0..3u32 {
        for c in (1..=255u8).rev() {
            if (c as u32 + round) % 3 != 0 {
                text.push(c);
            }
        }
    }
    text.extend((1..=255u8).rev());
    text.push(0);
    let sa = suffix_array(&text).unwrap();
    assert_eq!(sa, naive_suffix_array(&text));
    let (index, sa2) = build_index(&text, &Alphabet::new(&text[..text.len() - 1]), 7).unwrap();
    assert_eq!(sa2, sa);
    assert_eq!(index.reconstruct_text(), text);
}

#[test]
fn suffix_array_of_long_repetitive_text() {
    let mut text: Vec<u8> = Vec::new();
    for i in 0..3000usize {
        text.push(if (i / 7) % 2 == 0 { b'a' } else { b'b' });
    }
    text.push(b'!');
    let sa = suffix_array(&text).unwrap();
    assert_eq!(sa, naive_suffix_array(&text));
}

#[test]
fn suffix_array_rejects_bad_texts() {
    assert_eq!(suffix_array(b""), Err(IndexError::InvalidInput));
    assert_eq!(suffix_array(b"ACGT"), Err(IndexError::InvalidInput));
    assert_eq!(suffix_array(b"AC$GT$"), Err(IndexError::InvalidInput));
    assert_eq!(suffix_array(b"$$"), Err(IndexError::InvalidInput));
    assert!(!is_valid_text(b"AB"));
    assert!(is_valid_text(b"BA$"));
}

#[test]
fn suffix_array_agrees_with_bio() {
    let text = b"GATTACAGATTACAGGATCCA$";
    let ours = suffix_array(text).unwrap();
    let theirs = bio::data_structures::suffix_array::suffix_array(text);
    assert_eq!(ours, theirs);
}

#[test]
fn bwt_of_documented_text() {
    let text = b"GCCTTAACATTATTACGCCTA$";
    let sa = suffix_array(text).unwrap();
    assert_eq!(bwt(text, &sa).unwrap(), b"ATTATTCAGGACCC$CTTTCAA".to_vec());
}

#[test]
fn bwt_wraps_at_offset_zero() {
    let text = b"BA$";
    let sa = vec![2, 1, 0];
    assert_eq!(bwt(text, &sa).unwrap(), b"AB$".to_vec());
}

#[test]
fn bwt_rejects_mismatched_lengths() {
    assert_eq!(bwt(b"BA$", &[2, 1]), Err(IndexError::DimensionMismatch));
    assert_eq!(bwt(b"BA$", &[2, 1, 0, 0]), Err(IndexError::DimensionMismatch));
    assert_eq!(bwt(b"BA$", &[2, 1, 3]), Err(IndexError::InvalidInput));
    assert_eq!(bwt(b"", &[]), Ok(Vec::new()));
}

#[test]
fn bwt_round_trip_with_suffix_array() {
    let text = b"ACAGCTCGATCGGTA$";
    let sa = suffix_array(text).unwrap();
    let b = bwt(text, &sa).unwrap();
    let n = text.len();
    let mut back = vec![0u8; n];
    for r in 0..n {
        back[(sa[r] + n - 1) % n] = b[r];
    }
    assert_eq!(back, text.to_vec());
}

#[test]
fn reconstruct_text_from_index() {
    let texts: [&[u8]; 4] = [b"$", b"A$", b"ACAGCTCGATCGGTA$", b"GCCTTAACATTATTACGCCTA$"];
    for text in texts.iter() {
        let (index, _) = build_index(text, &dna(), 2).unwrap();
        assert_eq!(index.reconstruct_text(), text.to_vec());
    }
}

#[test]
fn less_table_counts_smaller_symbols() {
    let alphabet = Alphabet::new(b"$ACGT");
    let less = Less::new(b"ATTATTCAGGACCC$CTTTCAA", &alphabet).unwrap();
    assert_eq!(less.get(b'$'), Some(0));
    assert_eq!(less.get(b'A'), Some(1));
    assert_eq!(less.get(b'C'), Some(7));
    assert_eq!(less.get(b'G'), Some(13));
    assert_eq!(less.get(b'T'), Some(15));
    assert_eq!(less.get(b'N'), None);
    assert_eq!(less.len(), 5);
}

#[test]
fn less_table_rejects_foreign_symbol() {
    let alphabet = Alphabet::new(b"ACGT");
    assert!(matches!(Less::new(b"ACGN", &alphabet), Err(IndexError::InvalidInput)));
}

#[test]
fn less_table_is_monotone_and_starts_at_zero() {
    let alphabet = Alphabet::new(b"$ACGT");
    let less = Less::new(b"TTGGCCAA$", &alphabet).unwrap();
    let symbols = b"$ACGT";
    assert_eq!(less.get(symbols[0]), Some(0));
    for w in symbols.windows(2) {
        assert!(less.get(w[0]).unwrap() <= less.get(w[1]).unwrap());
    }
}

#[test]
fn occ_rank_equals_full_scan() {
    let text = b"ACAGCTCGATCGGTA$";
    let sa = suffix_array(text).unwrap();
    let b = bwt(text, &sa).unwrap();
    assert_eq!(b.len(), 16);
    let alphabet = Alphabet::new(b"$ACGT");
    let occ = Occ::new(b.clone(), 3, &alphabet).unwrap();
    assert_eq!(occ.sampling(), 3);
    assert_eq!(occ.len(), 16);
    assert_eq!(occ.checkpoints(), 6);
    for c in 0..=255u8 {
        for pos in 0..=b.len() {
            assert_eq!(occ.rank(c, pos), naive_rank(&b, c, pos));
        }
    }
}

#[test]
fn occ_rank_for_every_sampling_interval() {
    let b = b"ATTATTCAGGACCC$CTTTCAA".to_vec();
    let alphabet = Alphabet::new(b"$ACGT");
    for k in 1..=30usize {
        let occ = Occ::new(b.clone(), k, &alphabet).unwrap();
        assert_eq!(occ.checkpoints(), b.len() / k + 1);
        for &c in b"$ACGTN".iter() {
            for pos in 0..=b.len() + 2 {
                assert_eq!(occ.rank(c, pos), naive_rank(&b, c, pos));
            }
        }
    }
}

#[test]
fn occ_rejects_bad_input() {
    let alphabet = Alphabet::new(b"ACGT");
    assert!(matches!(Occ::new(b"ACGT".to_vec(), 0, &alphabet), Err(IndexError::InvalidInput)));
    assert!(matches!(Occ::new(b"ACXT".to_vec(), 2, &alphabet), Err(IndexError::InvalidInput)));
    assert!(Occ::new(Vec::new(), 1, &alphabet).is_ok());
}

#[test]
fn build_index_rejects_invalid_input() {
    let alphabet = dna();
    assert!(matches!(build_index(b"", &alphabet, 3), Err(IndexError::InvalidInput)));
    assert!(matches!(build_index(b"ACGT$", &alphabet, 0), Err(IndexError::InvalidInput)));
    assert!(matches!(build_index(b"ACNT$", &alphabet, 3), Err(IndexError::InvalidInput)));
    assert!(matches!(build_index(b"AC$T$", &alphabet, 3), Err(IndexError::InvalidInput)));
    assert!(matches!(build_index(b"ACGT", &alphabet, 3), Err(IndexError::InvalidInput)));
    assert!(matches!(build_index(b"ACGTa", &alphabet, 3), Err(IndexError::InvalidInput)));
    assert!(matches!(
        build_index(b"ACGT$", &Alphabet::new(b"ACGT#"), 3),
        Err(IndexError::InvalidInput)
    ));
    assert!(build_index(b"ACGT$", &alphabet, 3).is_ok());
    assert!(build_index(b"$", &alphabet, 1).is_ok());
}

#[test]
fn build_index_returns_suffix_array_and_bwt() {
    let text = b"GCCTTAACATTATTACGCCTA$";
    let (index, sa) = build_index(text, &dna(), 4).unwrap();
    assert_eq!(sa, naive_suffix_array(text));
    assert_eq!(index.bwt(), &b"ATTATTCAGGACCC$CTTTCAA".to_vec());
    assert_eq!(index.len(), 22);
    assert_eq!(index.sentinel(), b'$');
}

#[test]
fn search_finds_every_substring() {
    let text = b"ACAGCTCGATCGGTA$";
    let (index, sa) = build_fm_index(text, &dna());
    for start in 0..text.len() {
        for end in start + 1..=text.len() {
            let pattern = &text[start..end];
            match index.backward_search(pattern) {
                BackwardSearchResult::Complete(iv) => {
                    assert!(iv.lower() < iv.upper() && iv.upper() <= text.len());
                    let mut found = materialize_positions(&iv, &sa).unwrap();
                    assert!(found.contains(&start));
                    found.sort();
                    let expected: Vec<usize> = (0..text.len())
                        .filter(|&i| text[i..].starts_with(pattern))
                        .collect();
                    assert_eq!(found, expected);
                }
                other => panic!("{:?}", other),
            }
        }
    }
}

#[test]
fn search_finds_suffixes_that_end_in_the_sentinel() {
    let text = b"ACAGCTCGATCGGTA$";
    let (index, sa) = build_fm_index(text, &dna());
    for start in 0..text.len() {
        match index.backward_search(&text[start..]) {
            BackwardSearchResult::Complete(iv) => {
                assert_eq!(materialize_positions(&iv, &sa), Ok(vec![start]));
            }
            other => panic!("{:?}", other),
        }
    }
    assert_eq!(
        index.backward_search(b"$"),
        BackwardSearchResult::Complete(Interval::new(0, 1).unwrap())
    );
    let (tiny, tiny_sa) = build_fm_index(b"A$", &dna());
    match tiny.backward_search(b"$") {
        BackwardSearchResult::Complete(iv) => assert_eq!(iv.occ(&tiny_sa), Ok(vec![1])),
        other => panic!("{:?}", other),
    }
    let (only, only_sa) = build_fm_index(b"$", &dna());
    match only.backward_search(b"$") {
        BackwardSearchResult::Complete(iv) => assert_eq!(iv.occ(&only_sa), Ok(vec![0])),
        other => panic!("{:?}", other),
    }
}

#[test]
fn search_does_not_match_across_the_end_of_the_text() {
    let text = b"ACAGCTCGATCGGTA$";
    let (index, sa) = build_fm_index(text, &dna());
    match index.backward_search(b"$A") {
        BackwardSearchResult::Partial(iv, l) => {
            assert_eq!(l, 1);
            assert_eq!(iv.occ(&sa), Ok(vec![14, 0, 2, 8]));
        }
        other => panic!("{:?}", other),
    }
    match index.backward_search(b"TA$ACAG") {
        BackwardSearchResult::Partial(iv, l) => {
            assert_eq!(l, 4);
            assert_eq!(iv.occ(&sa), Ok(vec![0]));
        }
        other => panic!("{:?}", other),
    }
    assert!(matches!(index.backward_search(b"$$"), BackwardSearchResult::Partial(_, 1)));
    assert!(matches!(index.backward_search(b"A$$"), BackwardSearchResult::Partial(_, 1)));
    assert!(matches!(index.backward_search(b"$TA$"), BackwardSearchResult::Partial(_, 3)));
    let (tiny, _) = build_fm_index(b"A$", &dna());
    assert!(matches!(tiny.backward_search(b"$A"), BackwardSearchResult::Partial(_, 1)));
    assert!(matches!(tiny.backward_search(b"A$A$"), BackwardSearchResult::Partial(_, 2)));
}

#[test]
fn search_never_completes_on_missing_pattern() {
    let text = b"ACAGCTCGATCGGTA$";
    let (index, _) = build_fm_index(text, &dna());
    let missing: [&[u8]; 6] = [b"AAA", b"TTTT", b"GATTACA", b"CGATCGGTAA", b"ACAGCTCGATCGGTAC", b"GGG"];
    for pattern in missing.iter() {
        match index.backward_search(pattern) {
            BackwardSearchResult::Complete(_) => panic!(),
            BackwardSearchResult::Partial(_, l) => assert!(l < pattern.len() && l > 0),
            BackwardSearchResult::Absent => {}
        }
    }
}

#[test]
fn search_partial_reports_longest_suffix() {
    let text = b"ACAGCTCGATCGGTA$";
    let (index, sa) = build_fm_index(text, &dna());
    match index.backward_search(b"TTCGG") {
        BackwardSearchResult::Partial(iv, l) => {
            assert_eq!(l, 4);
            assert_eq!(iv.occ(&sa).unwrap(), vec![9]);
            assert_eq!(iv.len(), 1);
            assert!(!iv.is_empty());
            assert_eq!(iv.upper(), iv.lower() + 1);
        }
        other => panic!("{:?}", other),
    }
}

#[test]
fn search_empty_pattern_is_absent() {
    let (index, _) = build_fm_index(b"ACAGCTCGATCGGTA$", &dna());
    assert_eq!(index.backward_search(b""), BackwardSearchResult::Absent);
    let (tiny, _) = build_fm_index(b"$", &dna());
    assert_eq!(tiny.backward_search(b""), BackwardSearchResult::Absent);
}

#[test]
fn search_symbol_outside_alphabet_is_absent() {
    let (index, _) = build_fm_index(b"ACAGCTCGATCGGTA$", &dna());
    assert_eq!(index.backward_search(b"ACNG"), BackwardSearchResult::Absent);
    assert_eq!(index.backward_search(b"N"), BackwardSearchResult::Absent);
    assert_eq!(index.backward_search(b"XCG"), BackwardSearchResult::Absent);
    assert_eq!(index.backward_search(b"GTN$"), BackwardSearchResult::Absent);
    assert_eq!(index.backward_search(b"#"), BackwardSearchResult::Absent);
}

#[test]
fn search_symbol_of_alphabet_missing_from_text() {
    let (index, _) = build_fm_index(b"ACAGCTCGATCGGTA$", &dna());
    assert_eq!(index.backward_search(b"a"), BackwardSearchResult::Absent);
    assert!(matches!(index.backward_search(b"aCG"), BackwardSearchResult::Partial(_, 2)));
}

#[test]
fn search_agrees_with_bio() {
    let text = b"GCCTTAACATTATTACGCCTA$";
    let alphabet = bio::alphabets::dna::n_alphabet();
    let sa = bio::data_structures::suffix_array::suffix_array(text);
    let b = bio::data_structures::bwt::bwt(text, &sa);
    let less = bio::data_structures::bwt::less(&b, &alphabet);
    let occ = bio::data_structures::bwt::Occ::new(&b, 3, &alphabet);
    let theirs = bio::data_structures::fmindex::FMIndex::new(&b, &less, &occ);
    let (ours, our_sa) = build_index(text, &Alphabet::new(b"ACGTNacgtn"), 3).unwrap();
    assert_eq!(our_sa, sa);
    let patterns: [&[u8]; 10] = [
        b"TTA",
        b"GCC",
        b"A",
        b"ACGCCTA",
        b"GGTTA",
        b"$",
        b"A$",
        b"CGCCTA$",
        b"GCCTTAACATTATTACGCCTA$",
        b"GTA$",
    ];
    for pattern in patterns.iter() {
        let expected = match theirs.backward_search(pattern.iter()) {
            bio::data_structures::fmindex::BackwardSearchResult::Complete(iv) => {
                Some((iv.lower, iv.upper, pattern.len()))
            }
            bio::data_structures::fmindex::BackwardSearchResult::Partial(iv, l) => {
                Some((iv.lower, iv.upper, l))
            }
            bio::data_structures::fmindex::BackwardSearchResult::Absent => None,
        };
        let got = match ours.backward_search(pattern) {
            BackwardSearchResult::Complete(iv) => Some((iv.lower(), iv.upper(), pattern.len())),
            BackwardSearchResult::Partial(iv, l) => Some((iv.lower(), iv.upper(), l)),
            BackwardSearchResult::Absent => None,
        };
        assert_eq!(got, expected);
    }
}

#[test]
fn search_departs_from_bio_only_across_the_end_of_the_text() {
    let text = b"GCCTTAACATTATTACGCCTA$";
    let alphabet = bio::alphabets::dna::n_alphabet();
    let sa = bio::data_structures::suffix_array::suffix_array(text);
    let b = bio::data_structures::bwt::bwt(text, &sa);
    let less = bio::data_structures::bwt::less(&b, &alphabet);
    let occ = bio::data_structures::bwt::Occ::new(&b, 3, &alphabet);
    let theirs = bio::data_structures::fmindex::FMIndex::new(&b, &less, &occ);
    let (ours, our_sa) = build_index(text, &Alphabet::new(b"ACGTNacgtn"), 3).unwrap();
    // "$GCC" stands nowhere in the text; it matches only from the sentinel
    // on into the beginning of the text, which bio reports as found.
    let wrapped = b"$GCC";
    assert!(matches!(
        theirs.backward_search(wrapped.iter()),
        bio::data_structures::fmindex::BackwardSearchResult::Complete(_)
    ));
    match ours.backward_search(wrapped) {
        BackwardSearchResult::Partial(iv, l) => {
            assert_eq!(l, 3);
            assert_eq!(iv.occ(&our_sa), Ok(vec![16, 0]));
        }
        other => panic!("{:?}", other),
    }
}

#[test]
fn occ_agrees_with_bio() {
    let text = b"GCCTTAACATTATTACGCCTA$";
    let alphabet = bio::alphabets::dna::n_alphabet();
    let sa = bio::data_structures::suffix_array::suffix_array(text);
    let b = bio::data_structures::bwt::bwt(text, &sa);
    assert_eq!(bwt(text, &suffix_array(text).unwrap()).unwrap(), b);
    for k in [1usize, 2, 3, 5, 8, 64] {
        let theirs = bio::data_structures::bwt::Occ::new(&b, k as u32, &alphabet);
        let ours = Occ::new(b.clone(), k, &Alphabet::new(b"$ACGTNacgtn")).unwrap();
        for &c in b"$ACGTN".iter() {
            for r in 0..b.len() {
                assert_eq!(ours.rank(c, r + 1), theirs.get(&b, r, c));
            }
        }
    }
}

#[test]
fn less_agrees_with_bio() {
    let text = b"GCCTTAACATTATTACGCCTA$";
    let alphabet = bio::alphabets::dna::n_alphabet();
    let sa = bio::data_structures::suffix_array::suffix_array(text);
    let b = bio::data_structures::bwt::bwt(text, &sa);
    let theirs = bio::data_structures::bwt::less(&b, &alphabet);
    let ours = Less::new(&b, &Alphabet::new(b"$ACGTNacgtn")).unwrap();
    for &c in b"$ACGTNacgtn".iter() {
        assert_eq!(ours.get(c), Some(theirs[c as usize]));
    }
}

#[test]
fn materialize_positions_in_row_order() {
    let sa = vec![4usize, 3, 1, 2, 0];
    let iv = Interval::new(1, 4).unwrap();
    assert_eq!(materialize_positions(&iv, &sa), Ok(vec![3, 1, 2]));
    assert_eq!(iv.occ(&sa), Ok(vec![3, 1, 2]));
    let empty = Interval::new(2, 2).unwrap();
    assert_eq!(materialize_positions(&empty, &sa), Ok(Vec::new()));
    assert!(empty.is_empty());
}

#[test]
fn materialize_positions_rejects_out_of_range() {
    let sa = vec![2usize, 1, 0];
    let iv = Interval::new(1, 4).unwrap();
    assert_eq!(materialize_positions(&iv, &sa), Err(IndexError::DimensionMismatch));
    assert_eq!(Interval::new(3, 2), None);
}

#[test]
fn search_in_long_text_agrees_with_scan() {
    let mut state: u32 = 2024;
    let mut text: Vec<u8> = Vec::new();
    for _ in 0..20000 {
        state = state.wrapping_mul(1103515245).wrapping_add(12345);
        text.push(b"ACGT"[((state >> 16) % 4) as usize]);
    }
    text.push(b'$');
    let (index, sa) = build_index(&text, &dna(), 16).unwrap();
    assert_eq!(index.reconstruct_text(), text);
    for start in (0..19980).step_by(997) {
        for len in [1usize, 3, 8, 15] {
            let pattern = &text[start..start + len];
            let expected: Vec<usize> = (0..text.len() - len)
                .filter(|&i| &text[i..i + len] == pattern)
                .collect();
            match index.backward_search(pattern) {
                BackwardSearchResult::Complete(iv) => {
                    let mut found = materialize_positions(&iv, &sa).unwrap();
                    found.sort();
                    assert_eq!(found, expected);
                }
                other => panic!("{:?}", other),
            }
        }
    }
}

#[test]
fn dna_alphabet_has_eight_symbols() {
    let alphabet = Alphabet::dna();
    assert_eq!(alphabet.len(), 8);
    for &c in b"ACGTacgt".iter() {
        assert!(alphabet.contains(c));
    }
    let theirs = bio::alphabets::dna::alphabet();
    for c in 0..=255u8 {
        assert_eq!(alphabet.contains(c), theirs.symbols.contains(c as usize));
    }
    assert_eq!(alphabet.rank_of(b'A'), Some(0));
    assert_eq!(alphabet.rank_of(b't'), Some(7));
}

#[test]
fn built_index_can_be_shared_between_threads() {
    let (index, sa) = build_fm_index(b"ACAGCTCGATCGGTA$", &dna());
    shared(&index);
    shared(&sa);
    let first = index.backward_search(b"TCG");
    let second = index.backward_search(b"TCG");
    assert_eq!(first, second);
}

#[test]
fn alphabet_membership_and_ranks() {
    let alphabet = Alphabet::new(b"TGCATTAG");
    assert_eq!(alphabet.len(), 4);
    assert!(!alphabet.is_empty());
    assert!(alphabet.contains(b'A'));
    assert!(!alphabet.contains(b'N'));
    assert_eq!(alphabet.rank_of(b'A'), Some(0));
    assert_eq!(alphabet.rank_of(b'C'), Some(1));
    assert_eq!(alphabet.rank_of(b'G'), Some(2));
    assert_eq!(alphabet.rank_of(b'T'), Some(3));
    assert_eq!(alphabet.rank_of(b'$'), None);
    assert_eq!(alphabet.min_symbol(), Some(b'A'));
    let wider = alphabet.with_symbol(b'$');
    assert_eq!(wider.len(), 5);
    assert_eq!(wider.rank_of(b'$'), Some(0));
    assert_eq!(wider.rank_of(b'A'), Some(1));
    assert_eq!(alphabet.len(), 4);
    let same = alphabet.copy();
    assert_eq!(same.rank_of(b'T'), Some(3));
    let none = Alphabet::new(b"");
    assert!(none.is_empty());
    assert_eq!(none.min_symbol(), None);
    let all: Vec<u8> = (0..=255u8).collect();
    let full = Alphabet::new(&all);
    assert_eq!(full.len(), 256);
    assert_eq!(full.rank_of(255), Some(255));
}
