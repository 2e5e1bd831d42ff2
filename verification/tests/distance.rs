use seq_index::distance::{bounded_levenshtein, levenshtein};

#[test]
fn test_alignment_levenshtein_distance() {
    let a = b"ATCG";
    let b = b"CTCGATC";

    let ldist = levenshtein(a, b);

    assert_eq!(ldist, 4);
}

#[test]
fn test_alignment_simd_levenshtein_distance() {
    let a = b"ATCG";
    let b = b"CTCGATC";

    let ldist = levenshtein(a, b);

    assert_eq!(ldist, 4);
    assert_eq!(bounded_levenshtein(a, b, usize::MAX), Some(4));
}

#[test]
fn test_alignment_simd_levenshtein_distance_optimized() {
    // Assume that these are long strings :P
    let a = b"ATCG";
    let b = b"CTCGATC";

    let ldist = bounded_levenshtein(a, b, 5);

    let val = match ldist {
        Some(val) => val,
        None => levenshtein(a, b),
    };

    assert_eq!(val, 4);
}

#[test]
fn bounded_distance_within_and_beyond_bound() {
    assert_eq!(bounded_levenshtein(b"ATCG", b"CTCGATC", 5), Some(4));
    assert_eq!(bounded_levenshtein(b"ATCG", b"CTCGATC", 4), Some(4));
    assert_eq!(bounded_levenshtein(b"ATCG", b"CTCGATC", 3), None);
    assert_eq!(bounded_levenshtein(b"ATCG", b"CTCGATC", 2), None);
    assert_eq!(bounded_levenshtein(b"ATCG", b"CTCGATC", 0), None);
    assert_eq!(bounded_levenshtein(b"ATCG", b"ATCG", 0), Some(0));
}

#[test]
fn distance_to_self_is_zero() {
    let words: [&[u8]; 4] = [b"", b"A", b"GATTACA", b"ACAGCTCGATCGGTA"];
    for w in words.iter() {
        assert_eq!(levenshtein(w, w), 0);
        assert_eq!(bounded_levenshtein(w, w, 0), Some(0));
    }
}

#[test]
fn distance_is_symmetric() {
    let words: [&[u8]; 5] = [b"", b"kitten", b"sitting", b"ACGT", b"TGCATGCA"];
    for a in words.iter() {
        for b in words.iter() {
            assert_eq!(levenshtein(a, b), levenshtein(b, a));
        }
    }
}

#[test]
fn distance_known_values() {
    assert_eq!(levenshtein(b"kitten", b"sitting"), 3);
    assert_eq!(levenshtein(b"sitting", b"kitten"), 3);
    assert_eq!(levenshtein(b"", b"abc"), 3);
    assert_eq!(levenshtein(b"abc", b""), 3);
    assert_eq!(levenshtein(b"", b""), 0);
    assert_eq!(levenshtein(b"flaw", b"lawn"), 2);
    assert_eq!(levenshtein(b"ACCGTGGAT", b"AAAAACCGTTGAT"), 5);
    assert_eq!(levenshtein(b"abc", b"xyz"), 3);
    assert_eq!(levenshtein(b"a", b"b"), 1);
}

#[test]
fn bounded_distance_on_empty_sequences() {
    assert_eq!(bounded_levenshtein(b"", b"", 0), Some(0));
    assert_eq!(bounded_levenshtein(b"", b"abc", 3), Some(3));
    assert_eq!(bounded_levenshtein(b"", b"abc", 2), None);
    assert_eq!(bounded_levenshtein(b"abc", b"", 3), Some(3));
    assert_eq!(bounded_levenshtein(b"abc", b"", 2), None);
}

#[test]
fn bounded_distance_matches_exact_for_every_bound() {
    let words: [&[u8]; 6] = [b"", b"A", b"kitten", b"sitting", b"ATCG", b"CTCGATC"];
    for a in words.iter() {
        for b in words.iter() {
            let d = levenshtein(a, b);
            for k in 0..10usize {
                let expected = if d <= k { Some(d) } else { None };
                assert_eq!(bounded_levenshtein(a, b, k), expected);
            }
        }
    }
}

#[test]
fn distance_agrees_with_bio() {
    let pairs: [(&[u8], &[u8]); 5] = [
        (b"ATCG", b"CTCGATC"),
        (b"ACCGTGGAT", b"AAAAACCGTTGAT"),
        (b"", b"ACGT"),
        (b"GATTACA", b"GCATGCU"),
        (b"AAAA", b"AAAA"),
    ];
    for (a, b) in pairs.iter() {
        let theirs = bio::alignment::distance::levenshtein(a, b) as usize;
        assert_eq!(levenshtein(a, b), theirs);
        assert_eq!(
            bio::alignment::distance::simd::levenshtein(a, b) as usize,
            levenshtein(a, b)
        );
        for k in 0..8u32 {
            let bounded = bio::alignment::distance::simd::bounded_levenshtein(a, b, k);
            assert_eq!(
                bounded_levenshtein(a, b, k as usize),
                bounded.map(|d| d as usize)
            );
        }
    }
}

fn pseudo_random_words() -> Vec<Vec<u8>> {
    let mut state: u32 = 12345;
    let mut words: Vec<Vec<u8>> = Vec::new();
    for len in 0..24usize {
        for _ in 0..3 {
            let mut w: Vec<u8> = Vec::new();
            for _ in 0..len {
                state = state.wrapping_mul(1103515245).wrapping_add(12345);
                w.push(b"ACGT"[((state >> 16) % 4) as usize]);
            }
            words.push(w);
        }
    }
    words
}

fn reference_distance(a: &[u8], b: &[u8]) -> usize {
    let mut table = vec![vec![0usize; b.len() + 1]; a.len() + 1];
    for i in 0..=a.len() {
        table[i][0] = i;
    }
    for j in 0..=b.len() {
        table[0][j] = j;
    }
    for i in 1..=a.len() {
        for j in 1..=b.len() {
            let cost = if a[i - 1] == b[j - 1] { 0 } else { 1 };
            table[i][j] = (table[i - 1][j] + 1)
                .min(table[i][j - 1] + 1)
                .min(table[i - 1][j - 1] + cost);
        }
    }
    table[a.len()][b.len()]
}

#[test]
fn exact_distance_matches_full_table() {
    let words = pseudo_random_words();
    for a in words.iter().step_by(2) {
        for b in words.iter().step_by(3) {
            assert_eq!(levenshtein(a, b), reference_distance(a, b));
        }
    }
}

#[test]
fn banded_distance_matches_full_table() {
    let words = pseudo_random_words();
    for a in words.iter().step_by(3) {
        for b in words.iter().step_by(4) {
            let d = reference_distance(a, b);
            for bound in 0..30usize {
                let expected = if d <= bound { Some(d) } else { None };
                assert_eq!(bounded_levenshtein(a, b, bound), expected);
            }
            assert_eq!(bounded_levenshtein(a, b, usize::MAX), Some(d));
            assert_eq!(bounded_levenshtein(a, b, usize::MAX - 1), Some(d));
        }
    }
}

#[test]
fn banded_distance_gives_up_on_long_unrelated_sequences() {
    let a = vec![b'A'; 2000];
    let b = vec![b'C'; 2000];
    assert_eq!(bounded_levenshtein(&a, &b, 3), None);
    assert_eq!(bounded_levenshtein(&a, &a, 3), Some(0));
    let mut c = a.clone();
    c[1000] = b'G';
    c.insert(500, b'T');
    assert_eq!(bounded_levenshtein(&a, &c, 3), Some(2));
    assert_eq!(bounded_levenshtein(&a, &c, 1), None);
}
