use qgram_index::alphabet::Alphabet;
use qgram_index::diagonals::Diagonal;
use qgram_index::exact::ExactMatch;
use qgram_index::index::{QGramError, QGramIndex};
use qgram_index::qgrams::QGrams;

fn dna() -> Alphabet {
    Alphabet::new(b"ACGT")
}

fn value_of(q: usize, window: &[u8], alphabet: &Alphabet) -> u32 {
    QGrams::new(q, window, alphabet).next().unwrap()
}

fn em(ps: usize, pe: usize, ts: usize, te: usize) -> ExactMatch {
    ExactMatch { pattern_start: ps, pattern_stop: pe, text_start: ts, text_stop: te }
}

#[test]
fn alphabet_ranks_ascending() {
    let a = Alphabet::new(b"TGCAAT");
    assert_eq!(a.len(), 4);
    assert_eq!(a.get(b'A'), Some(0));
    assert_eq!(a.get(b'C'), Some(1));
    assert_eq!(a.get(b'G'), Some(2));
    assert_eq!(a.get(b'T'), Some(3));
    assert_eq!(a.get(b'N'), None);
}

#[test]
fn qgram_values_pack_two_bits_per_symbol() {
    let a = dna();
    let mut qs = QGrams::new(3, b"ACGTA", &a);
    // ACG = 0b00_01_10, CGT = 0b01_10_11, GTA = 0b10_11_00
    assert_eq!(qs.next(), Some(6));
    assert_eq!(qs.next(), Some(27));
    assert_eq!(qs.next(), Some(44));
    assert_eq!(qs.next(), None);
    assert_eq!(qs.next(), None);
}

#[test]
fn qgram_values_three_symbol_alphabet() {
    let a = Alphabet::new(b"abc");
    // two bits per symbol: "cc" = 0b10_10
    assert_eq!(value_of(2, b"cc", &a), 10);
    assert_eq!(value_of(2, b"ab", &a), 1);
}

#[test]
fn qgram_values_short_text_yields_nothing() {
    let a = dna();
    let mut qs = QGrams::new(4, b"ACG", &a);
    assert_eq!(qs.next(), None);
}

#[test]
fn build_errors() {
    let a = dna();
    assert_eq!(QGramIndex::new(0, b"ACGT", &a).err(), Some(QGramError::InvalidQ));
    assert_eq!(QGramIndex::new(17, b"ACGTACGTACGTACGTACGT", &a).err(), Some(QGramError::InvalidQ));
    assert_eq!(QGramIndex::new(5, b"ACGT", &a).err(), Some(QGramError::EmptyText));
    assert_eq!(QGramIndex::new(2, b"ACNT", &a).err(), Some(QGramError::UnknownSymbol));
    assert!(QGramIndex::new(8, b"ACGTACGT", &a).is_ok());
}

#[test]
fn matches_lists_positions_ascending() {
    let a = dna();
    let idx = QGramIndex::new(3, b"ACGTACGT", &a).unwrap();
    assert_eq!(idx.qgram_space(), 64);
    assert_eq!(idx.matches(value_of(3, b"ACG", &a)), &[0, 4]);
    assert_eq!(idx.matches(value_of(3, b"CGT", &a)), &[1, 5]);
    assert_eq!(idx.matches(value_of(3, b"GTA", &a)), &[2]);
    assert_eq!(idx.matches(value_of(3, b"TAC", &a)), &[3]);
    assert_eq!(idx.matches(value_of(3, b"AAA", &a)), &[] as &[usize]);
}

#[test]
fn every_position_in_exactly_one_bucket() {
    let a = dna();
    let text = b"GATTACAGATTACA";
    let q = 2;
    let idx = QGramIndex::new(q, text, &a).unwrap();
    let mut seen = vec![0usize; text.len() - q + 1];
    for g in 0..idx.qgram_space() as u32 {
        let ms = idx.matches(g);
        for w in ms.windows(2) {
            assert!(w[0] < w[1]);
        }
        for &p in ms {
            assert_eq!(value_of(q, &text[p..p + q], &a), g);
            seen[p] += 1;
        }
    }
    assert!(seen.iter().all(|&c| c == 1));
}

#[test]
fn masking_empties_frequent_buckets() {
    let a = dna();
    let idx = QGramIndex::with_max_count(2, b"ACACACGT", &a, 2).unwrap();
    // AC occurs 3 times, CA twice, CG and GT once
    assert_eq!(idx.matches(value_of(2, b"AC", &a)), &[] as &[usize]);
    assert_eq!(idx.matches(value_of(2, b"CA", &a)), &[1, 3]);
    assert_eq!(idx.matches(value_of(2, b"CG", &a)), &[5]);
    assert_eq!(idx.matches(value_of(2, b"GT", &a)), &[6]);
}

#[test]
fn no_match_when_masked() {
    let a = dna();
    let idx = QGramIndex::with_max_count(2, b"AAAA", &a, 1).unwrap();
    assert_eq!(idx.matches(value_of(2, b"AA", &a)), &[] as &[usize]);
    assert!(idx.exact_matches(b"AAAA").unwrap().is_empty());
    assert!(idx.diagonals(b"AAAA").unwrap().is_empty());
}

#[test]
fn self_match_spans_whole_pattern() {
    let a = dna();
    let idx = QGramIndex::new(3, b"ACGTACGT", &a).unwrap();
    let ms = idx.exact_matches(b"ACGTACGT").unwrap();
    assert!(ms.contains(&em(0, 8, 0, 8)));
    for m in &ms {
        assert!(m.pattern_stop - m.pattern_start >= 3);
        assert_eq!(m.pattern_stop - m.pattern_start, m.text_stop - m.text_start);
    }
    assert_eq!(ms, vec![em(0, 8, 0, 8), em(0, 4, 4, 8), em(4, 8, 0, 4)]);
}

#[test]
fn deletion_splits_into_diagonals() {
    let a = dna();
    let idx = QGramIndex::new(3, b"ACGTACGT", &a).unwrap();
    let ms = idx.exact_matches(b"ACGACGT").unwrap();
    assert_eq!(
        ms,
        vec![em(0, 3, 0, 3), em(0, 3, 4, 7), em(3, 7, 0, 4), em(3, 7, 4, 8)]
    );
    let mut diags: Vec<isize> = ms
        .iter()
        .map(|m| m.text_start as isize - m.pattern_start as isize)
        .collect();
    diags.sort();
    diags.dedup();
    assert!(diags.len() >= 2);
}

#[test]
fn gap_closes_interval() {
    let a = dna();
    let idx = QGramIndex::new(2, b"ACGTTACG", &a).unwrap();
    // pattern ACG?ACG: on diagonal 0 the q-grams at 0,1 then a gap, then 5,6
    let ms = idx.exact_matches(b"ACGAAACG").unwrap();
    assert!(ms.contains(&em(0, 3, 0, 3)));
    for m in &ms {
        assert!(m.pattern_stop - m.pattern_start >= 2);
        assert_eq!(m.pattern_stop - m.pattern_start, m.text_stop - m.text_start);
    }
}

#[test]
fn diagonal_histogram_counts() {
    let a = dna();
    let idx = QGramIndex::new(3, b"ACGTACGT", &a).unwrap();
    let ds = idx.diagonals(b"ACGTACGT").unwrap();
    assert_eq!(
        ds,
        vec![
            Diagonal { pos: 0, count: 6 },
            Diagonal { pos: 4, count: 2 },
            Diagonal { pos: -4, count: 2 },
        ]
    );
}

#[test]
fn diagonal_counts_sum_to_hits() {
    let a = dna();
    let text = b"ACGTTGCAACGT";
    let pattern = b"TTGCACGTAC";
    let q = 2;
    let idx = QGramIndex::new(q, text, &a).unwrap();
    let mut hits = 0;
    for i in 0..pattern.len() - q + 1 {
        hits += idx.matches(value_of(q, &pattern[i..i + q], &a)).len();
    }
    let ds = idx.diagonals(pattern).unwrap();
    let total: usize = ds.iter().map(|d| d.count).sum();
    assert_eq!(total, hits);
    assert!(hits > 0);
}

#[test]
fn queries_reject_unknown_symbols() {
    let a = dna();
    let idx = QGramIndex::new(2, b"ACGT", &a).unwrap();
    assert_eq!(idx.diagonals(b"ACNT").err(), Some(QGramError::UnknownSymbol));
    assert_eq!(idx.exact_matches(b"ACNT").err(), Some(QGramError::UnknownSymbol));
}

#[test]
fn short_pattern_has_no_hits() {
    let a = dna();
    let idx = QGramIndex::new(3, b"ACGT", &a).unwrap();
    assert!(idx.diagonals(b"AC").unwrap().is_empty());
    assert!(idx.exact_matches(b"AC").unwrap().is_empty());
}

#[test]
fn one_symbol_alphabet() {
    let a = Alphabet::new(b"A");
    let idx = QGramIndex::new(40, &[b'A'; 41], &a).unwrap();
    assert_eq!(idx.qgram_space(), 1);
    assert_eq!(idx.matches(0), &[0, 1]);
}

#[test]
fn diagonal_histogram_small_samples() {
    let a = dna();
    let idx = QGramIndex::new(3, b"ACGT", &a).unwrap();
    assert_eq!(idx.diagonals(b"ACG").unwrap(), vec![Diagonal { pos: 0, count: 1 }]);
    assert_eq!(idx.diagonals(b"AACGT").unwrap(), vec![Diagonal { pos: -1, count: 2 }]);
}

#[test]
fn diagonal_histogram_after_deletion() {
    let a = dna();
    let idx = QGramIndex::new(3, b"ACGTACGT", &a).unwrap();
    let mut ds = idx.diagonals(b"ACGACGT").unwrap();
    ds.sort_by_key(|d| d.pos);
    assert_eq!(
        ds,
        vec![
            Diagonal { pos: -3, count: 2 },
            Diagonal { pos: 0, count: 1 },
            Diagonal { pos: 1, count: 2 },
            Diagonal { pos: 4, count: 1 },
        ]
    );
}

#[test]
fn exact_matches_are_real_and_cover_hits() {
    let a = dna();
    let text = b"TTACGTAGGACGTT";
    let pattern = b"GACGTAGC";
    let q = 3;
    let idx = QGramIndex::new(q, text, &a).unwrap();
    let ms = idx.exact_matches(pattern).unwrap();
    for m in &ms {
        assert_eq!(&pattern[m.pattern_start..m.pattern_stop], &text[m.text_start..m.text_stop]);
    }
    for i in 0..pattern.len() - q + 1 {
        for &p in idx.matches(value_of(q, &pattern[i..i + q], &a)) {
            assert!(ms.iter().any(|m| m.pattern_start <= i
                && i + q <= m.pattern_stop
                && m.text_start as isize - m.pattern_start as isize == p as isize - i as isize));
        }
    }
    assert!(!ms.is_empty());
}
