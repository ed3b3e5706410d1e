use knucleotide::counts::{calculate, parallel_calculate, Counts};
use knucleotide::kmer::{encode_window, to_char, to_num, T};
use knucleotide::report::{count_literal, frequency_rows, frequency_table, window_total, WORKERS};

fn direct_count(input: &str, lit: &str) -> u32 {
    let s = input.as_bytes();
    let t = lit.as_bytes();
    let mut n = 0;
    if t.len() <= s.len() {
        for i in 0..=(s.len() - t.len()) {
            if &s[i..i + t.len()] == t {
                n += 1;
            }
        }
    }
    n
}

fn entries(c: &Counts) -> Vec<(u64, u32)> {
    let mut v = Vec::new();
    for i in 0..c.len() {
        let key = c.key_at(i);
        v.push((key, c.get(key)));
    }
    v.sort();
    v
}

fn sum(c: &Counts) -> u64 {
    let mut total = 0u64;
    for i in 0..c.len() {
        total += c.get(c.key_at(i)) as u64;
    }
    total
}

const SAMPLE: &str = "GGTATTTTAATTTATAGTACGTTGCAACGATCGGGATCCAAGTTAACGGTATTAC";

#[test]
fn codec_values() {
    assert_eq!(to_num(b'A'), 0);
    assert_eq!(to_num(b'C'), 1);
    assert_eq!(to_num(b'T'), 2);
    assert_eq!(to_num(b'G'), 3);
    assert_eq!(to_num(b'N'), 0);
    assert_eq!(to_char(0), b'A');
    assert_eq!(to_char(1), b'C');
    assert_eq!(to_char(2), b'T');
    assert_eq!(to_char(3), b'G');
}

#[test]
fn key_packing_is_most_significant_first() {
    let t = T::new("GATTACA");
    assert_eq!(t.size, 7);
    // G=3 A=0 T=2 T=2 A=0 C=1 A=0
    assert_eq!(t.data, 0b11_00_10_10_00_01_00);
    assert_eq!(encode_window(b"xxGATTACAxx", 2, 7), t.data);
}

#[test]
fn round_trip() {
    for s in ["A", "GATTACA", "GGTATTTTAATTTATAGT", "GGGGGGGGGGGGGGGGGGGGGGGGGGGGGGGG", "ACGT"] {
        assert_eq!(T::new(s).decode(), s.as_bytes().to_vec());
        assert_eq!(T::new(s).to_string(), s);
    }
}

#[test]
fn blank_and_reset() {
    let mut t = T::blank();
    assert_eq!((t.data, t.size), (0, 0));
    assert_eq!(t.decode(), Vec::<u8>::new());
    t.reset("TG");
    assert_eq!((t.data, t.size), (0b10_11, 2));
    assert!(t == T::new("TG"));
    assert!(t != T::new("GT"));
}

#[test]
fn example_single_symbol() {
    let c = parallel_calculate("AAAA", 1, WORKERS);
    assert_eq!(entries(&c), vec![(0, 4)]);
    let rows = frequency_rows(&c);
    assert_eq!(rows, vec![(0, 4)]);
    assert_eq!(window_total("AAAA", 1), 4);
    assert_eq!(T { data: rows[0].0, size: 1 }.to_string(), "A");
}

#[test]
fn example_dinucleotides() {
    let c = parallel_calculate("ACACAC", 2, WORKERS);
    let ac = T::new("AC").data;
    let ca = T::new("CA").data;
    assert_eq!(c.len(), 2);
    assert_eq!(c.get(ac), 3);
    assert_eq!(c.get(ca), 2);
    assert_eq!(window_total("ACACAC", 2), 5);
    assert_eq!(frequency_rows(&c), vec![(ac, 3), (ca, 2)]);
}

#[test]
fn example_literal_lookup() {
    let input = "GGTATTTTAATTTATAGT";
    let n = count_literal(input, "GGT");
    assert_eq!(n, direct_count(input, "GGT"));
    assert_eq!(n, 1);
    assert_eq!(count_literal(input, "TTT"), 3);
    assert_eq!(count_literal(input, "GGTATTTTAATTTATAGT"), 1);
    assert_eq!(count_literal(input, "CCC"), 0);
}

#[test]
fn example_sequence_shorter_than_k() {
    let c = parallel_calculate("AC", 5, WORKERS);
    assert_eq!(c.len(), 0);
    assert!(frequency_rows(&c).is_empty());
    assert_eq!(window_total("AC", 5), 0);
    assert_eq!(count_literal("AC", "ACGTA"), 0);
    assert_eq!(calculate("", 1, 0, 1).len(), 0);
}

#[test]
fn interleaved_scans_equal_single_scan() {
    for k in 1..=6 {
        let base = entries(&calculate(SAMPLE, k, 0, 1));
        for workers in 1..=9 {
            assert_eq!(entries(&parallel_calculate(SAMPLE, k, workers)), base);
        }
    }
}

#[test]
fn counts_add_up_to_window_total() {
    for k in 1..=8 {
        let expected = window_total(SAMPLE, k) as u64;
        assert_eq!(sum(&calculate(SAMPLE, k, 0, 1)), expected);
        assert_eq!(sum(&parallel_calculate(SAMPLE, k, 3)), expected);
    }
    assert_eq!(sum(&parallel_calculate("AAAA", 1, 4)), 4);
}

#[test]
fn offsets_partition_positions() {
    let k = 3;
    let windows = window_total(SAMPLE, k) as u64;
    for workers in 1..=7 {
        let mut seen = 0u64;
        for w in 0..workers {
            let part = sum(&calculate(SAMPLE, k, w, workers));
            let expected = (0..windows).filter(|p| p % workers as u64 == w as u64).count() as u64;
            assert_eq!(part, expected);
            seen += part;
        }
        assert_eq!(seen, windows);
    }
}

#[test]
fn merge_adds_counts() {
    let mut a = calculate("ACGTACGT", 2, 0, 2);
    let b = calculate("ACGTACGT", 2, 1, 2);
    a.merge_into(&b);
    assert_eq!(entries(&a), entries(&calculate("ACGTACGT", 2, 0, 1)));
    let mut e = Counts::new();
    e.merge_into(&b);
    assert_eq!(entries(&e), entries(&b));
}

#[test]
fn rows_are_sorted_and_lookups_agree() {
    for k in 1..=4 {
        let c = parallel_calculate(SAMPLE, k, WORKERS);
        let rows = frequency_rows(&c);
        assert_eq!(rows.len(), c.len());
        for pair in rows.windows(2) {
            assert!(pair[0].1 >= pair[1].1);
        }
        let mut pct = 0.0f64;
        let total = window_total(SAMPLE, k) as f64;
        for (key, n) in &rows {
            let text = T { data: *key, size: k }.to_string();
            assert_eq!(count_literal(SAMPLE, &text), *n);
            assert_eq!(direct_count(SAMPLE, &text), *n);
            pct += 100.0 * (*n as f64) / total;
        }
        assert!((pct - 100.0).abs() < 1e-6);
    }
}

#[test]
fn frequency_table_rows_and_total() {
    let (rows, total) = frequency_table("ACACAC", 2);
    assert_eq!(total, 5);
    let shown: Vec<(String, String)> = rows
        .iter()
        .map(|(key, n)| {
            let pct = 100.0 * (*n as f64) / (total as f64);
            (T { data: *key, size: 2 }.to_string(), format!("{:.3}", pct))
        })
        .collect();
    assert_eq!(
        shown,
        vec![("AC".to_string(), "60.000".to_string()), ("CA".to_string(), "40.000".to_string())]
    );
    let (rows, total) = frequency_table("AAAA", 1);
    assert_eq!((rows, total), (vec![(0, 4)], 4));
    let (rows, total) = frequency_table("AC", 5);
    assert!(rows.is_empty());
    assert_eq!(total, 0);
    let (rows, total) = frequency_table(SAMPLE, 3);
    assert_eq!(rows.iter().map(|(_, n)| *n as usize).sum::<usize>(), total);
}
