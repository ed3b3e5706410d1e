use knucleotide::histogram::calculate;

#[test]
fn symbol_histogram_counts_each_symbol() {
    let c = calculate("GATTACA".to_string(), 1);
    assert_eq!(c.len(), 4);
    assert_eq!(c.get(b'A' as u64), 3);
    assert_eq!(c.get(b'T' as u64), 2);
    assert_eq!(c.get(b'G' as u64), 1);
    assert_eq!(c.get(b'C' as u64), 1);
    assert_eq!(c.get(b'N' as u64), 0);
    assert_eq!(calculate(String::new(), 1).len(), 0);
}

#[test]
fn symbol_histogram_counts_characters_not_bytes() {
    let c = calculate("\u{e9}A\u{e9}".to_string(), 4);
    assert_eq!(c.len(), 2);
    assert_eq!(c.get('\u{e9}' as u64), 2);
    assert_eq!(c.get('A' as u64), 1);
    assert_eq!(c.get(0xc3), 0);
}
