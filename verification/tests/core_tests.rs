use miniz_oxide::dict::DictOxide;
use miniz_oxide::huffman::{HuffmanOxide, SymFreq};

#[test]
fn find_match_without_probes_returns_the_given_values() {
    let d = DictOxide::new(0);
    assert_eq!(d.max_probes, [1, 1]);
    assert_eq!(d.find_match(0, 0, 258, 0, 0), (0, 0));
    assert_eq!(d.find_match(5, 100, 258, 7, 2), (7, 2));
}

#[test]
fn find_match_takes_a_longer_match_at_the_first_chain_entry() {
    let mut d = DictOxide::new(128);
    for (k, &c) in b"abcdX".iter().enumerate() {
        d.b.dict[2 + k] = c;
    }
    for (k, &c) in b"abcdY".iter().enumerate() {
        d.b.dict[10 + k] = c;
    }
    d.b.next[10] = 2;
    assert_eq!(d.find_match(10, 32768, 258, 0, 2), (8, 4));
    // Not further back than allowed.
    assert_eq!(d.find_match(10, 7, 258, 0, 2), (0, 2));
    // Not longer than allowed.
    assert_eq!(d.find_match(10, 32768, 3, 0, 2), (8, 3));
}

#[test]
fn radix_sort_keeps_the_order_of_equal_keys() {
    let keys = [5u16, 300, 5, 2, 300, 5, 2];
    let symbols0: Vec<SymFreq> = keys.iter().enumerate().map(|(i, &k)| SymFreq { key: k, sym_index: i as u16 }).collect();
    let symbols1 = vec![SymFreq { key: 0, sym_index: 0 }; keys.len()];
    let r = HuffmanOxide::radix_sort_symbols(symbols0, symbols1);
    let got: Vec<(u16, u16)> = r.iter().map(|s| (s.key, s.sym_index)).collect();
    assert_eq!(got, vec![(2, 3), (2, 6), (5, 0), (5, 2), (5, 5), (300, 1), (300, 4)]);
}

#[test]
fn enforce_max_code_size_fills_the_code_space_exactly() {
    // Lengths 1, 2, 3, 4, 5, 5 limited to 3 bits.
    let mut num_codes = vec![0i32, 1, 1, 1, 1, 2];
    HuffmanOxide::enforce_max_code_size(&mut num_codes, 6, 3);
    assert_eq!(&num_codes[1..4], &[0, 2, 4]);
    let kraft: i32 = (1..4).map(|i| num_codes[i] << (3 - i)).sum();
    assert_eq!(kraft, 8);
}

#[test]
fn enforce_max_code_size_keeps_codes_that_fit() {
    let mut num_codes = vec![0i32, 1, 1, 2, 0];
    HuffmanOxide::enforce_max_code_size(&mut num_codes, 4, 3);
    assert_eq!(num_codes, vec![0, 1, 1, 2, 0]);
}

#[test]
fn minimum_redundancy_lengths_for_known_frequencies() {
    let mut symbols: Vec<SymFreq> = [1u16, 1, 2, 4].iter().enumerate().map(|(i, &k)| SymFreq { key: k, sym_index: i as u16 }).collect();
    HuffmanOxide::calculate_minimum_redundancy(&mut symbols);
    let lengths: Vec<u16> = symbols.iter().map(|s| s.key).collect();
    assert_eq!(lengths, vec![3, 3, 2, 1]);
    let mut one = vec![SymFreq { key: 9, sym_index: 0 }];
    HuffmanOxide::calculate_minimum_redundancy(&mut one);
    assert_eq!(one[0].key, 1);
}

#[test]
fn optimize_table_gives_shorter_codes_to_more_frequent_symbols() {
    let mut h = HuffmanOxide::default();
    h.count[576] = 1;
    h.count[577] = 1;
    h.count[578] = 2;
    h.count[579] = 4;
    h.optimize_table(2, 19, 7, false);
    assert_eq!(&h.code_sizes[576..580], &[3, 3, 2, 1]);
    assert!(h.code_sizes[580..576 + 19].iter().all(|&s| s == 0));
    assert_eq!(&h.codes[576..580], &[3, 7, 1, 0]);
    assert_eq!(&h.count[576..580], &[1, 1, 2, 4]);
}
