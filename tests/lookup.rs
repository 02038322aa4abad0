use unicore::database::{hashed_sequence_name, need_replacement, sanitize, Proteome};
use unicore::fasta::FastaStore;
use unicore::lookup::{hex_byte, parse_digest_text, resolve_bucket, split_into_buckets, LookupTable};

#[test]
fn sequences_fall_in_the_bucket_of_their_digest() {
    let s = FastaStore::parse(">p\nMKV\n>q\nACDEFGHIK\n");
    let b = split_into_buckets(&s);
    assert_eq!(b.len(), 256);
    assert_eq!(b[0xef].len(), 1);
    assert_eq!(b[0xef][0].id, "p");
    assert_eq!(b[0xef][0].key, 0xef9febfad944643968500c251e82ce93);
    assert_eq!(b[0x2f].len(), 1);
    assert_eq!(b[0x2f][0].key, 0x2fff73d1b559fc315607047757ff0f53);
    let total: usize = b.iter().map(|x| x.len()).sum();
    assert_eq!(total, 2);
}

#[test]
fn found_and_missing_partition_a_bucket() {
    let s = FastaStore::parse(">p\nMKV\n>r\nMKV\n>q\nACDEFGHIK\n");
    let b = split_into_buckets(&s);
    let t = LookupTable::parse("ef9febfad944643968500c251e82ce93\tddd\nnot-a-digest\tx\n").unwrap();
    let r = resolve_bucket(&b[0xef], &t);
    assert_eq!(r.found, vec![("p".to_string(), "MKV".to_string()), ("r".to_string(), "MKV".to_string())]);
    assert_eq!(r.converted, vec![("p".to_string(), "ddd".to_string()), ("r".to_string(), "ddd".to_string())]);
    assert!(r.missing.is_empty());
    let empty = LookupTable::parse("").unwrap();
    let r2 = resolve_bucket(&b[0x2f], &empty);
    assert!(r2.found.is_empty());
    assert_eq!(r2.missing, vec![("q".to_string(), "ACDEFGHIK".to_string())]);
}

#[test]
fn later_table_lines_win() {
    let t = LookupTable::parse("00000000000000000000000000000001\ta\n00000000000000000000000000000001\tb\n").unwrap();
    assert_eq!(t.get(1).unwrap(), "b");
    assert!(t.get(2).is_none());
}

#[test]
fn table_line_without_tab_is_an_error() {
    match LookupTable::parse("00000000000000000000000000000001\ta\nbroken\n") {
        Err(e) => assert_eq!(e.line, 2),
        Ok(_) => panic!("expected an error"),
    }
}

#[test]
fn digest_texts_are_lowercase_hex_of_32_digits() {
    let ok: Vec<char> = "ffffffffffffffffffffffffffffffff".chars().collect();
    assert_eq!(parse_digest_text(&ok), Some(u128::MAX));
    let upper: Vec<char> = "FFFFFFFFFFFFFFFFFFFFFFFFFFFFFFFF".chars().collect();
    assert_eq!(parse_digest_text(&upper), None);
    let short: Vec<char> = "ff".chars().collect();
    assert_eq!(parse_digest_text(&short), None);
}

#[test]
fn bucket_names_are_two_hex_digits() {
    assert_eq!(hex_byte(0), "00");
    assert_eq!(hex_byte(0xa7), "a7");
    assert_eq!(hex_byte(255), "ff");
}

#[test]
fn stored_names_come_from_the_sequence_digest() {
    assert_eq!(hashed_sequence_name(&"MKV".to_string()), "unicore_bc5a0dfbf3");
    assert_eq!(hashed_sequence_name(&"ACDEFGHIK".to_string()), "unicore_86a3476217");
}

#[test]
fn names_are_sanitized() {
    assert!(need_replacement(' '));
    assert!(need_replacement('('));
    assert!(!need_replacement('A'));
    assert_eq!(sanitize(&"sp|Q9 (x);y".to_string()), "sp|Q9__x__y");
}

#[test]
fn proteome_keeps_filters_and_maps_records() {
    let recs = FastaStore::parse(">a b\nMKV\n>short\nM\n>long\nACDEFGHIK\n>dup\nMKV\n");
    let mut p = Proteome::new();
    p.add_species(&"sp1".to_string(), &recs, Some(5));
    assert_eq!(p.sequences.len(), 1);
    assert_eq!(p.sequences.id(0), "unicore_bc5a0dfbf3");
    assert_eq!(p.too_short, vec!["short".to_string()]);
    assert_eq!(p.mapping_text(), "unicore_bc5a0dfbf3\tsp1\ta_b\nunicore_bc5a0dfbf3\tsp1\tdup\n");
}
