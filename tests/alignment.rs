use unicore::combine::{combine, combine_fasta, uneven_rows, width_of_block};
use unicore::fasta::FastaStore;
use unicore::filter::filter_columns;

fn rows(s: &FastaStore) -> Vec<(String, String)> {
    (0..s.len()).map(|i| (s.id(i).clone(), s.sequence(i).clone())).collect()
}

#[test]
fn fasta_text_is_read_and_written() {
    let s = FastaStore::parse(">a desc \nAC\nGT\n>b\n\nT T\n>a desc \nGG\n>c\nAC\nGT\n");
    assert_eq!(s.len(), 3);
    assert_eq!(rows(&s), vec![
        ("a desc ".to_string(), "GG".to_string()),
        ("b".to_string(), "T T".to_string()),
        ("c".to_string(), "ACGT".to_string()),
    ]);
    assert_eq!(s.to_text(), ">a desc \nGG\n>b\nT T\n>c\nACGT\n");
}

#[test]
fn written_records_read_back_unchanged() {
    let mut s = FastaStore::new();
    s.insert("x y".to_string(), "A C".to_string());
    s.insert(" z".to_string(), "".to_string());
    s.insert("w".to_string(), " -G- ".to_string());
    let back = FastaStore::parse(&s.to_text());
    assert_eq!(rows(&back), rows(&s));
}

#[test]
fn trimmed_reading_drops_spaces_at_both_ends() {
    let s = FastaStore::parse_trimmed(">  a \n A C \n G\n");
    assert_eq!(rows(&s), vec![("a".to_string(), "A CG".to_string())]);
}

#[test]
fn consolidation_trims_headers() {
    let texts = vec!["> A\nAC\n".to_string(), ">A \nG\n".to_string()];
    assert_eq!(combine_fasta(&texts), ">A\nACG\n");
}

#[test]
fn text_before_the_first_header_is_ignored() {
    let s = FastaStore::parse("ACGT\n>x\nA\r\n");
    assert_eq!(rows(&s), vec![("x".to_string(), "A".to_string())]);
}

#[test]
fn filter_keeps_columns_at_or_above_threshold() {
    let msa = FastaStore::parse(">s1\nA-C-\n>s2\nA--G\n>s3\n-B--\n>s4\nAB--\n");
    let out = filter_columns(&msa, 50);
    assert_eq!(rows(&out), vec![
        ("s1".to_string(), "A-".to_string()),
        ("s2".to_string(), "A-".to_string()),
        ("s3".to_string(), "-B".to_string()),
        ("s4".to_string(), "AB".to_string()),
    ]);
}

#[test]
fn filter_threshold_boundaries() {
    let msa = FastaStore::parse(">s1\nA-\n>s2\n--\n>s3\n--\n");
    assert_eq!(rows(&filter_columns(&msa, 34)), vec![
        ("s1".to_string(), "".to_string()),
        ("s2".to_string(), "".to_string()),
        ("s3".to_string(), "".to_string()),
    ]);
    assert_eq!(rows(&filter_columns(&msa, 33)), vec![
        ("s1".to_string(), "A".to_string()),
        ("s2".to_string(), "-".to_string()),
        ("s3".to_string(), "-".to_string()),
    ]);
    assert_eq!(rows(&filter_columns(&msa, 0)).len(), 3);
    assert_eq!(rows(&filter_columns(&msa, 0))[0].1, "A-");
}

#[test]
fn filter_keeps_row_order_and_headers() {
    let msa = FastaStore::parse(">z\nAA\n>a\n-A\n>m\nA-\n");
    let out = filter_columns(&msa, 100);
    let ids: Vec<String> = rows(&out).into_iter().map(|r| r.0).collect();
    assert_eq!(ids, vec!["z", "a", "m"]);
    assert_eq!(out.sequence(0), "");
}

#[test]
fn filter_of_empty_alignment_is_empty() {
    let msa = FastaStore::new();
    assert_eq!(filter_columns(&msa, 50).len(), 0);
}

#[test]
fn supermatrix_pads_absent_taxa() {
    let texts = vec![
        ">t1\nAAA\n>t2\nCCC\n".to_string(),
        ">t2\nGG\n>t3\nTT\n".to_string(),
    ];
    let out = combine_fasta(&texts);
    assert_eq!(out, ">t1\nAAA--\n>t2\nCCCGG\n>t3\n---TT\n");
}

#[test]
fn supermatrix_rows_have_total_width() {
    let blocks = vec![
        FastaStore::parse(">a\nAC\n>b\nA-\n"),
        FastaStore::parse(">c\nGGGG\n"),
        FastaStore::parse(">b\nT\n>a\nT\n"),
    ];
    let m = combine(&blocks);
    assert_eq!(m.len(), 3);
    for i in 0..m.len() {
        assert_eq!(m.sequence(i).len(), 2 + 4 + 1);
    }
    assert_eq!(m.sequence(2), "--GGGG-");
}

#[test]
fn ragged_block_is_padded_and_reported() {
    let b = FastaStore::parse(">a\nACGT\n>b\nAC\n");
    assert_eq!(width_of_block(&b), 4);
    assert_eq!(uneven_rows(&b), vec!["b".to_string()]);
    let m = combine(&vec![b]);
    assert_eq!(m.sequence(1), "AC--");
}

#[test]
fn consolidating_twice_gives_the_same_text() {
    let texts = vec![">x\nA-\n>y\nAA\n".to_string(), ">y\nC\n".to_string()];
    assert_eq!(combine_fasta(&texts), combine_fasta(&texts));
}

#[test]
fn consolidating_nothing_gives_nothing() {
    assert_eq!(combine_fasta(&Vec::new()), "");
}
