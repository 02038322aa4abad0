use unicore::config::{Binary, BinaryPaths};
use unicore::genefasta::{gene_fasta, read_db, GeneFastaError, SequenceDb};
use unicore::messages::{build_message, warning, ERR_ARGPARSE, ERR_OUTPUT_EXISTS, WRN_GENERAL};
use unicore::settings::{set_threads, thread_count, threshold_in_range};
use unicore::workflow::{run, Stage, Workflow};

#[test]
fn test_load_config() {
    let mut bin = BinaryPaths::new();
    bin.apply_config("# comment\nfoldseek=/opt/foldseek/bin/foldseek\nmafft=\nunknown=/x\n");
    let f = bin.get("foldseek").unwrap();
    assert_eq!(f.path(), "/opt/foldseek/bin/foldseek");
    assert!(f.is_set());
    let m = bin.get("mafft").unwrap();
    assert_eq!(m.path, "mafft");
    assert!(!m.set);
    assert!(bin.get("unknown").is_none());
}

#[test]
fn binaries_start_with_their_own_names() {
    let bin = BinaryPaths::new();
    for name in ["mmseqs", "foldseek", "mafft", "mafft-linsi", "foldmason", "iqtree", "fasttree", "raxml-ng"] {
        let b = bin.get(name).unwrap();
        assert_eq!(b.path, name);
        assert_eq!(b.name(), name);
        assert!(!b.set);
    }
    assert!(bin.get("raxml").is_none());
    let b = Binary::new("x", "/y");
    assert_eq!(b.path(), "/y");
    assert!(!b.is_set());
}

#[test]
fn setting_a_path_keeps_the_flag() {
    let mut bin = BinaryPaths::new();
    bin.set("iqtree", "/usr/bin/iqtree2");
    bin.set("nothing", "/z");
    let b = bin.get("iqtree").unwrap();
    assert_eq!(b.path, "/usr/bin/iqtree2");
    assert!(!b.set);
}

#[test]
fn messages_name_their_kind() {
    assert_eq!(build_message(WRN_GENERAL, Some("x".to_string())), "Warning: x");
    assert_eq!(build_message(ERR_ARGPARSE, None), "Argument parsing error: ");
    assert_eq!(build_message(ERR_OUTPUT_EXISTS, Some("o".to_string())), "Output file already exists: o; use -o to overwrite");
    assert_eq!(build_message(0x99, Some("o".to_string())), "Unknown error");
}

#[test]
fn warnings_follow_verbosity() {
    assert_eq!(warning(WRN_GENERAL, Some("w".to_string()), 2), Some("Warning: w".to_string()));
    assert_eq!(warning(WRN_GENERAL, Some("w".to_string()), 1), None);
}

#[test]
fn thresholds_are_read_in_range() {
    assert_eq!(threshold_in_range("50"), Ok(50));
    assert_eq!(threshold_in_range("+100"), Ok(100));
    assert_eq!(threshold_in_range("0"), Ok(0));
    assert_eq!(threshold_in_range("101"), Err("Threshold `101` is not in range 0 to 100".to_string()));
    assert_eq!(threshold_in_range("abc"), Err("Not a number".to_string()));
    assert_eq!(threshold_in_range(""), Err("Not a number".to_string()));
    assert_eq!(threshold_in_range("-1"), Err("Not a number".to_string()));
    assert_eq!(threshold_in_range("99999999999999999999999"), Err("Not a number".to_string()));
}

#[test]
fn thread_count_is_bounded_by_cpus() {
    assert_eq!(thread_count(0, 8), 8);
    assert_eq!(thread_count(16, 8), 8);
    assert_eq!(thread_count(4, 8), 4);
    assert!(set_threads(0) >= 1);
    assert!(set_threads(1) == 1);
}

#[test]
fn workflow_skips_finished_stages() {
    let none: Vec<Option<String>> = vec![None, None, None, None];
    assert_eq!(run(Workflow::EasyCore, &none, false), vec![Stage::Createdb, Stage::Cluster, Stage::Profile, Stage::Tree]);
    let done = vec![Some("1".to_string()), Some("1".to_string()), Some("0".to_string()), Some("1".to_string())];
    assert_eq!(run(Workflow::EasySearch, &done, false), vec![Stage::Profile]);
    assert_eq!(run(Workflow::EasySearch, &done, true), vec![Stage::Createdb, Stage::Profile]);
    let zero = vec![Some("0".to_string()), None, Some("1".to_string()), None];
    assert_eq!(run(Workflow::EasyCore, &zero, false), vec![Stage::Createdb, Stage::Cluster, Stage::Tree]);
}

#[test]
fn database_entries_drop_nul_and_empty_lines() {
    assert_eq!(read_db("a\n\u{0}b\n\n\u{0}\nc"), vec!["a".to_string(), "b".to_string(), "c".to_string()]);
}

#[test]
fn gene_fasta_collects_members() {
    let db = SequenceDb::new(
        vec!["n1".to_string(), "n2".to_string(), "n1".to_string()],
        vec!["AAA".to_string(), "CCC".to_string(), "GGG".to_string()],
        vec!["aaa".to_string(), "ccc".to_string(), "ggg".to_string()],
    ).unwrap();
    let (aa, di) = gene_fasta(&db, "n1\tspA\nn2 spB\n").unwrap();
    assert_eq!(aa, ">spA\nGGG\n>spB\nCCC\n");
    assert_eq!(di, ">spA\nggg\n>spB\nccc\n");
    match gene_fasta(&db, "n1\tspA\nn3\tspC\n") {
        Err(GeneFastaError::NotFound(2, name)) => assert_eq!(name, "n3"),
        _ => panic!("expected a missing sequence"),
    }
    match gene_fasta(&db, "n1 spA extra\n") {
        Err(GeneFastaError::InvalidLine(1)) => {}
        _ => panic!("expected an invalid line"),
    }
    match SequenceDb::new(vec!["n".to_string()], vec![], vec![]) {
        Err(GeneFastaError::LengthMismatch) => {}
        _ => panic!("expected a length mismatch"),
    }
}
