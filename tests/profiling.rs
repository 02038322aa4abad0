use unicore::profile::{profile, query_local_name, ProfileError};
use unicore::table::{parse_pairs, write_pairs};

fn members_text(members: &Vec<(String, String)>) -> String {
    write_pairs(members)
}

#[test]
fn single_and_multi_copy_species_with_half_threshold() {
    let mapping = "gA\tA\ngB\tB\ngC1\tC\ngC2\tC\ngD\tD\n";
    let hits = "q\tgA\nq\tgB\nq\tgC1\nq\tgC2\n";
    let p = profile(hits, mapping, 50).unwrap();
    assert_eq!(p.species_total, 4);
    assert_eq!(p.reports.len(), 1);
    let r = &p.reports[0];
    assert_eq!(r.query, "q");
    assert_eq!(r.single_copy, 2);
    assert_eq!(r.species_hit, 3);
    assert!(r.core);
    assert_eq!(r.members.len(), 2);
    assert_eq!(members_text(&r.members), "gA\tA\ngB\tB\n");
}

#[test]
fn end_to_end_two_queries_at_full_threshold() {
    let mapping = "g1\tspA\ng2\tspA\ng3\tspB\n";
    let hits = "q1\tg1\nq1\tg3\nq2\tg2\n";
    let p = profile(hits, mapping, 100).unwrap();
    assert_eq!(p.species_total, 2);
    assert_eq!(p.reports.len(), 2);
    let q1 = &p.reports[0];
    assert_eq!(q1.query, "q1");
    assert_eq!(q1.single_copy, 2);
    assert!(q1.core);
    assert_eq!(members_text(&q1.members), "g1\tspA\ng3\tspB\n");
    let q2 = &p.reports[1];
    assert_eq!(q2.query, "q2");
    assert_eq!(q2.single_copy, 1);
    assert!(!q2.core);
    assert_eq!(q2.members.len(), 1);
}

#[test]
fn profiling_twice_gives_identical_output() {
    let mapping = "g1\tspA\ng2\tspA\ng3\tspB\ng4\tspC\n";
    let hits = "q1\tg1\nq1\tg3\nq1\tg4\nq2\tg2\nq2\tg1\n";
    let a = profile(hits, mapping, 60).unwrap();
    let b = profile(hits, mapping, 60).unwrap();
    assert_eq!(a.reports.len(), b.reports.len());
    for i in 0..a.reports.len() {
        assert_eq!(a.reports[i].query, b.reports[i].query);
        assert_eq!(a.reports[i].core, b.reports[i].core);
        assert_eq!(members_text(&a.reports[i].members), members_text(&b.reports[i].members));
    }
}

#[test]
fn unmapped_targets_are_not_counted() {
    let mapping = "g1\tspA\ng2\tspB\n";
    let hits = "q1\tg1\nq1\tunknown\nq1\tg2\n";
    let p = profile(hits, mapping, 100).unwrap();
    assert_eq!(p.reports[0].single_copy, 2);
    assert!(p.reports[0].core);
}

#[test]
fn gene_shared_by_two_species_counts_for_both() {
    let mapping = "h\tspA\nh\tspB\ng\tspB\n";
    let hits = "q\th\nq\tg\n";
    let p = profile(hits, mapping, 0).unwrap();
    let r = &p.reports[0];
    assert_eq!(r.species_hit, 2);
    assert_eq!(r.single_copy, 1);
    assert_eq!(members_text(&r.members), "h\tspA\n");
}

#[test]
fn groups_are_runs_of_equal_queries() {
    let mapping = "g1\tspA\n";
    let hits = "q1\tg1\nq2\tg1\nq1\tg1\n";
    let p = profile(hits, mapping, 100).unwrap();
    assert_eq!(p.reports.len(), 3);
    assert_eq!(p.reports[0].query, "q1");
    assert_eq!(p.reports[1].query, "q2");
    assert_eq!(p.reports[2].query, "q1");
}

#[test]
fn low_coverage_species_are_listed() {
    let mapping = "a1\tA\na2\tA\nb1\tB\n";
    let hits = "q1\ta1\nq1\tb1\nq2\ta2\nq3\ta1\n";
    let p = profile(hits, mapping, 50).unwrap();
    assert!(p.reports.iter().all(|r| r.core));
    assert_eq!(p.low_coverage.len(), 1);
    assert_eq!(p.low_coverage[0].0, "B");
    assert_eq!(p.low_coverage[0].1, 1);
}

#[test]
fn malformed_mapping_line_is_reported() {
    let r = profile("q\tg\n", "g1\tA\ng2\n", 50);
    match r {
        Err(ProfileError::Mapping(e)) => assert_eq!(e.line, 2),
        _ => panic!("expected a mapping error"),
    }
}

#[test]
fn malformed_hit_line_is_reported() {
    let r = profile("q\tg1\n\n", "g1\tA\n", 50);
    match r {
        Err(ProfileError::Hits(e)) => assert_eq!(e.line, 2),
        _ => panic!("expected a hit table error"),
    }
}

#[test]
fn pairs_keep_the_first_two_columns() {
    let v = parse_pairs("a b c\n  x\ty  \n").unwrap();
    assert_eq!(v, vec![("a".to_string(), "b".to_string()), ("x".to_string(), "y".to_string())]);
}

#[test]
fn membership_file_names_use_the_second_dash_piece() {
    assert_eq!(query_local_name(&"AF-P12345-F1-model_v4".to_string()), "P12345");
    assert_eq!(query_local_name(&"unicore_0a1b2c3d4e".to_string()), "unicore_0a1b2c3d4e");
    assert_eq!(query_local_name(&"a-".to_string()), "");
}
