use bextract::fasta::{ExtractError, Fasta};
use bextract::report::{
    blast_hits_from_lines, find_hit_starts, find_zone_line_indices, partition_hit_starts,
    partition_zones, process_zone, BlastHits, HitField, ReportError,
};
use bextract::score::{parse_score, Score};

fn lines(text: &[&str]) -> Vec<String> {
    text.iter().map(|l| l.to_string()).collect()
}

fn parse(text: &[&str]) -> Result<BlastHits, ReportError> {
    blast_hits_from_lines(&lines(text))
}

fn score(text: &str) -> Score {
    parse_score(&text.chars().collect()).unwrap()
}

#[test]
fn end_to_end_single_hit() {
    let report = parse(&[
        "Query= Q1",
        "> NODE_1",
        "Score = 100 bits, Expect = 2e-5",
        "Sbjct 10 ACGT 13",
    ])
    .unwrap();
    let zones = report.get_hit_zones();
    assert_eq!(zones.len(), 1);
    assert_eq!(zones[0].get_query(), "Query= Q1");
    let hits = zones[0].get_hits();
    assert_eq!(hits.len(), 1);
    assert_eq!(hits[0].get_record_ref(), "NODE_1");
    assert_eq!(hits[0].get_evalue(), Score { mantissa: 2, exponent: -5 });
    assert_eq!(hits[0].get_subject_bounds(), (10, 13));

    let mut store = Fasta::new();
    let seq: Vec<u8> = (0..50u8).collect();
    store.insert("NODE_1".to_string(), seq.clone());
    let window = store
        .extract_sequence(hits[0].get_record_ref(), hits[0].get_subject_bounds(), 2)
        .unwrap();
    assert_eq!(window, seq[8..15].to_vec());
}

#[test]
fn zone_count_matches_query_lines() {
    let text = [
        "header",
        "Query= A",
        "x",
        "Query= B",
        "Query= C",
        "y",
        "z",
    ];
    let ls = lines(&text);
    let starts = find_zone_line_indices(&ls);
    assert_eq!(starts, vec![1, 3, 4]);
    let zones = partition_zones(starts, ls.len()).unwrap();
    assert_eq!(zones, vec![(1, 2), (3, 3), (4, 6)]);
    let report = parse(&text).unwrap();
    let queries: Vec<&str> = report.get_hit_zones().iter().map(|z| z.get_query()).collect();
    assert_eq!(queries, vec!["Query= A", "Query= B", "Query= C"]);
}

#[test]
fn no_query_line_is_malformed() {
    assert_eq!(parse(&["> NODE_1", "Sbjct 1 A 2"]).err(), Some(ReportError::MalformedReport));
    assert_eq!(parse(&[]).err(), Some(ReportError::MalformedReport));
    assert_eq!(partition_zones(vec![], 4), Err(ReportError::MalformedReport));
}

#[test]
fn zone_without_hits_is_empty() {
    let report = parse(&["Query= A", "no hits found", "Query= B"]).unwrap();
    let zones = report.get_hit_zones();
    assert_eq!(zones.len(), 2);
    assert!(zones[0].get_hits().is_empty());
    assert!(zones[1].get_hits().is_empty());
}

#[test]
fn hit_count_matches_hit_lines() {
    let text = [
        "Query= A",
        "> NODE_1 x",
        " Score = 50 bits (25),  Expect = 0.001",
        "Sbjct  1  ACGT  4",
        "> NODE_2",
        " Score = 40 bits (20),  Expect = 1e-3",
        "Sbjct  7  ACGT  10",
        "Sbjct  11  ACGT  14",
        "> NODE_3",
        " Score = 10 bits (5),  Expect = 5.0",
        "Sbjct  20  AC  19",
    ];
    let ls = lines(&text);
    let starts = find_hit_starts(&ls, (0, 10));
    assert_eq!(starts, vec![1, 4, 8]);
    assert_eq!(partition_hit_starts(starts, 10), vec![(1, 3), (4, 7), (8, 10)]);
    let zone = process_zone(&ls, (0, 10)).unwrap();
    let hits = zone.get_hits();
    assert_eq!(hits.len(), 3);
    assert_eq!(hits[0].get_record_ref(), "NODE_1 x");
    assert_eq!(hits[1].get_subject_bounds(), (7, 10));
    assert_eq!(hits[2].get_subject_bounds(), (20, 19));
    assert_eq!(hits[0].get_evalue(), Score { mantissa: 1, exponent: -3 });
    assert_eq!(hits[2].get_evalue(), Score { mantissa: 50, exponent: -1 });
}

#[test]
fn synthetic_report_round_trip() {
    let triples = [
        ("NODE_7_length_100", "3e-20", (5usize, 80usize)),
        ("NODE_8", "0.5", (0, 0)),
        ("NODE_9_cov_2", "12", (44, 12)),
    ];
    let mut text: Vec<String> = vec!["Query= contig".to_string()];
    for (id, sc, (l, r)) in triples.iter() {
        text.push(format!("> {}", id));
        text.push(format!(" Score = 1 bits (1),  Expect = {}", sc));
        text.push(" Identities = 4/4 (100%)".to_string());
        text.push(format!("Sbjct  {}  ACGT  {}", l, r));
    }
    text.push("Query= other".to_string());
    let report = blast_hits_from_lines(&text).unwrap();
    let hits = report.get_hit_zones()[0].get_hits();
    assert_eq!(hits.len(), triples.len());
    for (hit, (id, sc, bounds)) in hits.iter().zip(triples.iter()) {
        assert_eq!(hit.get_record_ref(), *id);
        assert_eq!(hit.get_evalue(), score(sc));
        assert_eq!(hit.get_subject_bounds(), *bounds);
    }
    assert!(report.get_hit_zones()[1].get_hits().is_empty());
}

#[test]
fn threshold_keeps_only_small_scores() {
    let report = parse(&[
        "Query= A",
        "> NODE_1",
        "Score = 1 bits, Expect = 1e-10",
        "Sbjct 1 A 1",
        "> NODE_2",
        "Score = 1 bits, Expect = 1e-3",
        "Sbjct 1 A 1",
        "> NODE_3",
        "Score = 1 bits, Expect = 5.0",
        "Sbjct 1 A 1",
    ])
    .unwrap();
    let zone = &report.get_hit_zones()[0];
    assert_eq!(zone.hits_within(&score("1e-4")), vec![0]);
    assert_eq!(zone.hits_within(&score("1e-3")), vec![0, 1]);
    assert_eq!(zone.hits_within(&score("5")), vec![0, 1, 2]);
    assert_eq!(zone.hits_within(&score("0")), Vec::<usize>::new());
}

#[test]
fn missing_subject_line_names_the_hit() {
    let err = parse(&[
        "Query= A",
        "> NODE_1",
        "Score = 1 bits, Expect = 2e-5",
        "no subject here",
    ])
    .err();
    assert_eq!(
        err,
        Some(ReportError::MissingField {
            field: HitField::SubjectBounds,
            first_line: 1,
            last_line: 3,
        })
    );
}

#[test]
fn missing_statistics_line_names_the_hit() {
    let err = parse(&["Query= A", "x", "> NODE_1", "Sbjct 1 A 2", "Query= B"]).err();
    assert_eq!(
        err,
        Some(ReportError::MissingField {
            field: HitField::Significance,
            first_line: 2,
            last_line: 3,
        })
    );
}

#[test]
fn unreadable_score_is_a_parse_error() {
    let err = parse(&["Query= A", "> NODE_1", "Score = 1 bits, Expect = lots", "Sbjct 1 A 2"])
        .err();
    assert_eq!(
        err,
        Some(ReportError::ParseError {
            field: HitField::Significance,
            first_line: 1,
            last_line: 3,
        })
    );
    let no_comma = parse(&["Query= A", "> NODE_1", "Expect = 1", "Sbjct 1 A 2"]).err();
    assert!(matches!(
        no_comma,
        Some(ReportError::ParseError { field: HitField::Significance, .. })
    ));
}

#[test]
fn unreadable_bounds_are_a_parse_error() {
    let err = parse(&["Query= A", "> NODE_1", "Score = 1 bits, Expect = 1", "Sbjct x A 2"]).err();
    assert_eq!(
        err,
        Some(ReportError::ParseError {
            field: HitField::SubjectBounds,
            first_line: 1,
            last_line: 3,
        })
    );
    let short = parse(&["Query= A", "> NODE_1", "Score = 1 bits, Expect = 1", "Sbjct 1 A"]).err();
    assert!(matches!(
        short,
        Some(ReportError::ParseError { field: HitField::SubjectBounds, .. })
    ));
}

#[test]
fn first_error_in_report_order_wins() {
    let err = parse(&[
        "Query= A",
        "> NODE_1",
        "Sbjct 1 A 2",
        "Query= B",
        "> NODE_2",
        "Score = 1 bits, Expect = 1",
    ])
    .err();
    assert_eq!(
        err,
        Some(ReportError::MissingField {
            field: HitField::Significance,
            first_line: 1,
            last_line: 2,
        })
    );
}

#[test]
fn empty_stored_sequence_is_reported() {
    let mut store = Fasta::new();
    store.insert("NODE_1".to_string(), vec![]);
    assert_eq!(store.extract_sequence("NODE_1", (0, 0), 3), Err(ExtractError::EmptySequence));
}

#[test]
fn absent_record_is_reported() {
    let mut store = Fasta::new();
    store.insert("NODE_1".to_string(), b"ACGT".to_vec());
    assert_eq!(store.extract_sequence("NODE_2", (0, 1), 0), Err(ExtractError::MissingRecord));
}

#[test]
fn window_past_the_end_is_out_of_range() {
    let mut store = Fasta::new();
    store.insert("N".to_string(), b"ACGT".to_vec());
    assert_eq!(store.extract_sequence("N", (9, 12), 1), Err(ExtractError::OutOfRange));
}

#[test]
fn window_is_clamped_at_both_ends() {
    let mut store = Fasta::new();
    store.insert("N".to_string(), b"ACGTACGTAC".to_vec());
    assert_eq!(store.extract_sequence("N", (1, 8), 3).unwrap(), b"ACGTACGTA".to_vec());
    assert_eq!(store.extract_sequence("N", (4, 5), 1).unwrap(), b"TAC".to_vec());
    assert_eq!(store.extract_sequence("N", (4, 5), 0).unwrap(), b"A".to_vec());
    assert_eq!(store.extract_sequence("N", (0, 9), usize::MAX).unwrap(), b"ACGTACGTA".to_vec());
}

#[test]
fn later_insertion_replaces_earlier() {
    let mut store = Fasta::new();
    store.insert("N".to_string(), b"AAAA".to_vec());
    store.insert("M".to_string(), b"CCCC".to_vec());
    store.insert("N".to_string(), b"GGGG".to_vec());
    assert_eq!(store.extract_sequence("N", (0, 3), 0).unwrap(), b"GGG".to_vec());
    assert_eq!(store.extract_sequence("M", (0, 3), 0).unwrap(), b"CCC".to_vec());
}

#[test]
fn many_zones_keep_report_order() {
    let mut text: Vec<String> = vec!["BLASTN header".to_string()];
    for q in 0..200usize {
        text.push(format!("Query= q{}", q));
        for h in 0..(q % 3) {
            text.push(format!("> NODE_{}_{}", q, h));
            text.push(format!(" Score = 9 bits (4),  Expect = {}e-{}", h + 1, q));
            text.push(format!("Sbjct  {}  ACGT  {}", q, q + h));
        }
    }
    let report = blast_hits_from_lines(&text).unwrap();
    let zones = report.get_hit_zones();
    assert_eq!(zones.len(), 200);
    for (q, zone) in zones.iter().enumerate() {
        assert_eq!(zone.get_query(), format!("Query= q{}", q));
        let hits = zone.get_hits();
        assert_eq!(hits.len(), q % 3);
        for (h, hit) in hits.iter().enumerate() {
            assert_eq!(hit.get_record_ref(), format!("NODE_{}_{}", q, h));
            assert_eq!(hit.get_evalue(), Score { mantissa: h as u64 + 1, exponent: -(q as i64) });
            assert_eq!(hit.get_subject_bounds(), (q, q + h));
        }
    }
}

#[test]
fn statistics_field_without_equals_is_a_parse_error() {
    let err = parse(&["Query= A", "> NODE_1", "Score = 1 bits, Expect 2e-5", "Sbjct 1 A 2"]).err();
    assert_eq!(
        err,
        Some(ReportError::ParseError {
            field: HitField::Significance,
            first_line: 1,
            last_line: 3,
        })
    );
}
