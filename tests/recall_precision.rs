use accurity::parse::{
    parse_milli, parse_predicted_line, parse_truth_line, parse_u64, read_from_accurity_result,
    read_from_actual_result, split_fields, LineError, ParseError,
};
use accurity::recall_precision::RecallPrecision;
use accurity::reconcile::{call_recall_and_precision, max, min, sum_of_area, Concordance, ReconcileError};
use accurity::segments::{GenomicSegments, Segment};

fn set_of(segs: &[(u32, u64, u64, u64)]) -> GenomicSegments {
    let mut gs = GenomicSegments::new();
    for &(c, s, e, cn) in segs {
        gs.add(Segment::new(c, s, e, cn));
    }
    gs
}

fn score(k: &Concordance) -> f64 {
    let mut total = 0.0;
    for c in 0..22 {
        for s in k.overlap.bucket(c) {
            total += (s.end - s.start + 1) as f64 * (-(s.copy_number as f64) / 1000.0).exp();
        }
    }
    total
}

fn lines(text: &str) -> Vec<Vec<u8>> {
    text.lines().map(|l| l.as_bytes().to_vec()).collect()
}

#[test]
fn example_recall_precision() {
    let truth = set_of(&[(1, 100, 200, 3000)]);
    let predicted = set_of(&[(1, 150, 250, 3000)]);
    let k = call_recall_and_precision(&truth, &predicted).unwrap();
    assert_eq!(k.overlap.bucket(0), &vec![Segment::new(1, 150, 200, 0)]);
    assert_eq!(k.truth_area, 101);
    assert_eq!(k.predicted_area, 101);
    let s = score(&k);
    assert_eq!(s, 51.0);
    let recall = s / k.truth_area as f64;
    let precision = s / k.predicted_area as f64;
    assert_eq!(format!("{:.6}", recall), "0.504950");
    assert_eq!(format!("{:.6}", precision), "0.504950");
}

#[test]
fn example_from_files() {
    let truth = read_from_actual_result(&lines("chr\tstart\tend\tcn\tx\nchr1\t100\t200\t3\tx\n")).unwrap();
    let predicted = read_from_accurity_result(&lines(
        "header\n#comment\n1\ta\tb\t3.0\t.\t.\t.\t.\t.\t.\t150\t250\n1\ta\tb\t2.0\t.\t.\t.\t.\t.\t.\t300\t400\n",
    ))
    .unwrap();
    assert_eq!(truth.bucket(0), &vec![Segment::new(1, 100, 200, 3000)]);
    assert_eq!(predicted.bucket(0), &vec![Segment::new(1, 150, 250, 3000)]);
    let k = call_recall_and_precision(&truth, &predicted).unwrap();
    assert_eq!(format!("{:.6}", score(&k) / k.truth_area as f64), "0.504950");
}

#[test]
fn copy_number_difference_weighs_overlap() {
    let truth = set_of(&[(2, 1, 10, 3000)]);
    let predicted = set_of(&[(2, 1, 10, 1000)]);
    let k = call_recall_and_precision(&truth, &predicted).unwrap();
    assert_eq!(k.overlap.bucket(1), &vec![Segment::new(2, 1, 10, 2000)]);
    let expected = 10.0 * (-2.0f64).exp();
    assert!((score(&k) - expected).abs() < 1e-9);
}

#[test]
fn pair_overlap_emits_one_segment_when_touching() {
    let a = set_of(&[(3, 100, 200, 1000)]);
    let b = set_of(&[(3, 200, 300, 4000)]);
    let o = a.overlap_with(&b);
    assert_eq!(o.bucket(2), &vec![Segment::new(3, 200, 200, 3000)]);
}

#[test]
fn pair_overlap_emits_nothing_when_apart() {
    let a = set_of(&[(3, 100, 199, 1000)]);
    let b = set_of(&[(3, 200, 300, 1000)]);
    let o = a.overlap_with(&b);
    assert!(o.bucket(2).is_empty());
}

#[test]
fn overlap_only_within_one_chromosome() {
    let a = set_of(&[(3, 100, 200, 1000)]);
    let b = set_of(&[(4, 100, 200, 1000)]);
    let o = a.overlap_with(&b);
    for c in 0..22 {
        assert!(o.bucket(c).is_empty());
    }
}

#[test]
fn overlap_counts_every_pair() {
    let a = set_of(&[(1, 1, 100, 2000), (1, 201, 300, 2000)]);
    let b = set_of(&[(1, 50, 250, 3000)]);
    let o = a.overlap_with(&b);
    let mut got = o.bucket(0).clone();
    got.sort_by_key(|s| s.start);
    assert_eq!(got, vec![Segment::new(1, 50, 100, 1000), Segment::new(1, 201, 250, 1000)]);
}

#[test]
fn total_area_ignores_insertion_order() {
    let segs = [(1, 10, 19, 1000), (1, 5, 30, 2000), (5, 1, 1, 3000), (1, 40, 45, 1000)];
    let forward = set_of(&segs);
    let mut rev = segs.to_vec();
    rev.reverse();
    let backward = set_of(&rev);
    assert_eq!(sum_of_area(&forward), Some(10 + 26 + 1 + 6));
    assert_eq!(sum_of_area(&forward), sum_of_area(&backward));
}

#[test]
fn insertion_goes_before_first_larger_segment() {
    let gs = set_of(&[(1, 100, 200, 0), (1, 300, 400, 0), (1, 150, 250, 0), (1, 50, 500, 0)]);
    let starts: Vec<u64> = gs.bucket(0).iter().map(|s| s.start).collect();
    assert_eq!(starts, vec![100, 150, 300, 50]);
}

#[test]
fn identical_sets_score_their_area() {
    let segs = [(1, 1, 100, 3000), (1, 101, 150, 1000), (7, 10, 20, 2500)];
    let a = set_of(&segs);
    let b = set_of(&segs);
    let k = call_recall_and_precision(&a, &b).unwrap();
    assert_eq!(k.truth_area, 161);
    assert_eq!(score(&k), 161.0);
    assert_eq!(sum_of_area(&k.overlap), Some(161));
}

#[test]
fn recall_and_precision_within_unit_interval() {
    let truth = set_of(&[(1, 1, 100, 3000), (2, 1, 50, 1000)]);
    let predicted = set_of(&[(1, 51, 300, 3000), (2, 40, 60, 4000)]);
    let k = call_recall_and_precision(&truth, &predicted).unwrap();
    let s = score(&k);
    let recall = s / k.truth_area as f64;
    let precision = s / k.predicted_area as f64;
    assert!((0.0..=1.0).contains(&recall));
    assert!((0.0..=1.0).contains(&precision));
    assert_eq!(k.truth_area, 150);
    assert_eq!(k.predicted_area, 271);
}

#[test]
fn empty_truth_is_an_error() {
    let truth = GenomicSegments::new();
    let predicted = set_of(&[(1, 1, 10, 3000)]);
    assert_eq!(call_recall_and_precision(&truth, &predicted).err(), Some(ReconcileError::EmptyTruth));
}

#[test]
fn empty_prediction_is_an_error() {
    let truth = set_of(&[(1, 1, 10, 3000)]);
    let predicted = GenomicSegments::new();
    assert_eq!(call_recall_and_precision(&truth, &predicted).err(), Some(ReconcileError::EmptyPrediction));
}

#[test]
fn area_overflow_is_an_error() {
    let truth = set_of(&[(1, 0, u64::MAX, 3000)]);
    let predicted = set_of(&[(1, 1, 10, 3000)]);
    assert_eq!(sum_of_area(&truth), None);
    assert_eq!(call_recall_and_precision(&truth, &predicted).err(), Some(ReconcileError::AreaOverflow));
    let largest = set_of(&[(1, 1, u64::MAX, 3000)]);
    assert_eq!(sum_of_area(&largest), Some(u64::MAX));
}

#[test]
fn max_and_min() {
    assert_eq!(max(3, 9), 9);
    assert_eq!(max(9, 3), 9);
    assert_eq!(min(3, 9), 3);
    assert_eq!(min(7, 7), 7);
}

#[test]
fn recall_precision_keeps_paths() {
    let rp = RecallPrecision::new("truth.tsv", "pred.tsv", "out.tsv");
    assert_eq!(rp.truth_path(), "truth.tsv");
    assert_eq!(rp.predicted_path(), "pred.tsv");
    assert_eq!(rp.output_path(), "out.tsv");
}

#[test]
fn fields_split_at_tabs() {
    let f = split_fields(&b"a\t\tbc\t".to_vec());
    assert_eq!(f, vec![b"a".to_vec(), vec![], b"bc".to_vec(), vec![]]);
    assert_eq!(split_fields(&vec![]), vec![Vec::<u8>::new()]);
}

#[test]
fn numbers_parse() {
    assert_eq!(parse_u64(&b"18446744073709551615".to_vec()), Some(u64::MAX));
    assert_eq!(parse_u64(&b"18446744073709551616".to_vec()), None);
    assert_eq!(parse_u64(&b"12a".to_vec()), None);
    assert_eq!(parse_u64(&vec![]), None);
    assert_eq!(parse_milli(&b"3".to_vec()), Some(3000));
    assert_eq!(parse_milli(&b"2.5".to_vec()), Some(2500));
    assert_eq!(parse_milli(&b"1.2345".to_vec()), Some(1234));
    assert_eq!(parse_milli(&b"0.05".to_vec()), Some(50));
    assert_eq!(parse_milli(&b"2.".to_vec()), None);
    assert_eq!(parse_milli(&b".5".to_vec()), None);
    assert_eq!(parse_milli(&b"1.2.3".to_vec()), None);
}

#[test]
fn truth_lines() {
    assert_eq!(parse_truth_line(&b"chr22\t5\t9\t1.5".to_vec()), Ok(Some(Segment::new(22, 5, 9, 1500))));
    assert_eq!(parse_truth_line(&b"chrX\t5\t9\t1".to_vec()), Ok(None));
    assert_eq!(parse_truth_line(&b"chr23\t5\t9\t1".to_vec()), Ok(None));
    assert_eq!(parse_truth_line(&b"chr01\t5\t9\t1".to_vec()), Ok(None));
    assert_eq!(parse_truth_line(&b"chr1\t5\t9".to_vec()), Err(LineError::MissingField));
    assert_eq!(parse_truth_line(&b"chr1\t5\tx\t1".to_vec()), Err(LineError::BadNumber));
    assert_eq!(parse_truth_line(&b"chr1\t9\t5\t1".to_vec()), Err(LineError::BadInterval));
}

#[test]
fn predicted_lines() {
    let line = |s: &str| s.as_bytes().to_vec();
    assert_eq!(
        parse_predicted_line(&line("4\t.\t.\t1\t.\t.\t.\t.\t.\t.\t10\t20")),
        Ok(Some(Segment::new(4, 10, 20, 1000)))
    );
    assert_eq!(parse_predicted_line(&line("4\t.\t.\t2\t.\t.\t.\t.\t.\t.\t10\t20")), Ok(None));
    assert_eq!(parse_predicted_line(&line("#4\t.")), Ok(None));
    assert_eq!(
        parse_predicted_line(&line("23\t.\t.\t1\t.\t.\t.\t.\t.\t.\t10\t20")),
        Err(LineError::ChromosomeOutOfRange)
    );
    assert_eq!(
        parse_predicted_line(&line("4\t.\t.\t1\t.\t.\t.\t.\t.\t.\t30\t20")),
        Err(LineError::BadInterval)
    );
    assert_eq!(parse_predicted_line(&line("4\t.\t.\t1\t.\t.\t.\t.\t.\t.\t10")), Err(LineError::MissingField));
    assert_eq!(
        parse_predicted_line(&line("4\t.\t.\tabc\t.\t.\t.\t.\t.\t.\t10\t20")),
        Err(LineError::BadNumber)
    );
}

#[test]
fn first_bad_line_is_reported() {
    let r = read_from_actual_result(&lines("header\nchr1\t1\t2\t3\nchr1\t9\t2\t3\nchr1\t1\n"));
    assert_eq!(r.err(), Some(ParseError { line: 2, kind: LineError::BadInterval }));
    let ok = read_from_actual_result(&lines("chr1\tnot\ta\tsegment\n")).unwrap();
    assert_eq!(sum_of_area(&ok), Some(0));
}
