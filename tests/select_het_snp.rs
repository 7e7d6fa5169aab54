use accurity::snp::{intersect_snp, JoinError, OneGenomeSNP, SelectHetSNP, VariantRecord};

fn config() -> SelectHetSNP {
    SelectHetSNP::new("t.vcf", "n.vcf", "out.gz", 5000, 4000, 1000, 1000, 10, 100, 0)
}

fn record(ref_id: u64, position: u64, genotype: &str, abp: i64, ro: i32, ao: i32) -> VariantRecord {
    VariantRecord {
        ref_id,
        position,
        chromosome: format!("chr{}", ref_id + 1),
        genotype: genotype.to_string(),
        abp,
        srp: 0,
        sap: 0,
        ref_obs: ro,
        alt_obs: ao,
    }
}

fn store_of(cfg: &SelectHetSNP, recs: Vec<VariantRecord>, abp_max: i64) -> OneGenomeSNP {
    let mut store = OneGenomeSNP::new();
    for r in recs {
        cfg.read_in_het_snp(&mut store, r, abp_max);
    }
    store
}

#[test]
fn normalized_fraction_example() {
    let cfg = config();
    let tumor = store_of(&cfg, vec![record(0, 1000, "0/1", 0, 10, 10)], 5000);
    let normal = store_of(&cfg, vec![record(0, 1000, "0/1", 0, 20, 10)], 4000);
    let out = intersect_snp(&tumor, &normal).unwrap();
    assert_eq!(out.len(), 1);
    let r = &out[0];
    assert_eq!((r.ref_id, r.pos), (0, 1000));
    assert_eq!(r.chr, "chr1");
    assert_eq!(r.normalized_numerator, 200);
    assert_eq!(r.normalized_denominator, 300);
    let normalized = r.normalized_numerator as f64 / r.normalized_denominator as f64;
    assert_eq!(format!("{:.6}", normalized), "0.666667");
    assert_eq!((r.tumor_depth, r.tumor_major, r.tumor_ro, r.tumor_ao), (20, 10, 10, 10));
    assert_eq!((r.normal_depth, r.normal_major, r.normal_ro, r.normal_ao), (30, 20, 20, 10));
}

#[test]
fn tumor_only_coordinate_not_emitted() {
    let cfg = config();
    let tumor = store_of(
        &cfg,
        vec![record(0, 5, "0/1", 0, 10, 10), record(0, 9, "0/1", 0, 10, 10)],
        5000,
    );
    let normal = store_of(&cfg, vec![record(0, 9, "0/1", 0, 12, 8), record(3, 1, "0/1", 0, 12, 8)], 4000);
    let out = intersect_snp(&tumor, &normal).unwrap();
    assert_eq!(out.len(), 1);
    assert_eq!((out[0].ref_id, out[0].pos), (0, 9));
}

#[test]
fn hom_alt_never_accepted() {
    let cfg = config();
    let mut store = OneGenomeSNP::new();
    assert!(!cfg.read_in_het_snp(&mut store, record(0, 1, "1/1", -100, 20, 20), 5000));
    assert_eq!(store.len(), 0);
    assert_eq!(store.no_of_total_records, 1);
    assert_eq!(store.no_of_good_hets, 0);
}

#[test]
fn depth_outside_range_rejected() {
    let cfg = config();
    assert!(!cfg.is_good_het(&record(0, 1, "0/1", 0, 5, 4), 5000));
    assert!(!cfg.is_good_het(&record(0, 1, "0/1", 0, 60, 41), 5000));
    assert!(cfg.is_good_het(&record(0, 1, "0/1", 0, 5, 5), 5000));
    assert!(cfg.is_good_het(&record(0, 1, "0/1", 0, 60, 40), 5000));
}

#[test]
fn abp_threshold_is_inclusive() {
    let cfg = config();
    assert!(cfg.is_good_het(&record(0, 1, "0/1", 5000, 10, 10), 5000));
    assert!(!cfg.is_good_het(&record(0, 1, "0/1", 5001, 10, 10), 5000));
}

#[test]
fn other_genotypes_rejected() {
    let cfg = config();
    for g in ["0/0", "0|1", "./.", "1/0", "0/1 "] {
        assert!(!cfg.is_good_het(&record(0, 1, g, 0, 10, 10), 5000));
    }
}

#[test]
fn missing_counts_rejected() {
    let cfg = config();
    assert!(!cfg.is_good_het(&record(0, 1, "0/1", 0, -2147483648, 50), 5000));
    assert!(!cfg.is_good_het(&record(0, 1, "0/1", 0, 50, -1), 5000));
}

#[test]
fn strand_bias_only_when_enforced() {
    let cfg = config();
    let mut rec = record(0, 1, "0/1", 0, 10, 10);
    rec.srp = 2000;
    assert!(cfg.is_good_het(&rec, 5000));
    let strict = config().with_strand_bias_filter(true);
    assert!(!strict.is_good_het(&rec, 5000));
    rec.srp = 1000;
    rec.sap = 1001;
    assert!(!strict.is_good_het(&rec, 5000));
    rec.sap = 1000;
    assert!(strict.is_good_het(&rec, 5000));
}

#[test]
fn output_sorted_by_composite_coordinate() {
    let cfg = config();
    let big = 1u64 << 33;
    let recs = || {
        vec![
            record(1, 5, "0/1", 0, 10, 10),
            record(0, big, "0/1", 0, 10, 10),
            record(0, 3, "0/1", 0, 10, 10),
            record(2, 0, "0/1", 0, 10, 10),
        ]
    };
    let tumor = store_of(&cfg, recs(), 5000);
    let normal = store_of(&cfg, recs(), 4000);
    let out = intersect_snp(&tumor, &normal).unwrap();
    let keys: Vec<(u64, u64)> = out.iter().map(|r| (r.ref_id, r.pos)).collect();
    assert_eq!(keys, vec![(0, 3), (0, big), (1, 5), (2, 0)]);
}

#[test]
fn duplicate_coordinate_keeps_last() {
    let cfg = config();
    let tumor = store_of(
        &cfg,
        vec![record(0, 7, "0/1", 0, 10, 10), record(0, 7, "0/1", 0, 30, 20)],
        5000,
    );
    assert_eq!(tumor.len(), 1);
    assert_eq!(tumor.no_of_good_hets, 2);
    assert_eq!(tumor.no_of_total_records, 2);
    assert_eq!(tumor.snps[0].depth, 50);
}

#[test]
fn zero_normal_count_is_an_error() {
    let cfg = SelectHetSNP::new("t", "n", "o", 5000, 5000, 0, 0, 0, 100, 0);
    let tumor = store_of(&cfg, vec![record(0, 4, "0/1", 0, 10, 10)], 5000);
    let normal = store_of(&cfg, vec![record(0, 4, "0/1", 0, 10, 0)], 5000);
    assert_eq!(
        intersect_snp(&tumor, &normal).err(),
        Some(JoinError::ZeroNormalCount { ref_id: 0, position: 4 })
    );
}

#[test]
fn zero_tumor_depth_is_an_error() {
    let cfg = SelectHetSNP::new("t", "n", "o", 5000, 5000, 0, 0, 0, 100, 0);
    let tumor = store_of(&cfg, vec![record(0, 4, "0/1", 0, 0, 0)], 5000);
    let normal = store_of(&cfg, vec![record(0, 4, "0/1", 0, 10, 5)], 5000);
    assert_eq!(
        intersect_snp(&tumor, &normal).err(),
        Some(JoinError::ZeroTumorDepth { ref_id: 0, position: 4 })
    );
}

#[test]
fn reference_allele_deviating_more() {
    let cfg = config();
    let tumor = store_of(&cfg, vec![record(0, 1, "0/1", 0, 30, 10)], 5000);
    let normal = store_of(&cfg, vec![record(0, 1, "0/1", 0, 10, 10)], 4000);
    let out = intersect_snp(&tumor, &normal).unwrap();
    assert_eq!(out[0].normalized_numerator, 300);
    assert_eq!(out[0].normalized_denominator, 400);
}

#[test]
fn empty_stores_join_to_nothing() {
    let tumor = OneGenomeSNP::new();
    let normal = OneGenomeSNP::new();
    assert!(intersect_snp(&tumor, &normal).unwrap().is_empty());
}
