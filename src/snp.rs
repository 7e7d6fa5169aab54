use vstd::prelude::*;

verus! {

/// Coordinate of a variant: (reference sequence id, 0-based position).
pub type SnpKey = (u64, u64);

/// Lexicographic order on coordinates.
pub open spec fn key_lt(a: SnpKey, b: SnpKey) -> bool {
    a.0 < b.0 || (a.0 == b.0 && a.1 < b.1)
}

fn key_less(a: SnpKey, b: SnpKey) -> (r: bool)
    ensures
        r == key_lt(a, b),
{
    a.0 < b.0 || (a.0 == b.0 && a.1 < b.1)
}

fn key_equal(a: SnpKey, b: SnpKey) -> (r: bool)
    ensures
        r == (a == b),
{
    a.0 == b.0 && a.1 == b.1
}

/// One variant record of a sample, as the variant-call file gives it.
/// Phred annotations are in thousandths of a phred unit; read counts are the raw
/// FORMAT values, where a negative value marks a missing count.
pub struct VariantRecord {
    pub ref_id: u64,
    pub position: u64,
    pub chromosome: String,
    pub genotype: String,
    pub abp: i64,
    pub srp: i64,
    pub sap: i64,
    pub ref_obs: i32,
    pub alt_obs: i32,
}

/// A retained heterozygous SNP. `depth == no_of_ref_obs + no_of_alt_obs`.
pub struct OneSNP {
    pub chr: String,
    pub start: u64,
    pub genotype: String,
    pub depth: u64,
    pub abp_value: i64,
    pub srp_value: i64,
    pub sap_value: i64,
    pub no_of_ref_obs: u32,
    pub no_of_alt_obs: u32,
}

impl OneSNP {
    pub fn new(
        chr: String,
        start: u64,
        genotype: String,
        depth: u64,
        abp_value: i64,
        srp_value: i64,
        sap_value: i64,
        no_of_ref_obs: u32,
        no_of_alt_obs: u32,
    ) -> (r: OneSNP)
        ensures
            r == (OneSNP {
                chr,
                start,
                genotype,
                depth,
                abp_value,
                srp_value,
                sap_value,
                no_of_ref_obs,
                no_of_alt_obs,
            }),
    {
        OneSNP {
            chr,
            start,
            genotype,
            depth,
            abp_value,
            srp_value,
            sap_value,
            no_of_ref_obs,
            no_of_alt_obs,
        }
    }
}

/// The observation kept for an accepted record.
pub open spec fn snp_of(rec: VariantRecord) -> OneSNP {
    OneSNP {
        chr: rec.chromosome,
        start: rec.position,
        genotype: rec.genotype,
        depth: (rec.ref_obs + rec.alt_obs) as u64,
        abp_value: rec.abp,
        srp_value: rec.srp,
        sap_value: rec.sap,
        no_of_ref_obs: rec.ref_obs as u32,
        no_of_alt_obs: rec.alt_obs as u32,
    }
}

/// The accepted heterozygous SNPs of one sample, kept in ascending coordinate order,
/// with the number of records seen and the number accepted.
pub struct OneGenomeSNP {
    pub keys: Vec<SnpKey>,
    pub snps: Vec<OneSNP>,
    pub no_of_total_records: u64,
    pub no_of_good_hets: u64,
}

/// Keys strictly ascending, hence unique.
pub open spec fn sorted_keys(k: Seq<SnpKey>) -> bool {
    forall|a: int, b: int| 0 <= a < b < k.len() ==> key_lt(#[trigger] k[a], #[trigger] k[b])
}

impl OneGenomeSNP {
    pub open spec fn wf(&self) -> bool {
        &&& self.keys@.len() == self.snps@.len()
        &&& sorted_keys(self.keys@)
        &&& self.no_of_good_hets <= self.no_of_total_records
        &&& forall|i: int|
            0 <= i < self.snps@.len() ==> (#[trigger] self.snps@[i]).depth
                == self.snps@[i].no_of_ref_obs + self.snps@[i].no_of_alt_obs
    }

    pub fn new() -> (r: OneGenomeSNP)
        ensures
            r.wf(),
            r.keys@.len() == 0,
            r.no_of_total_records == 0,
            r.no_of_good_hets == 0,
    {
        OneGenomeSNP { keys: Vec::new(), snps: Vec::new(), no_of_total_records: 0, no_of_good_hets: 0 }
    }

    /// Number of distinct coordinates held.
    pub fn len(&self) -> (r: usize)
        requires
            self.wf(),
        ensures
            r == self.keys@.len(),
    {
        self.keys.len()
    }

    /// Stores `snp` under `key`: an entry with that key is replaced, otherwise a new
    /// entry goes where the ascending order puts it.
    fn put(&mut self, key: SnpKey, snp: OneSNP)
        requires
            old(self).wf(),
            snp.depth == snp.no_of_ref_obs + snp.no_of_alt_obs,
        ensures
            final(self).wf(),
            final(self).no_of_total_records == old(self).no_of_total_records,
            final(self).no_of_good_hets == old(self).no_of_good_hets,
            stored(old(self).keys@, old(self).snps@, key, snp, final(self).keys@, final(self).snps@),
    {
        let mut i = self.keys.len();
        while i > 0 && key_less(key, self.keys[i - 1])
            invariant
                self.wf(),
                self.keys@ == old(self).keys@,
                self.snps@ == old(self).snps@,
                self.no_of_total_records == old(self).no_of_total_records,
                self.no_of_good_hets == old(self).no_of_good_hets,
                i <= self.keys@.len(),
                forall|m: int| i <= m < self.keys@.len() ==> key_lt(key, #[trigger] self.keys@[m]),
            decreases i,
        {
            i -= 1;
        }
        if i > 0 && key_equal(self.keys[i - 1], key) {
            self.snps.set(i - 1, snp);
        } else {
            self.keys.insert(i, key);
            self.snps.insert(i, snp);
            assert(sorted_keys(self.keys@)) by {
                old(self).keys@.insert_ensures(i as int, key);
            }
        }
    }
}

/// After storing `snp` under `key`, the keys `k2` and observations `s2` are those of
/// `k1` and `s1` with the entry for `key` set to `snp`, in ascending key order.
pub open spec fn stored(
    k1: Seq<SnpKey>,
    s1: Seq<OneSNP>,
    key: SnpKey,
    snp: OneSNP,
    k2: Seq<SnpKey>,
    s2: Seq<OneSNP>,
) -> bool {
    if exists|i: int| 0 <= i < k1.len() && k1[i] == key {
        exists|i: int|
            0 <= i < k1.len() && k1[i] == key && k2 == k1 && s2 == s1.update(i, snp)
    } else {
        exists|i: int|
            0 <= i <= k1.len() && k2 == k1.insert(i, key) && s2 == s1.insert(i, snp)
    }
}


/// Thresholds and file names of one heterozygous-SNP selection run.
/// Phred maxima are in thousandths of a phred unit.
pub struct SelectHetSNP {
    pub snp_file_path_tumor: String,
    pub snp_file_path_normal: String,
    pub output_file_path: String,
    pub abp_max_tumor: i64,
    pub abp_max_normal: i64,
    pub srp_max: i64,
    pub sap_max: i64,
    pub min_coverage: usize,
    pub max_coverage: usize,
    pub debug: i32,
    /// Whether `srp_max` and `sap_max` reject records; off unless asked for.
    pub enforce_strand_bias: bool,
}

/// Whether a record is accepted as a good heterozygous SNP under the allele-balance
/// maximum `abp_max`: genotype `0/1`, ABP at most `abp_max`, both read counts present
/// and their sum within `[min_coverage, max_coverage]`, and, when strand bias is
/// enforced, SRP and SAP within their maxima.
pub open spec fn het_accepted(cfg: SelectHetSNP, rec: VariantRecord, abp_max: i64) -> bool {
    &&& rec.genotype@ == "0/1"@
    &&& rec.abp <= abp_max
    &&& rec.ref_obs >= 0
    &&& rec.alt_obs >= 0
    &&& cfg.min_coverage <= rec.ref_obs + rec.alt_obs <= cfg.max_coverage
    &&& cfg.enforce_strand_bias ==> rec.srp <= cfg.srp_max && rec.sap <= cfg.sap_max
}

impl SelectHetSNP {
    pub fn new(
        snp_file_path_tumor: &str,
        snp_file_path_normal: &str,
        output_file_path: &str,
        abp_max_tumor: i64,
        abp_max_normal: i64,
        srp_max: i64,
        sap_max: i64,
        min_coverage: usize,
        max_coverage: usize,
        debug: i32,
    ) -> (r: SelectHetSNP)
        ensures
            r.snp_file_path_tumor@ == snp_file_path_tumor@,
            r.snp_file_path_normal@ == snp_file_path_normal@,
            r.output_file_path@ == output_file_path@,
            r.abp_max_tumor == abp_max_tumor,
            r.abp_max_normal == abp_max_normal,
            r.srp_max == srp_max,
            r.sap_max == sap_max,
            r.min_coverage == min_coverage,
            r.max_coverage == max_coverage,
            r.debug == debug,
            !r.enforce_strand_bias,
    {
        SelectHetSNP {
            snp_file_path_tumor: snp_file_path_tumor.to_string(),
            snp_file_path_normal: snp_file_path_normal.to_string(),
            output_file_path: output_file_path.to_string(),
            abp_max_tumor,
            abp_max_normal,
            srp_max,
            sap_max,
            min_coverage,
            max_coverage,
            debug,
            enforce_strand_bias: false,
        }
    }

    /// The same settings, with the SRP/SAP maxima enforced or not as `enforce` says.
    pub fn with_strand_bias_filter(self, enforce: bool) -> (r: SelectHetSNP)
        ensures
            r == (SelectHetSNP { enforce_strand_bias: enforce, ..self }),
    {
        SelectHetSNP { enforce_strand_bias: enforce, ..self }
    }

    /// Whether `rec` passes every acceptance clause under `abp_max`.
    pub fn is_good_het(&self, rec: &VariantRecord, abp_max: i64) -> (r: bool)
        ensures
            r == het_accepted(*self, *rec, abp_max),
    {
        broadcast use vstd::string::group_string_axioms;

        let het = "0/1".to_string();
        if rec.genotype != het || rec.abp > abp_max || rec.ref_obs < 0 || rec.alt_obs < 0 {
            return false;
        }
        let depth: u64 = rec.ref_obs as u64 + rec.alt_obs as u64;
        if depth < self.min_coverage as u64 || depth > self.max_coverage as u64 {
            return false;
        }
        if self.enforce_strand_bias && (rec.srp > self.srp_max || rec.sap > self.sap_max) {
            return false;
        }
        true
    }

    /// Counts one record of a sample and, when it is accepted under `abp_max`, counts
    /// it as a good het and stores its observation under its coordinate.
    pub fn read_in_het_snp(&self, store: &mut OneGenomeSNP, rec: VariantRecord, abp_max: i64) -> (accepted: bool)
        requires
            old(store).wf(),
            old(store).no_of_total_records < u64::MAX,
        ensures
            accepted == het_accepted(*self, rec, abp_max),
            final(store).wf(),
            final(store).no_of_total_records == old(store).no_of_total_records + 1,
            accepted ==> final(store).no_of_good_hets == old(store).no_of_good_hets + 1
                && stored(
                old(store).keys@,
                old(store).snps@,
                (rec.ref_id, rec.position),
                snp_of(rec),
                final(store).keys@,
                final(store).snps@,
            ),
            !accepted ==> final(store).no_of_good_hets == old(store).no_of_good_hets
                && final(store).keys@ == old(store).keys@ && final(store).snps@ == old(store).snps@,
    {
        store.no_of_total_records = store.no_of_total_records + 1;
        if !self.is_good_het(&rec, abp_max) {
            return false;
        }
        store.no_of_good_hets = store.no_of_good_hets + 1;
        let no_of_ref_obs = rec.ref_obs as u32;
        let no_of_alt_obs = rec.alt_obs as u32;
        let depth: u64 = no_of_ref_obs as u64 + no_of_alt_obs as u64;
        let key = (rec.ref_id, rec.position);
        let snp = OneSNP::new(
            rec.chromosome,
            rec.position,
            rec.genotype,
            depth,
            rec.abp,
            rec.srp,
            rec.sap,
            no_of_ref_obs,
            no_of_alt_obs,
        );
        store.put(key, snp);
        true
    }
}


/// A coordinate present in both samples, with both samples' counts.
/// `tumor_major` / `normal_major` are the larger of each sample's two allele counts,
/// so a sample's raw allele fraction is `major / depth`. The normalized tumor allele
/// fraction is `normalized_numerator / normalized_denominator`.
pub struct JoinedRecord {
    pub ref_id: u64,
    pub chr: String,
    pub pos: u64,
    pub tumor_depth: u64,
    pub tumor_major: u32,
    pub tumor_ro: u32,
    pub tumor_ao: u32,
    pub normal_depth: u64,
    pub normal_major: u32,
    pub normal_ro: u32,
    pub normal_ao: u32,
    pub normalized_numerator: u128,
    pub normalized_denominator: u128,
}

/// A shared coordinate at which the normalized allele fraction is undefined.
#[derive(Clone, Copy, Debug, PartialEq, Eq, Structural)]
pub enum JoinError {
    /// The normal sample has no reference or no alternate read there.
    ZeroNormalCount { ref_id: u64, position: u64 },
    /// The tumor sample has no read there.
    ZeroTumorDepth { ref_id: u64, position: u64 },
}

pub open spec fn spec_max_u32(a: u32, b: u32) -> u32 {
    if a > b {
        a
    } else {
        b
    }
}

/// Index of `key` in `k`, or -1 when it is absent.
pub open spec fn find_key(k: Seq<SnpKey>, key: SnpKey) -> int
    decreases k.len(),
{
    if k.len() == 0 {
        -1
    } else if k.last() == key {
        k.len() - 1
    } else {
        find_key(k.drop_last(), key)
    }
}

/// The normalized tumor allele fraction corrects each tumor allele count by the
/// normal sample's count of the same allele and reports the allele that deviates
/// more: with `ratio_alt = ta / na` and `ratio_ref = tr / nr` it is
/// `max(ratio_alt, ratio_ref) / (ratio_alt + ratio_ref)`, which equals
/// `max(ta * nr, tr * na) / (ta * nr + tr * na)`.
pub open spec fn joined(key: SnpKey, t: OneSNP, n: OneSNP) -> JoinedRecord {
    let a = t.no_of_alt_obs as int * n.no_of_ref_obs as int;
    let b = t.no_of_ref_obs as int * n.no_of_alt_obs as int;
    JoinedRecord {
        ref_id: key.0,
        chr: t.chr,
        pos: key.1,
        tumor_depth: t.depth,
        tumor_major: spec_max_u32(t.no_of_ref_obs, t.no_of_alt_obs),
        tumor_ro: t.no_of_ref_obs,
        tumor_ao: t.no_of_alt_obs,
        normal_depth: n.depth,
        normal_major: spec_max_u32(n.no_of_ref_obs, n.no_of_alt_obs),
        normal_ro: n.no_of_ref_obs,
        normal_ao: n.no_of_alt_obs,
        normalized_numerator: (if a > b {
            a
        } else {
            b
        }) as u128,
        normalized_denominator: (a + b) as u128,
    }
}

/// Why a shared coordinate cannot be reported, if it cannot.
pub open spec fn join_error(key: SnpKey, t: OneSNP, n: OneSNP) -> Option<JoinError> {
    if n.no_of_ref_obs == 0 || n.no_of_alt_obs == 0 {
        Some(JoinError::ZeroNormalCount { ref_id: key.0, position: key.1 })
    } else if t.no_of_ref_obs + t.no_of_alt_obs == 0 {
        Some(JoinError::ZeroTumorDepth { ref_id: key.0, position: key.1 })
    } else {
        None
    }
}

/// The join over the first `m` tumor entries: each tumor coordinate also present in
/// the normal store gives one record, in tumor order; the first shared coordinate at
/// which the fraction is undefined gives the error.
pub open spec fn join_upto(t: OneGenomeSNP, n: OneGenomeSNP, m: int) -> Result<Seq<JoinedRecord>, JoinError>
    decreases m,
{
    if m <= 0 {
        Ok(Seq::empty())
    } else {
        match join_upto(t, n, m - 1) {
            Err(e) => Err(e),
            Ok(prev) => {
                let key = t.keys@[m - 1];
                let j = find_key(n.keys@, key);
                if j < 0 {
                    Ok(prev)
                } else {
                    match join_error(key, t.snps@[m - 1], n.snps@[j]) {
                        Some(e) => Err(e),
                        None => Ok(prev.push(joined(key, t.snps@[m - 1], n.snps@[j]))),
                    }
                }
            },
        }
    }
}

/// The whole join of a tumor store with a normal store.
pub open spec fn join_all(t: OneGenomeSNP, n: OneGenomeSNP) -> Result<Seq<JoinedRecord>, JoinError> {
    join_upto(t, n, t.keys@.len() as int)
}

/// Once the join has failed, it fails with the same error over any longer prefix.
proof fn lemma_join_err_stays(t: OneGenomeSNP, n: OneGenomeSNP, m: int, m2: int, e: JoinError)
    requires
        m <= m2,
        join_upto(t, n, m) == Err::<Seq<JoinedRecord>, JoinError>(e),
    ensures
        join_upto(t, n, m2) == Err::<Seq<JoinedRecord>, JoinError>(e),
    decreases m2 - m,
{
    if m < m2 {
        lemma_join_err_stays(t, n, m, m2 - 1, e);
    }
}

proof fn lemma_find_at(k: Seq<SnpKey>, j: int)
    requires
        sorted_keys(k),
        0 <= j < k.len(),
    ensures
        find_key(k, k[j]) == j,
    decreases k.len(),
{
    if j < k.len() - 1 {
        assert(key_lt(k[j], k[k.len() - 1]));
        assert(sorted_keys(k.drop_last()));
        lemma_find_at(k.drop_last(), j);
    }
}

proof fn lemma_find_absent(k: Seq<SnpKey>, key: SnpKey)
    requires
        forall|j: int| 0 <= j < k.len() ==> k[j] != key,
    ensures
        find_key(k, key) == -1,
    decreases k.len(),
{
    if k.len() > 0 {
        lemma_find_absent(k.drop_last(), key);
    }
}

/// `find_key` gives -1 or an index holding the key.
pub proof fn lemma_find_valid(k: Seq<SnpKey>, key: SnpKey)
    ensures
        find_key(k, key) == -1 || (0 <= find_key(k, key) < k.len() && k[find_key(k, key)] == key),
    decreases k.len(),
{
    if k.len() > 0 {
        lemma_find_valid(k.drop_last(), key);
    }
}

fn max_u32(a: u32, b: u32) -> (r: u32)
    ensures
        r == spec_max_u32(a, b),
{
    if a > b {
        a
    } else {
        b
    }
}

fn make_joined(key: SnpKey, t: &OneSNP, n: &OneSNP) -> (r: JoinedRecord)
    ensures
        r == joined(key, *t, *n),
{
    let ta = t.no_of_alt_obs as u128;
    let tr = t.no_of_ref_obs as u128;
    let na = n.no_of_alt_obs as u128;
    let nr = n.no_of_ref_obs as u128;
    assert(ta * nr <= 0xffff_ffff * 0xffff_ffff) by (nonlinear_arith)
        requires
            ta <= 0xffff_ffff,
            nr <= 0xffff_ffff,
    ;
    assert(tr * na <= 0xffff_ffff * 0xffff_ffff) by (nonlinear_arith)
        requires
            tr <= 0xffff_ffff,
            na <= 0xffff_ffff,
    ;
    let a: u128 = ta * nr;
    let b: u128 = tr * na;
    JoinedRecord {
        ref_id: key.0,
        chr: t.chr.clone(),
        pos: key.1,
        tumor_depth: t.depth,
        tumor_major: max_u32(t.no_of_ref_obs, t.no_of_alt_obs),
        tumor_ro: t.no_of_ref_obs,
        tumor_ao: t.no_of_alt_obs,
        normal_depth: n.depth,
        normal_major: max_u32(n.no_of_ref_obs, n.no_of_alt_obs),
        normal_ro: n.no_of_ref_obs,
        normal_ao: n.no_of_alt_obs,
        normalized_numerator: if a > b {
            a
        } else {
            b
        },
        normalized_denominator: a + b,
    }
}

/// Joins the tumor store with the normal store on coordinate, in ascending
/// coordinate order, by one simultaneous walk over both sorted stores.
pub fn intersect_snp(tumor: &OneGenomeSNP, normal: &OneGenomeSNP) -> (r: Result<Vec<JoinedRecord>, JoinError>)
    requires
        tumor.wf(),
        normal.wf(),
    ensures
        match r {
            Ok(v) => join_all(*tumor, *normal) == Ok::<Seq<JoinedRecord>, JoinError>(v@),
            Err(e) => join_all(*tumor, *normal) == Err::<Seq<JoinedRecord>, JoinError>(e),
        },
{
    let tn = tumor.keys.len();
    let nn = normal.keys.len();
    let mut out: Vec<JoinedRecord> = Vec::new();
    let mut i: usize = 0;
    let mut j: usize = 0;
    while i < tn
        invariant
            tumor.wf(),
            normal.wf(),
            tn == tumor.keys@.len(),
            nn == normal.keys@.len(),
            i <= tn,
            j <= nn,
            join_upto(*tumor, *normal, i as int) == Ok::<Seq<JoinedRecord>, JoinError>(out@),
            i < tn ==> forall|jj: int| 0 <= jj < j ==> key_lt(#[trigger] normal.keys@[jj], tumor.keys@[i as int]),
        decreases tn - i,
    {
        let key = tumor.keys[i];
        while j < nn && key_less(normal.keys[j], key)
            invariant
                normal.wf(),
                nn == normal.keys@.len(),
                j <= nn,
                forall|jj: int| 0 <= jj < j ==> key_lt(#[trigger] normal.keys@[jj], key),
            decreases nn - j,
        {
            j += 1;
        }
        if j < nn && key_equal(normal.keys[j], key) {
            proof {
                lemma_find_at(normal.keys@, j as int);
            }
            let t = &tumor.snps[i];
            let n = &normal.snps[j];
            if n.no_of_ref_obs == 0 || n.no_of_alt_obs == 0 {
                proof {
                    lemma_join_err_stays(*tumor, *normal, i + 1, tn as int, JoinError::ZeroNormalCount { ref_id: key.0, position: key.1 });
                }
                return Err(JoinError::ZeroNormalCount { ref_id: key.0, position: key.1 });
            }
            if t.no_of_ref_obs as u64 + t.no_of_alt_obs as u64 == 0 {
                proof {
                    lemma_join_err_stays(*tumor, *normal, i + 1, tn as int, JoinError::ZeroTumorDepth { ref_id: key.0, position: key.1 });
                }
                return Err(JoinError::ZeroTumorDepth { ref_id: key.0, position: key.1 });
            }
            let rec = make_joined(key, t, n);
            out.push(rec);
        } else {
            proof {
                assert forall|jj: int| 0 <= jj < normal.keys@.len() implies normal.keys@[jj] != key by {
                    if jj >= j {
                        if jj > j {
                            assert(key_lt(normal.keys@[j as int], normal.keys@[jj]));
                        }
                    }
                }
                lemma_find_absent(normal.keys@, key);
            }
        }
        proof {
            if i + 1 < tn {
                assert(key_lt(tumor.keys@[i as int], tumor.keys@[i + 1]));
            }
        }
        i += 1;
    }
    Ok(out)
}


proof fn lemma_join_upto_shared(t: OneGenomeSNP, n: OneGenomeSNP, m: int, v: Seq<JoinedRecord>)
    requires
        0 <= m <= t.keys@.len(),
        t.wf(),
        join_upto(t, n, m) == Ok::<Seq<JoinedRecord>, JoinError>(v),
    ensures
        forall|k: int|
            0 <= k < v.len() ==> n.keys@.contains((#[trigger] v[k].ref_id, v[k].pos))
                && t.keys@.contains((v[k].ref_id, v[k].pos)),
    decreases m,
{
    if m > 0 {
        let key = t.keys@[m - 1];
        lemma_find_valid(n.keys@, key);
        let prev = join_upto(t, n, m - 1);
        if let Ok(p) = prev {
            lemma_join_upto_shared(t, n, m - 1, p);
            assert forall|k: int| 0 <= k < v.len() implies n.keys@.contains(
                (#[trigger] v[k].ref_id, v[k].pos),
            ) && t.keys@.contains((v[k].ref_id, v[k].pos)) by {
                if k < p.len() {
                    assert(v[k] == p[k]);
                } else {
                    let j = find_key(n.keys@, key);
                    assert(n.keys@[j] == key);
                    assert(t.keys@[m - 1] == key);
                }
            }
        }
    }
}

/// The join never emits a coordinate that is missing from the normal store: every
/// joined record's coordinate is held by both stores.
pub proof fn lemma_join_emits_only_shared(t: OneGenomeSNP, n: OneGenomeSNP, v: Seq<JoinedRecord>)
    requires
        t.wf(),
        n.wf(),
        join_all(t, n) == Ok::<Seq<JoinedRecord>, JoinError>(v),
    ensures
        forall|k: int|
            0 <= k < v.len() ==> n.keys@.contains((#[trigger] v[k].ref_id, v[k].pos))
                && t.keys@.contains((v[k].ref_id, v[k].pos)),
{
    lemma_join_upto_shared(t, n, t.keys@.len() as int, v);
}

/// A homozygous-alternate record (`1/1`) is never accepted, whatever its ABP and depth.
pub proof fn lemma_hom_alt_never_accepted(cfg: SelectHetSNP, rec: VariantRecord, abp_max: i64)
    requires
        rec.genotype@ == "1/1"@,
    ensures
        !het_accepted(cfg, rec, abp_max),
{
    reveal_strlit("1/1");
    reveal_strlit("0/1");
    assert("1/1"@[0] != "0/1"@[0]);
}

/// A record whose depth lies outside `[min_coverage, max_coverage]` is never accepted,
/// even with a `0/1` genotype and a passing ABP.
pub proof fn lemma_depth_out_of_range_rejected(cfg: SelectHetSNP, rec: VariantRecord, abp_max: i64)
    requires
        rec.ref_obs + rec.alt_obs < cfg.min_coverage || rec.ref_obs + rec.alt_obs > cfg.max_coverage,
    ensures
        !het_accepted(cfg, rec, abp_max),
{
}

} // verus!
