use vstd::prelude::*;
use vstd::set_lib::{lemma_int_range, lemma_len_subset, lemma_set_disjoint_lens, set_int_range};
use crate::segments::{
    added, buckets_area, is_insertion_point, lemma_area_concat, lemma_area_nonneg,
    lemma_area_permutation, lemma_buckets_prefix, lemma_multiset_insert, seg_len, seq_area,
    valid_segment, wf_buckets, GenomicSegments, Segment, CHROMOSOME_COUNT,
};

verus! {

/// Two segments share at least one base.
pub open spec fn overlaps(x: Segment, y: Segment) -> bool {
    spec_max(x.start, y.start) <= spec_min(x.end, y.end)
}

pub open spec fn spec_max(x: u64, y: u64) -> u64 {
    if x > y {
        x
    } else {
        y
    }
}

pub open spec fn spec_min(x: u64, y: u64) -> u64 {
    if x > y {
        y
    } else {
        x
    }
}

/// Absolute difference of two copy numbers.
pub open spec fn copy_diff(a: u64, b: u64) -> u64 {
    if a >= b {
        (a - b) as u64
    } else {
        (b - a) as u64
    }
}

/// The segment emitted for an overlapping pair: the shared bases, annotated with the
/// absolute copy-number difference, on the chromosome of `x`.
pub open spec fn overlap_seg(x: Segment, y: Segment) -> Segment {
    Segment {
        chr_id: x.chr_id,
        start: spec_max(x.start, y.start),
        end: spec_min(x.end, y.end),
        copy_number: copy_diff(x.copy_number, y.copy_number),
    }
}

/// What `y` emits against each segment of `xs`, in the order of `xs`.
pub open spec fn row(xs: Seq<Segment>, y: Segment) -> Seq<Segment>
    decreases xs.len(),
{
    if xs.len() == 0 {
        Seq::empty()
    } else if overlaps(xs.last(), y) {
        row(xs.drop_last(), y).push(overlap_seg(xs.last(), y))
    } else {
        row(xs.drop_last(), y)
    }
}

/// Every overlap between a segment of `xs` and one of `ys`, one per overlapping pair.
pub open spec fn pair_overlaps(xs: Seq<Segment>, ys: Seq<Segment>) -> Seq<Segment>
    decreases ys.len(),
{
    if ys.len() == 0 {
        Seq::empty()
    } else {
        pair_overlaps(xs, ys.drop_last()) + row(xs, ys.last())
    }
}

pub fn max(x: u64, y: u64) -> (r: u64)
    ensures
        r == spec_max(x, y),
{
    if x > y {
        x
    } else {
        y
    }
}

pub fn min(x: u64, y: u64) -> (r: u64)
    ensures
        r == spec_min(x, y),
{
    if x > y {
        y
    } else {
        x
    }
}

fn abs_diff(a: u64, b: u64) -> (r: u64)
    ensures
        r == copy_diff(a, b),
{
    if a >= b {
        a - b
    } else {
        b - a
    }
}

impl GenomicSegments {
    /// Per chromosome, the overlap of every segment of `self` with every segment of
    /// `other`: bucket `c` of the result holds exactly the segments of
    /// `pair_overlaps(self@[c], other@[c])`, placed by `add`.
    pub fn overlap_with(&self, other: &GenomicSegments) -> (r: GenomicSegments)
        requires
            self.wf(),
            other.wf(),
        ensures
            r.wf(),
            forall|c: int|
                0 <= c < CHROMOSOME_COUNT ==> (#[trigger] r@[c]).to_multiset() =~= pair_overlaps(
                    self@[c],
                    other@[c],
                ).to_multiset(),
    {
        broadcast use vstd::seq_lib::group_to_multiset_ensures;

        let mut result = GenomicSegments::new();
        let mut c: usize = 0;
        while c < CHROMOSOME_COUNT
            invariant
                self.wf(),
                other.wf(),
                result.wf(),
                c <= CHROMOSOME_COUNT,
                forall|cc: int|
                    0 <= cc < c ==> (#[trigger] result@[cc]).to_multiset() =~= pair_overlaps(
                        self@[cc],
                        other@[cc],
                    ).to_multiset(),
                forall|cc: int| c <= cc < CHROMOSOME_COUNT ==> (#[trigger] result@[cc]).len() == 0,
            decreases CHROMOSOME_COUNT - c,
        {
            let xs = self.bucket(c);
            let ys = other.bucket(c);
            let ghost start = result@;
            assert(ys@.take(0) =~= Seq::<Segment>::empty());
            assert(result@[c as int] =~= Seq::<Segment>::empty());
            let mut j: usize = 0;
            while j < ys.len()
                invariant
                    self.wf(),
                    other.wf(),
                    result.wf(),
                    c < CHROMOSOME_COUNT,
                    xs@ == self@[c as int],
                    ys@ == other@[c as int],
                    j <= ys@.len(),
                    start.len() == CHROMOSOME_COUNT,
                    forall|cc: int|
                        0 <= cc < CHROMOSOME_COUNT && cc != c ==> #[trigger] result@[cc]
                            == start[cc],
                    result@[c as int].to_multiset() =~= pair_overlaps(
                        xs@,
                        ys@.take(j as int),
                    ).to_multiset(),
                decreases ys@.len() - j,
            {
                let y = ys[j];
                let ghost before = pair_overlaps(xs@, ys@.take(j as int));
                assert(xs@.take(0) =~= Seq::<Segment>::empty());
                assert(before + row(xs@.take(0), y) =~= before);
                let mut i: usize = 0;
                while i < xs.len()
                    invariant
                        self.wf(),
                        other.wf(),
                        result.wf(),
                        c < CHROMOSOME_COUNT,
                        xs@ == self@[c as int],
                        ys@ == other@[c as int],
                        j < ys@.len(),
                        y == ys@[j as int],
                        i <= xs@.len(),
                        start.len() == CHROMOSOME_COUNT,
                        forall|cc: int|
                            0 <= cc < CHROMOSOME_COUNT && cc != c ==> #[trigger] result@[cc]
                                == start[cc],
                        result@[c as int].to_multiset() =~= (before + row(
                            xs@.take(i as int),
                            y,
                        )).to_multiset(),
                    decreases xs@.len() - i,
                {
                    let x = xs[i];
                    let s = max(x.start, y.start);
                    let e = min(x.end, y.end);
                    let ghost prev = result@;
                    let ghost rw = row(xs@.take(i as int), y);
                    assert(xs@.take(i + 1).drop_last() =~= xs@.take(i as int));
                    assert(x.chr_id == c + 1);
                    assert(xs@.take(i + 1).last() == x);
                    if s <= e {
                        let seg = Segment {
                            chr_id: x.chr_id,
                            start: s,
                            end: e,
                            copy_number: abs_diff(x.copy_number, y.copy_number),
                        };
                        assert(seg == overlap_seg(x, y));
                        result.add(seg);
                        let ghost k = choose|k: int|
                            is_insertion_point(prev[c as int], seg, k) && result@ == added(
                                prev,
                                seg,
                                k,
                            );
                        proof { lemma_multiset_insert(prev[c as int], k, seg); }
                        assert(result@[c as int].to_multiset() =~= prev[c as int].to_multiset().insert(
                            seg,
                        ));
                        assert(before + row(xs@.take(i + 1), y) =~= (before + rw).push(seg));
                        proof {
                            (before + rw).to_multiset_ensures();
                        }
                    } else {
                        assert(row(xs@.take(i + 1), y) == rw);
                    }
                    i += 1;
                }
                assert(xs@.take(xs@.len() as int) =~= xs@);
                assert(ys@.take(j + 1).drop_last() =~= ys@.take(j as int));
                j += 1;
            }
            assert(ys@.take(ys@.len() as int) =~= ys@);
            c += 1;
        }
        result
    }
}


/// Total number of bases in a set, or `None` when that number exceeds `u64::MAX`.
pub fn sum_of_area(gs: &GenomicSegments) -> (r: Option<u64>)
    requires
        gs.wf(),
    ensures
        buckets_area(gs@) >= 0,
        r == (if buckets_area(gs@) <= u64::MAX {
            Some(buckets_area(gs@) as u64)
        } else {
            None
        }),
{
    proof {
        assert(gs@.take(0) =~= Seq::<Seq<Segment>>::empty());
        lemma_buckets_prefix(gs@, 0);
    }
    let mut sum: u64 = 0;
    let mut c: usize = 0;
    while c < CHROMOSOME_COUNT
        invariant
            gs.wf(),
            c <= CHROMOSOME_COUNT,
            sum == buckets_area(gs@.take(c as int)),
        decreases CHROMOSOME_COUNT - c,
    {
        let segs = gs.bucket(c);
        let ghost b = gs@;
        let mut k: usize = 0;
        while k < segs.len()
            invariant
                gs.wf(),
                b == gs@,
                c < CHROMOSOME_COUNT,
                segs@ == b[c as int],
                k <= segs@.len(),
                sum == buckets_area(b.take(c as int)) + seq_area(segs@.take(k as int)),
            decreases segs@.len() - k,
        {
            let seg = segs[k];
            assert(valid_segment(b[c as int][k as int]));
            assert(segs@.take(k + 1).drop_last() =~= segs@.take(k as int));
            let span = seg.end - seg.start;
            if span < u64::MAX - sum {
                sum = sum + span + 1;
            } else {
                {
                    proof {
                        lemma_area_concat(segs@.take(k + 1), segs@.skip(k + 1));
                        assert(segs@.take(k + 1) + segs@.skip(k + 1) =~= segs@);
                        assert forall|i: int| 0 <= i < segs@.skip(k + 1).len() implies valid_segment(
                            #[trigger] segs@.skip(k + 1)[i],
                        ) by {
                            assert(valid_segment(b[c as int][k + 1 + i]));
                        }
                        lemma_area_nonneg(segs@.skip(k + 1));
                        assert(b.take(c + 1).drop_last() =~= b.take(c as int));
                        lemma_buckets_prefix(b, c + 1);
                    }
                    return None;
                }
            }
            k += 1;
        }
        proof {
            assert(segs@.take(segs@.len() as int) =~= segs@);
            assert(b.take(c + 1).drop_last() =~= b.take(c as int));
        }
        c += 1;
    }
    assert(gs@.take(CHROMOSOME_COUNT as int) =~= gs@);
    Some(sum)
}

/// The integer parts of recall and precision: the overlap set (whose segments carry
/// the copy-number differences that weigh them) and the areas of the two inputs.
pub struct Concordance {
    pub overlap: GenomicSegments,
    pub truth_area: u64,
    pub predicted_area: u64,
}

#[derive(Clone, Copy, Debug, PartialEq, Eq, Structural)]
pub enum ReconcileError {
    /// The area of one of the sets does not fit in `u64`.
    AreaOverflow,
    /// The truth set covers no base: recall would divide by zero.
    EmptyTruth,
    /// The predicted set covers no base: precision would divide by zero.
    EmptyPrediction,
}

/// What `call_recall_and_precision` owes for the given truth and predicted sets.
pub open spec fn reconcile_outcome(truth: Seq<Seq<Segment>>, predicted: Seq<Seq<Segment>>) -> Result<(), ReconcileError> {
    if buckets_area(truth) > u64::MAX || buckets_area(predicted) > u64::MAX {
        Err(ReconcileError::AreaOverflow)
    } else if buckets_area(truth) == 0 {
        Err(ReconcileError::EmptyTruth)
    } else if buckets_area(predicted) == 0 {
        Err(ReconcileError::EmptyPrediction)
    } else {
        Ok(())
    }
}

/// Overlaps the truth set with the predicted set and measures both; recall is the
/// weighted overlap divided by `truth_area`, precision the same over `predicted_area`.
pub fn call_recall_and_precision(actual: &GenomicSegments, accurity: &GenomicSegments) -> (r: Result<Concordance, ReconcileError>)
    requires
        actual.wf(),
        accurity.wf(),
    ensures
        match r {
            Err(e) => reconcile_outcome(actual@, accurity@) == Err::<(), ReconcileError>(e),
            Ok(k) => {
            &&& reconcile_outcome(actual@, accurity@) == Ok::<(), ReconcileError>(())
            &&& k.overlap.wf()
            &&& k.truth_area == buckets_area(actual@)
            &&& k.predicted_area == buckets_area(accurity@)
            &&& forall|c: int|
                0 <= c < CHROMOSOME_COUNT ==> (#[trigger] k.overlap@[c]).to_multiset()
                    =~= pair_overlaps(actual@[c], accurity@[c]).to_multiset()
            },
        },
{
    let truth_area = match sum_of_area(actual) {
        Some(a) => a,
        None => {
            return Err(ReconcileError::AreaOverflow);
        },
    };
    let predicted_area = match sum_of_area(accurity) {
        Some(a) => a,
        None => {
            return Err(ReconcileError::AreaOverflow);
        },
    };
    if truth_area == 0 {
        return Err(ReconcileError::EmptyTruth);
    }
    if predicted_area == 0 {
        return Err(ReconcileError::EmptyPrediction);
    }
    let overlap = actual.overlap_with(accurity);
    Ok(Concordance { overlap, truth_area, predicted_area })
}


/// For two segments of the same chromosome, the overlap emits exactly one segment,
/// `[max(a.start, b.start), min(a.end, b.end)]` with copy number `|a - b|`, when
/// `max(a.start, b.start) <= min(a.end, b.end)`, and none otherwise.
pub proof fn lemma_pair_emits_iff_overlap(a: Segment, b: Segment)
    requires
        a.chr_id == b.chr_id,
    ensures
        pair_overlaps(seq![a], seq![b]).len() == (if spec_max(a.start, b.start) <= spec_min(
            a.end,
            b.end,
        ) {
            1int
        } else {
            0int
        }),
        spec_max(a.start, b.start) <= spec_min(a.end, b.end) ==> pair_overlaps(seq![a], seq![b])[0]
            == (Segment {
            chr_id: a.chr_id,
            start: spec_max(a.start, b.start),
            end: spec_min(a.end, b.end),
            copy_number: copy_diff(a.copy_number, b.copy_number),
        }),
{
    let e = Seq::<Segment>::empty();
    assert(seq![b].drop_last() =~= e);
    assert(seq![a].drop_last() =~= e);
    assert(seq![a].last() == a);
    assert(seq![b].last() == b);
    assert(pair_overlaps(seq![a], e) == e);
    assert(row(e, b) == e);
    assert(pair_overlaps(seq![a], seq![b]) == e + row(seq![a], b));
    assert(e + row(seq![a], b) =~= row(seq![a], b));
    if overlaps(a, b) {
        assert(row(seq![a], b) == e.push(overlap_seg(a, b)));
    } else {
        assert(row(seq![a], b) == e);
    }
}

proof fn lemma_row_empty(xs: Seq<Segment>, y: Segment)
    requires
        forall|i: int| 0 <= i < xs.len() ==> !overlaps(#[trigger] xs[i], y),
    ensures
        row(xs, y) == Seq::<Segment>::empty(),
    decreases xs.len(),
{
    if xs.len() > 0 {
        lemma_row_empty(xs.drop_last(), y);
    }
}

proof fn lemma_row_single(xs: Seq<Segment>, y: Segment, j: int)
    requires
        0 <= j < xs.len(),
        overlaps(xs[j], y),
        forall|i: int| 0 <= i < xs.len() && i != j ==> !overlaps(#[trigger] xs[i], y),
    ensures
        row(xs, y) == seq![overlap_seg(xs[j], y)],
    decreases xs.len(),
{
    if j == xs.len() - 1 {
        lemma_row_empty(xs.drop_last(), y);
        assert(Seq::<Segment>::empty().push(overlap_seg(xs[j], y)) =~= seq![overlap_seg(xs[j], y)]);
    } else {
        lemma_row_single(xs.drop_last(), y, j);
    }
}

/// No two distinct segments of a bucket share a base.
pub open spec fn disjoint(xs: Seq<Segment>) -> bool {
    forall|i: int, j: int| 0 <= i < xs.len() && 0 <= j < xs.len() && i != j ==> !overlaps(#[trigger] xs[i], #[trigger] xs[j])
}

proof fn lemma_self_overlap_prefix(xs: Seq<Segment>, m: int)
    requires
        0 <= m <= xs.len(),
        disjoint(xs),
        forall|k: int| 0 <= k < xs.len() ==> valid_segment(#[trigger] xs[k]),
    ensures
        seq_area(pair_overlaps(xs, xs.take(m))) == seq_area(xs.take(m)),
        forall|k: int|
            0 <= k < pair_overlaps(xs, xs.take(m)).len() ==> (#[trigger] pair_overlaps(xs, xs.take(m))[k]).copy_number == 0,
    decreases m,
{
    if m == 0 {
        assert(xs.take(0) =~= Seq::<Segment>::empty());
    } else {
        lemma_self_overlap_prefix(xs, m - 1);
        let y = xs[m - 1];
        assert(xs.take(m).drop_last() =~= xs.take(m - 1));
        assert(valid_segment(y));
        lemma_row_single(xs, y, m - 1);
        let p = pair_overlaps(xs, xs.take(m - 1));
        lemma_area_concat(p, row(xs, y));
        let q = pair_overlaps(xs, xs.take(m));
        assert(q == p + seq![overlap_seg(y, y)]);
        assert forall|k: int| 0 <= k < q.len() implies (#[trigger] q[k]).copy_number == 0 by {
            if k < p.len() {
                assert(q[k] == p[k]);
            }
        }
        assert(seq![overlap_seg(y, y)].drop_last() =~= Seq::<Segment>::empty());
        assert(seq![overlap_seg(y, y)].last() == overlap_seg(y, y));
        assert(seq_area(Seq::<Segment>::empty()) == 0);
        assert(seq_area(seq![overlap_seg(y, y)]) == seg_len(y));
        assert(xs.take(m).last() == y);
        assert(seq_area(xs.take(m)) == seq_area(xs.take(m - 1)) + seg_len(y));
    }
}

/// Overlapping a set whose buckets hold pairwise disjoint segments with itself gives
/// back its whole area, and every overlap has copy-number difference zero, so each
/// weighs fully and the concordance score equals the total area.
pub proof fn lemma_concordance_of_identical_sets(b: Seq<Seq<Segment>>, r: Seq<Seq<Segment>>)
    requires
        wf_buckets(b),
        forall|c: int| 0 <= c < b.len() ==> disjoint(#[trigger] b[c]),
        r.len() == CHROMOSOME_COUNT,
        forall|c: int|
            0 <= c < CHROMOSOME_COUNT ==> (#[trigger] r[c]).to_multiset() =~= pair_overlaps(
                b[c],
                b[c],
            ).to_multiset(),
    ensures
        buckets_area(r) == buckets_area(b),
        forall|c: int, k: int| 0 <= c < r.len() && 0 <= k < r[c].len() ==> (#[trigger] r[c][k]).copy_number == 0,
{
    broadcast use vstd::seq_lib::group_to_multiset_ensures;

    assert forall|c: int| 0 <= c < CHROMOSOME_COUNT implies seq_area(#[trigger] r[c]) == seq_area(b[c]) && (
    forall|k: int| 0 <= k < r[c].len() ==> (#[trigger] r[c][k]).copy_number == 0) by {
        let xs = b[c];
        assert forall|k: int| 0 <= k < xs.len() implies valid_segment(#[trigger] xs[k]) by {
            assert(valid_segment(b[c][k]));
        }
        lemma_self_overlap_prefix(xs, xs.len() as int);
        assert(xs.take(xs.len() as int) =~= xs);
        let p = pair_overlaps(xs, xs);
        lemma_area_permutation(r[c], p);
        assert forall|k: int| 0 <= k < r[c].len() implies (#[trigger] r[c][k]).copy_number == 0 by {
            assert(r[c].contains(r[c][k]));
            assert(r[c].to_multiset().count(r[c][k]) > 0);
            assert(p.contains(r[c][k]));
        }
    }
    lemma_buckets_equal_areas(r, b);
}

proof fn lemma_buckets_equal_areas(r: Seq<Seq<Segment>>, b: Seq<Seq<Segment>>)
    requires
        r.len() == b.len(),
        forall|c: int| 0 <= c < b.len() ==> seq_area(#[trigger] r[c]) == seq_area(b[c]),
    ensures
        buckets_area(r) == buckets_area(b),
    decreases b.len(),
{
    if b.len() > 0 {
        lemma_buckets_equal_areas(r.drop_last(), b.drop_last());
    }
}


/// Number of bases two segments share.
pub open spec fn ov(x: Segment, y: Segment) -> int {
    if overlaps(x, y) {
        seg_len(overlap_seg(x, y))
    } else {
        0
    }
}

/// Bases shared by `x` with each segment of `ys`, summed.
pub open spec fn col(x: Segment, ys: Seq<Segment>) -> int
    decreases ys.len(),
{
    if ys.len() == 0 {
        0
    } else {
        col(x, ys.drop_last()) + ov(x, ys.last())
    }
}

/// The bases of a segment.
pub open spec fn pts(s: Segment) -> Set<int> {
    set_int_range(s.start as int, s.end + 1)
}

/// The bases of `y` covered by segments of `xs`.
pub open spec fn covered(xs: Seq<Segment>, y: Segment) -> Set<int>
    decreases xs.len(),
{
    if xs.len() == 0 {
        Set::empty()
    } else {
        covered(xs.drop_last(), y) + pts(xs.last()).intersect(pts(y))
    }
}

proof fn lemma_row_step(xs: Seq<Segment>, y: Segment)
    requires
        xs.len() > 0,
    ensures
        seq_area(row(xs, y)) == seq_area(row(xs.drop_last(), y)) + ov(xs.last(), y),
{
    let r = row(xs.drop_last(), y);
    if overlaps(xs.last(), y) {
        assert(r.push(overlap_seg(xs.last(), y)).drop_last() =~= r);
    }
}

proof fn lemma_pts_intersect(x: Segment, y: Segment)
    ensures
        pts(x).intersect(pts(y)).finite(),
        pts(x).intersect(pts(y)).len() == ov(x, y),
{
    let lo = spec_max(x.start, y.start) as int;
    let hi = spec_min(x.end, y.end) + 1;
    if overlaps(x, y) {
        assert(pts(x).intersect(pts(y)) =~= set_int_range(lo, hi));
        lemma_int_range(lo, hi);
    } else {
        assert(pts(x).intersect(pts(y)) =~= Set::<int>::empty());
    }
}

proof fn lemma_covered(xs: Seq<Segment>, y: Segment)
    requires
        disjoint(xs),
    ensures
        covered(xs, y).finite(),
        covered(xs, y).subset_of(pts(y)),
        covered(xs, y).len() == seq_area(row(xs, y)),
        forall|p: int| #[trigger] covered(xs, y).contains(p) ==> exists|i: int| 0 <= i < xs.len() && pts(xs[i]).contains(p),
    decreases xs.len(),
{
    if xs.len() > 0 {
        let xs2 = xs.drop_last();
        let x = xs.last();
        assert(disjoint(xs2)) by {
            assert forall|i: int, j: int| 0 <= i < xs2.len() && 0 <= j < xs2.len() && i != j implies !overlaps(#[trigger] xs2[i], #[trigger] xs2[j]) by {
                assert(xs2[i] == xs[i] && xs2[j] == xs[j]);
            }
        }
        lemma_covered(xs2, y);
        lemma_pts_intersect(x, y);
        lemma_row_step(xs, y);
        let a = covered(xs2, y);
        let b = pts(x).intersect(pts(y));
        assert(a.disjoint(b)) by {
            assert forall|p: int| a.contains(p) implies !b.contains(p) by {
                let i = choose|i: int| 0 <= i < xs2.len() && pts(xs2[i]).contains(p);
                assert(xs2[i] == xs[i]);
                assert(!overlaps(xs[i], xs[xs.len() - 1]));
            }
        }
        lemma_set_disjoint_lens(a, b);
        assert forall|p: int| #[trigger] covered(xs, y).contains(p) implies exists|i: int| 0 <= i < xs.len() && pts(xs[i]).contains(p) by {
            if a.contains(p) {
                let i = choose|i: int| 0 <= i < xs2.len() && pts(xs2[i]).contains(p);
                assert(xs2[i] == xs[i]);
            } else {
                assert(pts(xs[xs.len() - 1]).contains(p));
            }
        }
    }
}

proof fn lemma_pair_bound_second(xs: Seq<Segment>, ys: Seq<Segment>)
    requires
        disjoint(xs),
        forall|k: int| 0 <= k < ys.len() ==> valid_segment(#[trigger] ys[k]),
    ensures
        seq_area(pair_overlaps(xs, ys)) <= seq_area(ys),
    decreases ys.len(),
{
    if ys.len() > 0 {
        let y = ys.last();
        assert(valid_segment(ys[ys.len() - 1]));
        lemma_pair_bound_second(xs, ys.drop_last());
        lemma_area_concat(pair_overlaps(xs, ys.drop_last()), row(xs, y));
        lemma_covered(xs, y);
        lemma_int_range(y.start as int, y.end + 1);
        lemma_len_subset(covered(xs, y), pts(y));
    }
}

proof fn lemma_row_col(ys: Seq<Segment>, x: Segment)
    ensures
        seq_area(row(ys, x)) == col(x, ys),
    decreases ys.len(),
{
    if ys.len() > 0 {
        lemma_row_step(ys, x);
        lemma_row_col(ys.drop_last(), x);
    }
}

proof fn lemma_pair_drop_x(xs: Seq<Segment>, ys: Seq<Segment>)
    requires
        xs.len() > 0,
    ensures
        seq_area(pair_overlaps(xs, ys)) == seq_area(pair_overlaps(xs.drop_last(), ys)) + col(xs.last(), ys),
    decreases ys.len(),
{
    if ys.len() > 0 {
        let y = ys.last();
        lemma_pair_drop_x(xs, ys.drop_last());
        lemma_area_concat(pair_overlaps(xs, ys.drop_last()), row(xs, y));
        lemma_area_concat(pair_overlaps(xs.drop_last(), ys.drop_last()), row(xs.drop_last(), y));
        lemma_row_step(xs, y);
    }
}

proof fn lemma_pair_empty(ys: Seq<Segment>)
    ensures
        seq_area(pair_overlaps(Seq::<Segment>::empty(), ys)) == 0,
    decreases ys.len(),
{
    if ys.len() > 0 {
        lemma_pair_empty(ys.drop_last());
        lemma_area_concat(pair_overlaps(Seq::<Segment>::empty(), ys.drop_last()), row(Seq::<Segment>::empty(), ys.last()));
    }
}

proof fn lemma_pair_swap(xs: Seq<Segment>, ys: Seq<Segment>)
    ensures
        seq_area(pair_overlaps(xs, ys)) == seq_area(pair_overlaps(ys, xs)),
    decreases xs.len(),
{
    if xs.len() == 0 {
        assert(xs =~= Seq::<Segment>::empty());
        lemma_pair_empty(ys);
    } else {
        lemma_pair_drop_x(xs, ys);
        lemma_pair_swap(xs.drop_last(), ys);
        lemma_area_concat(pair_overlaps(ys, xs.drop_last()), row(ys, xs.last()));
        lemma_row_col(ys, xs.last());
    }
}

proof fn lemma_buckets_le(r: Seq<Seq<Segment>>, b: Seq<Seq<Segment>>)
    requires
        r.len() == b.len(),
        forall|c: int| 0 <= c < b.len() ==> seq_area(#[trigger] r[c]) <= seq_area(b[c]),
    ensures
        buckets_area(r) <= buckets_area(b),
    decreases b.len(),
{
    if b.len() > 0 {
        lemma_buckets_le(r.drop_last(), b.drop_last());
    }
}

/// When neither set has overlapping segments within a chromosome, the overlap covers
/// at most the area of each set. Each overlap weighs `exp(-difference)`, between 0 and
/// 1, so the concordance score lies between 0 and both areas, and recall and precision
/// lie in `[0, 1]`.
pub proof fn lemma_overlap_area_bounded(t: Seq<Seq<Segment>>, p: Seq<Seq<Segment>>, r: Seq<Seq<Segment>>)
    requires
        wf_buckets(t),
        wf_buckets(p),
        forall|c: int| 0 <= c < t.len() ==> disjoint(#[trigger] t[c]),
        forall|c: int| 0 <= c < p.len() ==> disjoint(#[trigger] p[c]),
        r.len() == CHROMOSOME_COUNT,
        forall|c: int|
            0 <= c < CHROMOSOME_COUNT ==> (#[trigger] r[c]).to_multiset() =~= pair_overlaps(
                t[c],
                p[c],
            ).to_multiset(),
    ensures
        0 <= buckets_area(r),
        buckets_area(r) <= buckets_area(t),
        buckets_area(r) <= buckets_area(p),
{
    assert forall|c: int| 0 <= c < CHROMOSOME_COUNT implies seq_area(#[trigger] r[c]) <= seq_area(t[c])
        && seq_area(r[c]) <= seq_area(p[c]) && 0 <= seq_area(r[c]) by {
        assert forall|k: int| 0 <= k < t[c].len() implies valid_segment(#[trigger] t[c][k]) by {}
        assert forall|k: int| 0 <= k < p[c].len() implies valid_segment(#[trigger] p[c][k]) by {}
        lemma_area_permutation(r[c], pair_overlaps(t[c], p[c]));
        lemma_pair_bound_second(t[c], p[c]);
        lemma_pair_bound_second(p[c], t[c]);
        lemma_pair_swap(t[c], p[c]);
        lemma_covered_nonneg(t[c], p[c]);
    }
    lemma_buckets_le(r, t);
    lemma_buckets_le(r, p);
    lemma_buckets_le(Seq::new(CHROMOSOME_COUNT as nat, |c: int| Seq::<Segment>::empty()), r);
    lemma_zero_buckets(CHROMOSOME_COUNT as nat);
}

proof fn lemma_covered_nonneg(xs: Seq<Segment>, ys: Seq<Segment>)
    ensures
        seq_area(pair_overlaps(xs, ys)) >= 0,
    decreases ys.len(),
{
    if ys.len() > 0 {
        lemma_covered_nonneg(xs, ys.drop_last());
        lemma_area_concat(pair_overlaps(xs, ys.drop_last()), row(xs, ys.last()));
        lemma_row_nonneg(xs, ys.last());
    }
}

proof fn lemma_row_nonneg(xs: Seq<Segment>, y: Segment)
    ensures
        seq_area(row(xs, y)) >= 0,
    decreases xs.len(),
{
    if xs.len() > 0 {
        lemma_row_step(xs, y);
        lemma_row_nonneg(xs.drop_last(), y);
    }
}

proof fn lemma_zero_buckets(n: nat)
    ensures
        buckets_area(Seq::new(n, |c: int| Seq::<Segment>::empty())) == 0,
    decreases n,
{
    if n > 0 {
        assert(Seq::new(n, |c: int| Seq::<Segment>::empty()).drop_last() =~= Seq::new(
            (n - 1) as nat,
            |c: int| Seq::<Segment>::empty(),
        ));
        lemma_zero_buckets((n - 1) as nat);
    }
}

} // verus!
