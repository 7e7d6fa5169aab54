use vstd::prelude::*;

verus! {

/// Number of autosomes; a set keeps one bucket for each.
pub const CHROMOSOME_COUNT: usize = 22;

/// A copy-number segment `[start, end]` (both inclusive) on autosome `chr_id`.
/// The copy number is kept in thousandths (`2500` stands for 2.5 copies).
#[derive(Clone, Copy, Debug, PartialEq, Eq, Structural)]
pub struct Segment {
    pub chr_id: u32,
    pub start: u64,
    pub end: u64,
    pub copy_number: u64,
}

/// A segment is valid when its chromosome is one of the autosomes and `start <= end`.
pub open spec fn valid_segment(s: Segment) -> bool {
    1 <= s.chr_id <= CHROMOSOME_COUNT && s.start <= s.end
}

/// Number of bases a segment covers.
pub open spec fn seg_len(s: Segment) -> int {
    s.end - s.start + 1
}

/// Total number of bases covered by a sequence of segments, counted with multiplicity.
pub open spec fn seq_area(s: Seq<Segment>) -> int
    decreases s.len(),
{
    if s.len() == 0 {
        0
    } else {
        seq_area(s.drop_last()) + seg_len(s.last())
    }
}

/// Total area of a sequence of per-chromosome buckets.
pub open spec fn buckets_area(b: Seq<Seq<Segment>>) -> int
    decreases b.len(),
{
    if b.len() == 0 {
        0
    } else {
        buckets_area(b.drop_last()) + seq_area(b.last())
    }
}

/// An existing segment `x` stops the scan for the place of a new segment `s`
/// when both its start and its end lie beyond those of `s`.
pub open spec fn blocks(x: Segment, s: Segment) -> bool {
    x.start > s.start && x.end > s.end
}

/// `i` is where `s` goes in `list`: before the first segment that blocks it.
pub open spec fn is_insertion_point(list: Seq<Segment>, s: Segment, i: int) -> bool {
    &&& 0 <= i <= list.len()
    &&& forall|k: int| 0 <= k < i ==> !blocks(#[trigger] list[k], s)
    &&& i < list.len() ==> blocks(list[i], s)
}

/// Area is additive over concatenation.
pub proof fn lemma_area_concat(a: Seq<Segment>, b: Seq<Segment>)
    ensures
        seq_area(a + b) == seq_area(a) + seq_area(b),
    decreases b.len(),
{
    if b.len() == 0 {
        assert(a + b =~= a);
    } else {
        lemma_area_concat(a, b.drop_last());
        assert((a + b).drop_last() =~= a + b.drop_last());
    }
}

/// Inserting a segment anywhere adds its length to the area.
pub proof fn lemma_area_insert(s: Seq<Segment>, i: int, v: Segment)
    requires
        0 <= i <= s.len(),
    ensures
        seq_area(s.insert(i, v)) == seq_area(s) + seg_len(v),
{
    lemma_area_concat(s.take(i).push(v), s.skip(i));
    lemma_area_concat(s.take(i), s.skip(i));
    assert(s.take(i).push(v).drop_last() =~= s.take(i));
    assert(s.take(i) + s.skip(i) =~= s);
}

/// Two sequences holding the same segments, in whatever order, have the same area.
pub proof fn lemma_area_permutation(a: Seq<Segment>, b: Seq<Segment>)
    requires
        a.to_multiset() =~= b.to_multiset(),
    ensures
        seq_area(a) == seq_area(b),
    decreases a.len(),
{
    broadcast use vstd::seq_lib::group_to_multiset_ensures;

    if a.len() == 0 {
        assert(a.to_multiset().len() == 0);
        assert(b.to_multiset().len() == b.len());
    } else {
        let v = a.last();
        assert(a.drop_last().push(v) =~= a);
        assert(a.to_multiset().count(v) > 0);
        assert(b.contains(v));
        let k = choose|k: int| 0 <= k < b.len() && b[k] == v;
        let br = b.remove(k);
        assert(br.to_multiset() =~= a.drop_last().to_multiset());
        lemma_area_permutation(a.drop_last(), br);
        assert(br.insert(k, v) =~= b);
        lemma_area_insert(br, k, v);
    }
}

/// Area of a sequence of valid segments is never negative.
pub proof fn lemma_area_nonneg(s: Seq<Segment>)
    requires
        forall|k: int| 0 <= k < s.len() ==> valid_segment(#[trigger] s[k]),
    ensures
        seq_area(s) >= 0,
    decreases s.len(),
{
    if s.len() > 0 {
        lemma_area_nonneg(s.drop_last());
    }
}

/// The area of all buckets is at least that of the first `c` of them.
pub proof fn lemma_buckets_prefix(b: Seq<Seq<Segment>>, c: int)
    requires
        0 <= c <= b.len(),
        forall|i: int, k: int|
            0 <= i < b.len() && 0 <= k < b[i].len() ==> valid_segment(#[trigger] b[i][k]),
    ensures
        buckets_area(b) >= buckets_area(b.take(c)),
    decreases b.len(),
{
    if c < b.len() {
        assert(b.drop_last().take(c) =~= b.take(c));
        lemma_buckets_prefix(b.drop_last(), c);
        let l = b.last();
        assert forall|k: int| 0 <= k < l.len() implies valid_segment(#[trigger] l[k]) by {
            assert(valid_segment(b[b.len() - 1][k]));
        }
        lemma_area_nonneg(l);
    } else {
        assert(b.take(c) =~= b);
    }
}

/// Replacing one bucket changes the total by the difference of the two buckets' areas.
pub proof fn lemma_buckets_update(b: Seq<Seq<Segment>>, c: int, v: Seq<Segment>)
    requires
        0 <= c < b.len(),
    ensures
        buckets_area(b.update(c, v)) == buckets_area(b) - seq_area(b[c]) + seq_area(v),
    decreases b.len(),
{
    if c < b.len() - 1 {
        assert(b.update(c, v).drop_last() =~= b.drop_last().update(c, v));
        lemma_buckets_update(b.drop_last(), c, v);
    } else {
        assert(b.update(c, v).drop_last() =~= b.drop_last());
    }
}

/// Adding a segment adds its length to the total area, wherever it is placed.
pub proof fn lemma_area_add(b: Seq<Seq<Segment>>, seg: Segment, i: int)
    requires
        wf_buckets(b),
        valid_segment(seg),
        0 <= i <= b[seg.chr_id - 1].len(),
    ensures
        buckets_area(added(b, seg, i)) == buckets_area(b) + seg_len(seg),
{
    lemma_buckets_update(b, seg.chr_id - 1, b[seg.chr_id - 1].insert(i, seg));
    lemma_area_insert(b[seg.chr_id - 1], i, seg);
}

/// The total area does not depend on the order of insertion: adding `x` then `y`
/// gives the same total as adding `y` then `x`, at whatever insertion points.
pub proof fn lemma_area_insertion_order(
    b: Seq<Seq<Segment>>,
    x: Segment,
    y: Segment,
    ix: int,
    iy: int,
    jy: int,
    jx: int,
)
    requires
        wf_buckets(b),
        valid_segment(x),
        valid_segment(y),
        is_insertion_point(b[x.chr_id - 1], x, ix),
        is_insertion_point(added(b, x, ix)[y.chr_id - 1], y, iy),
        is_insertion_point(b[y.chr_id - 1], y, jy),
        is_insertion_point(added(b, y, jy)[x.chr_id - 1], x, jx),
    ensures
        buckets_area(added(added(b, x, ix), y, iy)) == buckets_area(added(added(b, y, jy), x, jx)),
{
    lemma_area_add(b, x, ix);
    lemma_added_wf(b, x, ix);
    lemma_area_add(added(b, x, ix), y, iy);
    lemma_area_add(b, y, jy);
    lemma_added_wf(b, y, jy);
    lemma_area_add(added(b, y, jy), x, jx);
}

/// Adding a valid segment at a position inside its bucket keeps the buckets well formed.
pub proof fn lemma_added_wf(b: Seq<Seq<Segment>>, seg: Segment, i: int)
    requires
        wf_buckets(b),
        valid_segment(seg),
        0 <= i <= b[seg.chr_id - 1].len(),
    ensures
        wf_buckets(added(b, seg, i)),
{
    let a = added(b, seg, i);
    let c0 = seg.chr_id - 1;
    assert forall|c: int, k: int|
        0 <= c < a.len() && 0 <= k < a[c].len() implies valid_segment(#[trigger] a[c][k]) && a[c][k].chr_id
        == c + 1 by {
        if c == c0 {
            b[c].insert_ensures(i, seg);
            if k > i {
                assert(a[c][k] == b[c][k - 1]);
            }
        }
    }
}

/// Inserting a segment adds it once to the multiset of a bucket.
pub proof fn lemma_multiset_insert(s: Seq<Segment>, i: int, v: Segment)
    requires
        0 <= i <= s.len(),
    ensures
        s.insert(i, v).to_multiset() =~= s.to_multiset().insert(v),
{
    let t = s.insert(i, v);
    s.insert_ensures(i, v);
    t.to_multiset_ensures();
    assert(t.remove(i) =~= s);
    assert(t.contains(v));
}

impl Segment {
    pub fn new(chr_id: u32, start: u64, end: u64, copy_number: u64) -> (r: Segment)
        ensures
            r == (Segment { chr_id, start, end, copy_number }),
    {
        Segment { chr_id, start, end, copy_number }
    }
}

fn blocks_exec(x: &Segment, s: &Segment) -> (r: bool)
    ensures
        r == blocks(*x, *s),
{
    x.start > s.start && x.end > s.end
}

/// The ordered segments of one chromosome.
pub struct Chromosomes {
    pub segment_list: Vec<Segment>,
}

impl View for Chromosomes {
    type V = Seq<Segment>;

    open spec fn view(&self) -> Seq<Segment> {
        self.segment_list@
    }
}

impl Chromosomes {
    /// Inserts `seg` before the first segment whose start and end both exceed its own.
    pub fn add(&mut self, seg: Segment)
        ensures
            exists|i: int|
                is_insertion_point(old(self)@, seg, i) && final(self)@ == old(self)@.insert(
                    i,
                    seg,
                ),
    {
        let n = self.segment_list.len();
        let mut index: usize = 0;
        while index < n && !blocks_exec(&self.segment_list[index], &seg)
            invariant
                n == self.segment_list.len(),
                index <= n,
                forall|k: int| 0 <= k < index ==> !blocks(#[trigger] self.segment_list@[k], seg),
            decreases n - index,
        {
            index += 1;
        }
        self.segment_list.insert(index, seg);
        assert(is_insertion_point(old(self)@, seg, index as int));
    }

    pub fn len(&self) -> (r: usize)
        ensures
            r == self@.len(),
    {
        self.segment_list.len()
    }
}

/// A genome-wide segment set: one bucket of ordered segments per autosome.
pub struct GenomicSegments {
    pub chromosomes_list: Vec<Chromosomes>,
}

impl View for GenomicSegments {
    type V = Seq<Seq<Segment>>;

    open spec fn view(&self) -> Seq<Seq<Segment>> {
        Seq::new(self.chromosomes_list@.len(), |i: int| self.chromosomes_list@[i]@)
    }
}

/// Well-formed buckets: one per autosome, each holding valid segments of its own chromosome.
pub open spec fn wf_buckets(b: Seq<Seq<Segment>>) -> bool {
    &&& b.len() == CHROMOSOME_COUNT
    &&& forall|c: int, k: int|
        0 <= c < b.len() && 0 <= k < b[c].len() ==> valid_segment(#[trigger] b[c][k])
            && b[c][k].chr_id == c + 1
}

/// The buckets after `seg` has been added to its chromosome's bucket.
pub open spec fn added(b: Seq<Seq<Segment>>, seg: Segment, i: int) -> Seq<Seq<Segment>> {
    b.update(seg.chr_id - 1, b[seg.chr_id - 1].insert(i, seg))
}

impl GenomicSegments {
    pub open spec fn wf(&self) -> bool {
        wf_buckets(self@)
    }

    /// An empty set with one bucket per autosome.
    pub fn new() -> (r: GenomicSegments)
        ensures
            r.wf(),
            r@ =~= Seq::new(CHROMOSOME_COUNT as nat, |i: int| Seq::<Segment>::empty()),
    {
        let mut genoms = GenomicSegments { chromosomes_list: Vec::new() };
        let mut c: usize = 0;
        while c < CHROMOSOME_COUNT
            invariant
                c <= CHROMOSOME_COUNT,
                genoms.chromosomes_list@.len() == c,
                forall|i: int| 0 <= i < c ==> (#[trigger] genoms.chromosomes_list@[i])@.len() == 0,
            decreases CHROMOSOME_COUNT - c,
        {
            genoms.chromosomes_list.push(Chromosomes { segment_list: Vec::new() });
            c += 1;
        }
        assert forall|i: int| 0 <= i < CHROMOSOME_COUNT implies #[trigger] genoms@[i]
            =~= Seq::<Segment>::empty() by {}
        genoms
    }

    /// Adds a segment to the bucket of its chromosome, at its insertion point there.
    pub fn add(&mut self, seg: Segment)
        requires
            old(self).wf(),
            valid_segment(seg),
        ensures
            final(self).wf(),
            exists|i: int|
                is_insertion_point(old(self)@[seg.chr_id - 1], seg, i) && final(self)@ == added(
                    old(self)@,
                    seg,
                    i,
                ),
    {
        let idx = (seg.chr_id - 1) as usize;
        self.chromosomes_list[idx].add(seg);
        let ghost b = old(self)@;
        let ghost i = choose|i: int|
            is_insertion_point(b[idx as int], seg, i) && self.chromosomes_list@[idx as int]@
                == b[idx as int].insert(i, seg);
        assert(self@ =~= added(b, seg, i));
        proof {
            lemma_added_wf(b, seg, i);
        }
    }

    /// The segments of bucket `c` (chromosome `c + 1`).
    pub fn bucket(&self, c: usize) -> (r: &Vec<Segment>)
        requires
            c < self@.len(),
        ensures
            r@ == self@[c as int],
    {
        &self.chromosomes_list[c].segment_list
    }
}

} // verus!
