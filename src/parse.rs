use vstd::prelude::*;
use crate::segments::{
    added, is_insertion_point, lemma_multiset_insert, valid_segment, GenomicSegments, Segment,
    CHROMOSOME_COUNT,
};

verus! {

pub const TAB: u8 = 9;

pub const DOT: u8 = 46;

/// The tab-separated fields of a line; a line without a tab is one field.
pub open spec fn split_tabs(s: Seq<u8>) -> Seq<Seq<u8>>
    decreases s.len(),
{
    if s.len() == 0 {
        seq![Seq::empty()]
    } else {
        let f = split_tabs(s.drop_last());
        if s.last() == TAB {
            f.push(Seq::empty())
        } else {
            f.update(f.len() - 1, f.last().push(s.last()))
        }
    }
}

proof fn lemma_split_nonempty(s: Seq<u8>)
    ensures
        split_tabs(s).len() >= 1,
    decreases s.len(),
{
    if s.len() > 0 {
        lemma_split_nonempty(s.drop_last());
    }
}

pub open spec fn is_digit(b: u8) -> bool {
    48 <= b <= 57
}

pub open spec fn all_digits(s: Seq<u8>) -> bool {
    forall|i: int| 0 <= i < s.len() ==> is_digit(#[trigger] s[i])
}

/// The number that a string of decimal digits spells.
pub open spec fn digits_value(s: Seq<u8>) -> int
    decreases s.len(),
{
    if s.len() == 0 {
        0
    } else {
        digits_value(s.drop_last()) * 10 + (s.last() - 48)
    }
}

/// A non-empty string of decimal digits whose value fits in `u64`.
pub open spec fn spec_parse_u64(s: Seq<u8>) -> Option<u64> {
    if s.len() > 0 && all_digits(s) && digits_value(s) <= u64::MAX {
        Some(digits_value(s) as u64)
    } else {
        None
    }
}

/// Index of the first `.` in `s`, or -1.
pub open spec fn find_dot(s: Seq<u8>) -> int
    decreases s.len(),
{
    if s.len() == 0 {
        -1
    } else if find_dot(s.drop_last()) >= 0 {
        find_dot(s.drop_last())
    } else if s.last() == DOT {
        s.len() - 1
    } else {
        -1
    }
}

pub open spec fn digit_at(f: Seq<u8>, i: int) -> int {
    if i < f.len() {
        f[i] - 48
    } else {
        0
    }
}

/// Thousandths spelled by the first three digits after the point; later digits are dropped.
pub open spec fn frac_milli(f: Seq<u8>) -> int {
    digit_at(f, 0) * 100 + digit_at(f, 1) * 10 + digit_at(f, 2)
}

/// A decimal `I` or `I.F` (`I`, `F` non-empty digit strings) in thousandths, when that fits in `u64`.
pub open spec fn spec_parse_milli(s: Seq<u8>) -> Option<u64> {
    let k = find_dot(s);
    let int_part = if k < 0 {
        s
    } else {
        s.take(k)
    };
    let frac = if k < 0 {
        Seq::<u8>::empty()
    } else {
        s.skip(k + 1)
    };
    if int_part.len() > 0 && all_digits(int_part) && all_digits(frac) && (k < 0 || frac.len() > 0)
        && digits_value(int_part) * 1000 + frac_milli(frac) <= u64::MAX {
        Some((digits_value(int_part) * 1000 + frac_milli(frac)) as u64)
    } else {
        None
    }
}

proof fn lemma_digits_nonneg(s: Seq<u8>)
    requires
        all_digits(s),
    ensures
        digits_value(s) >= 0,
    decreases s.len(),
{
    if s.len() > 0 {
        lemma_digits_nonneg(s.drop_last());
    }
}

proof fn lemma_digits_prefix(s: Seq<u8>, k: int)
    requires
        all_digits(s),
        0 <= k <= s.len(),
    ensures
        digits_value(s) >= digits_value(s.take(k)),
    decreases s.len(),
{
    if k < s.len() {
        assert(s.drop_last().take(k) =~= s.take(k));
        lemma_digits_prefix(s.drop_last(), k);
        lemma_digits_nonneg(s.drop_last());
    } else {
        assert(s.take(k) =~= s);
    }
}

/// Splits a line at its tabs.
pub fn split_fields(line: &Vec<u8>) -> (r: Vec<Vec<u8>>)
    ensures
        r@.map_values(|v: Vec<u8>| v@) == split_tabs(line@),
{
    let mut fields: Vec<Vec<u8>> = Vec::new();
    let mut cur: Vec<u8> = Vec::new();
    let mut i: usize = 0;
    while i < line.len()
        invariant
            i <= line@.len(),
            fields@.map_values(|v: Vec<u8>| v@).push(cur@) == split_tabs(line@.take(i as int)),
        decreases line@.len() - i,
    {
        let b = line[i];
        let ghost before = fields@.map_values(|v: Vec<u8>| v@).push(cur@);
        assert(line@.take(i + 1).drop_last() =~= line@.take(i as int));
        assert(line@.take(i + 1).last() == b);
        if b == TAB {
            let done = cur;
            fields.push(done);
            cur = Vec::new();
            assert(fields@.map_values(|v: Vec<u8>| v@).push(cur@) =~= before.push(Seq::empty()));
        } else {
            cur.push(b);
            assert(fields@.map_values(|v: Vec<u8>| v@).push(cur@) =~= before.update(
                before.len() - 1,
                before.last().push(b),
            ));
        }
        i += 1;
    }
    assert(line@.take(line@.len() as int) =~= line@);
    fields.push(cur);
    assert(fields@.map_values(|v: Vec<u8>| v@) =~= split_tabs(line@));
    fields
}

/// The number spelled by `s[lo..hi]`, when that is a non-empty digit string fitting in `u64`.
fn parse_u64_range(s: &Vec<u8>, lo: usize, hi: usize) -> (r: Option<u64>)
    requires
        lo <= hi <= s@.len(),
    ensures
        r == spec_parse_u64(s@.subrange(lo as int, hi as int)),
{
    let ghost t = s@.subrange(lo as int, hi as int);
    if lo == hi {
        return None;
    }
    let mut v: u64 = 0;
    let mut i: usize = lo;
    while i < hi
        invariant
            lo <= i <= hi <= s@.len(),
            t == s@.subrange(lo as int, hi as int),
            all_digits(t.take(i - lo)),
            v == digits_value(t.take(i - lo)),
        decreases hi - i,
    {
        let b = s[i];
        assert(t.take(i - lo + 1).drop_last() =~= t.take(i - lo));
        assert(t.take(i - lo + 1).last() == b);
        if b < 48 || b > 57 {
            assert(!is_digit(t[i - lo]));
            return None;
        }
        let d = (b - 48) as u64;
        if v > (u64::MAX - d) / 10 {
            proof {
                assert(v * 10 + d > u64::MAX) by (nonlinear_arith)
                    requires
                        v > (u64::MAX - d) / 10,
                        d <= 9,
                ;
                if all_digits(t) {
                    lemma_digits_prefix(t, i - lo + 1);
                }
            }
            return None;
        }
        assert(v * 10 + d <= u64::MAX) by (nonlinear_arith)
            requires
                v <= (u64::MAX - d) / 10,
                d <= 9,
        ;
        v = v * 10 + d;
        i += 1;
    }
    assert(t.take(hi - lo) =~= t);
    Some(v)
}

/// The value of `s` as a decimal natural number, if it spells one that fits in `u64`.
pub fn parse_u64(s: &Vec<u8>) -> (r: Option<u64>)
    ensures
        r == spec_parse_u64(s@),
{
    assert(s@.subrange(0, s@.len() as int) =~= s@);
    parse_u64_range(s, 0, s.len())
}

proof fn lemma_find_dot(s: Seq<u8>, k: int)
    requires
        0 <= k <= s.len(),
        forall|i: int| 0 <= i < k ==> #[trigger] s[i] != DOT,
    ensures
        find_dot(s.take(k)) == -1,
    decreases k,
{
    if k > 0 {
        assert(s.take(k).drop_last() =~= s.take(k - 1));
        lemma_find_dot(s, k - 1);
    }
}

proof fn lemma_find_dot_extend(s: Seq<u8>, k: int)
    requires
        0 <= k <= s.len(),
        find_dot(s.take(k)) >= 0,
    ensures
        find_dot(s) == find_dot(s.take(k)),
    decreases s.len() - k,
{
    if k < s.len() {
        assert(s.take(k + 1).drop_last() =~= s.take(k));
        lemma_find_dot_extend(s, k + 1);
    } else {
        assert(s.take(k) =~= s);
    }
}

/// A decimal copy number (`3`, `2.5`, `1.25`) in thousandths; see `spec_parse_milli`.
pub fn parse_milli(s: &Vec<u8>) -> (r: Option<u64>)
    ensures
        r == spec_parse_milli(s@),
{
    let n = s.len();
    let mut k: usize = 0;
    while k < n && s[k] != DOT
        invariant
            k <= n == s@.len(),
            forall|i: int| 0 <= i < k ==> #[trigger] s@[i] != DOT,
        decreases n - k,
    {
        k += 1;
    }
    proof {
        lemma_find_dot(s@, k as int);
        if k < n {
            assert(s@.take(k + 1).drop_last() =~= s@.take(k as int));
            lemma_find_dot_extend(s@, k + 1);
        } else {
            assert(s@.take(k as int) =~= s@);
        }
    }
    assert(find_dot(s@) == (if k < n {
        k as int
    } else {
        -1
    }));
    let ghost int_part = s@.take(k as int);
    assert(s@.subrange(0, k as int) =~= int_part);
    let whole = match parse_u64_range(s, 0, k) {
        Some(v) => v,
        None => {
            return None;
        },
    };
    proof {
        lemma_digits_nonneg(int_part);
    }
    let mut frac: u64 = 0;
    if k < n {
        let ghost f = s@.skip(k + 1);
        if k + 1 == n {
            assert(f.len() == 0);
            return None;
        }
        let mut i: usize = k + 1;
        while i < n
            invariant
                k < i <= n == s@.len(),
                f == s@.skip(k + 1),
                forall|j: int| 0 <= j < i - (k + 1) ==> is_digit(#[trigger] f[j]),
                find_dot(s@) == k,
                int_part == s@.take(k as int),
                spec_parse_u64(int_part) == Some(whole),
            decreases n - i,
        {
            if s[i] < 48 || s[i] > 57 {
                assert(f[i - (k + 1)] == s@[i as int]);
                assert(!is_digit(f[i - (k + 1)]));
                assert(!all_digits(f));
                return None;
            }
            i += 1;
        }
        let d0 = (s[k + 1] - 48) as u64;
        assert(f[0] == s@[k + 1]);
        let d1: u64 = if n - k > 2 {
            assert(f[1] == s@[k + 2]);
            (s[k + 2] - 48) as u64
        } else {
            0
        };
        let d2: u64 = if n - k > 3 {
            assert(f[2] == s@[k + 3]);
            (s[k + 3] - 48) as u64
        } else {
            0
        };
        frac = d0 * 100 + d1 * 10 + d2;
        assert(frac == frac_milli(f));
    }
    let ghost fseq = if k < n {
        s@.skip(k + 1)
    } else {
        Seq::<u8>::empty()
    };
    assert(frac == frac_milli(fseq));
    assert(all_digits(fseq));
    assert(all_digits(int_part));
    assert(whole == digits_value(int_part));
    assert(int_part.len() > 0);
    let total: u128 = whole as u128 * 1000 + frac as u128;
    if total > u64::MAX as u128 {
        return None;
    }
    Some(total as u64)
}

/// Copy number of the neutral (diploid) state, in thousandths; predicted segments
/// at this copy number carry no comparative signal and are skipped.
pub const NEUTRAL_COPY_NUMBER: u64 = 2000;

/// Why a line of a segment file cannot be read.
#[derive(Clone, Copy, Debug, PartialEq, Eq, Structural)]
pub enum LineError {
    /// The line has fewer fields than its format needs.
    MissingField,
    /// A numeric field does not hold a number of the expected form.
    BadNumber,
    /// The segment would end before it starts.
    BadInterval,
    /// The chromosome is not one of the autosomes.
    ChromosomeOutOfRange,
}

/// A line that cannot be read, with its index in the file (0 is the header).
#[derive(Clone, Copy, Debug, PartialEq, Eq, Structural)]
pub struct ParseError {
    pub line: usize,
    pub kind: LineError,
}

/// The autosome that a truth-file chromosome name (`chr1` .. `chr22`) names.
pub open spec fn chr_of_name(f: Seq<u8>) -> Option<u32> {
    if 4 <= f.len() <= 5 && f[0] == 99 && f[1] == 104 && f[2] == 114 && all_digits(f.skip(3))
        && f[3] != 48 && 1 <= digits_value(f.skip(3)) <= 22 {
        Some(digits_value(f.skip(3)) as u32)
    } else {
        None
    }
}

/// A truth line: `<chrN>\t<start>\t<end>\t<copy number>[\t...]`. Lines of other
/// chromosomes are skipped (`Ok(None)`).
pub open spec fn truth_line(s: Seq<u8>) -> Result<Option<Segment>, LineError> {
    let f = split_tabs(s);
    match chr_of_name(f[0]) {
        None => Ok(None),
        Some(id) => {
            if f.len() < 4 {
                Err(LineError::MissingField)
            } else if spec_parse_u64(f[1]) is None || spec_parse_u64(f[2]) is None
                || spec_parse_milli(f[3]) is None {
                Err(LineError::BadNumber)
            } else if spec_parse_u64(f[1])->Some_0 > spec_parse_u64(f[2])->Some_0 {
                Err(LineError::BadInterval)
            } else {
                Ok(
                    Some(
                        Segment {
                            chr_id: id,
                            start: spec_parse_u64(f[1])->Some_0,
                            end: spec_parse_u64(f[2])->Some_0,
                            copy_number: spec_parse_milli(f[3])->Some_0,
                        },
                    ),
                )
            }
        },
    }
}

/// A predicted line: chromosome number in field 0, copy number in field 3, start and
/// end in fields 10 and 11. Comment lines (`#`) and neutral segments are skipped.
pub open spec fn predicted_line(s: Seq<u8>) -> Result<Option<Segment>, LineError> {
    let f = split_tabs(s);
    if s.len() > 0 && s[0] == 35 {
        Ok(None)
    } else if f.len() < 12 {
        Err(LineError::MissingField)
    } else if spec_parse_u64(f[0]) is None || spec_parse_milli(f[3]) is None || spec_parse_u64(
        f[10],
    ) is None || spec_parse_u64(f[11]) is None {
        Err(LineError::BadNumber)
    } else if spec_parse_milli(f[3])->Some_0 == NEUTRAL_COPY_NUMBER {
        Ok(None)
    } else if !(1 <= spec_parse_u64(f[0])->Some_0 <= CHROMOSOME_COUNT) {
        Err(LineError::ChromosomeOutOfRange)
    } else if spec_parse_u64(f[10])->Some_0 > spec_parse_u64(f[11])->Some_0 {
        Err(LineError::BadInterval)
    } else {
        Ok(
            Some(
                Segment {
                    chr_id: spec_parse_u64(f[0])->Some_0 as u32,
                    start: spec_parse_u64(f[10])->Some_0,
                    end: spec_parse_u64(f[11])->Some_0,
                    copy_number: spec_parse_milli(f[3])->Some_0,
                },
            ),
        )
    }
}

fn chr_from_name(f: &Vec<u8>) -> (r: Option<u32>)
    ensures
        r == chr_of_name(f@),
{
    let n = f.len();
    if n < 4 || n > 5 || f[0] != 99 || f[1] != 104 || f[2] != 114 {
        return None;
    }
    let ghost t = f@.skip(3);
    assert(t[0] == f@[3]);
    if f[3] < 49 || f[3] > 57 {
        assert(f@[3] == 48 || !is_digit(t[0]));
        return None;
    }
    let d0 = (f[3] - 48) as u32;
    if n == 4 {
        assert(t.drop_last() =~= Seq::<u8>::empty());
        assert(digits_value(t.drop_last()) == 0);
        assert(t.last() == f@[3]);
        assert(all_digits(t));
        assert(digits_value(t) == d0);
        return Some(d0);
    }
    if f[4] < 48 || f[4] > 57 {
        assert(!is_digit(t[1]));
        return None;
    }
    let v = d0 * 10 + (f[4] - 48) as u32;
    assert(t.drop_last().drop_last() =~= Seq::<u8>::empty());
    assert(all_digits(t));
    assert(t.drop_last().last() == f@[3]);
    assert(digits_value(t.drop_last().drop_last()) == 0);
    assert(t.last() == f@[4]);
    assert(digits_value(t.drop_last()) == d0);
    assert(digits_value(t) == v);
    if v > 22 {
        return None;
    }
    Some(v)
}

/// Reads one line of a truth segment file; see `truth_line`.
pub fn parse_truth_line(line: &Vec<u8>) -> (r: Result<Option<Segment>, LineError>)
    ensures
        r == truth_line(line@),
{
    let fields = split_fields(line);
    let ghost f = split_tabs(line@);
    proof {
        lemma_split_nonempty(line@);
        assert forall|i: int| 0 <= i < fields@.len() implies #[trigger] fields@[i]@ == f[i] by {
            assert(fields@.map_values(|v: Vec<u8>| v@)[i] == fields@[i]@);
        }
    }
    let chr_id = match chr_from_name(&fields[0]) {
        None => {
            return Ok(None);
        },
        Some(id) => id,
    };
    if fields.len() < 4 {
        return Err(LineError::MissingField);
    }
    let start = parse_u64(&fields[1]);
    let end = parse_u64(&fields[2]);
    let copy_number = parse_milli(&fields[3]);
    match (start, end, copy_number) {
        (Some(start), Some(end), Some(copy_number)) => {
            if start > end {
                Err(LineError::BadInterval)
            } else {
                Ok(Some(Segment { chr_id, start, end, copy_number }))
            }
        },
        _ => Err(LineError::BadNumber),
    }
}

/// Reads one line of a predicted segment file; see `predicted_line`.
pub fn parse_predicted_line(line: &Vec<u8>) -> (r: Result<Option<Segment>, LineError>)
    ensures
        r == predicted_line(line@),
{
    let fields = split_fields(line);
    let ghost f = split_tabs(line@);
    proof {
        lemma_split_nonempty(line@);
        assert forall|i: int| 0 <= i < fields@.len() implies #[trigger] fields@[i]@ == f[i] by {
            assert(fields@.map_values(|v: Vec<u8>| v@)[i] == fields@[i]@);
        }
    }
    if line.len() > 0 && line[0] == 35 {
        return Ok(None);
    }
    if fields.len() < 12 {
        return Err(LineError::MissingField);
    }
    let chr = parse_u64(&fields[0]);
    let copy_number = parse_milli(&fields[3]);
    let start = parse_u64(&fields[10]);
    let end = parse_u64(&fields[11]);
    match (chr, copy_number, start, end) {
        (Some(chr), Some(copy_number), Some(start), Some(end)) => {
            if copy_number == NEUTRAL_COPY_NUMBER {
                Ok(None)
            } else if chr < 1 || chr > CHROMOSOME_COUNT as u64 {
                Err(LineError::ChromosomeOutOfRange)
            } else if start > end {
                Err(LineError::BadInterval)
            } else {
                Ok(Some(Segment { chr_id: chr as u32, start, end, copy_number }))
            }
        },
        _ => Err(LineError::BadNumber),
    }
}

/// A line of the truth format (`truth`) or of the predicted format.
pub open spec fn line_result(truth: bool, s: Seq<u8>) -> Result<Option<Segment>, LineError> {
    if truth {
        truth_line(s)
    } else {
        predicted_line(s)
    }
}

/// The segments read from lines `1 .. m` (line 0 is the header), or the error of the
/// first line that cannot be read.
pub open spec fn segments_upto(lines: Seq<Vec<u8>>, m: int, truth: bool) -> Result<Seq<Segment>, ParseError>
    decreases m,
{
    if m <= 1 {
        Ok(Seq::empty())
    } else {
        match segments_upto(lines, m - 1, truth) {
            Err(e) => Err(e),
            Ok(p) => match line_result(truth, lines[m - 1]@) {
                Err(k) => Err(ParseError { line: (m - 1) as usize, kind: k }),
                Ok(None) => Ok(p),
                Ok(Some(seg)) => Ok(p.push(seg)),
            },
        }
    }
}

/// The segments of a whole file.
pub open spec fn file_segments(lines: Seq<Vec<u8>>, truth: bool) -> Result<Seq<Segment>, ParseError> {
    segments_upto(lines, lines.len() as int, truth)
}

/// The segments of `segs` on chromosome `c + 1`, in order.
pub open spec fn bucket_of(segs: Seq<Segment>, c: int) -> Seq<Segment>
    decreases segs.len(),
{
    if segs.len() == 0 {
        Seq::empty()
    } else if segs.last().chr_id == c + 1 {
        bucket_of(segs.drop_last(), c).push(segs.last())
    } else {
        bucket_of(segs.drop_last(), c)
    }
}

/// What a reader owes: the error of the first bad line, or a set whose bucket `c`
/// holds exactly the file's segments of chromosome `c + 1`.
pub open spec fn read_ok(lines: Seq<Vec<u8>>, truth: bool, r: Result<GenomicSegments, ParseError>) -> bool {
    match r {
        Err(e) => file_segments(lines, truth) == Err::<Seq<Segment>, ParseError>(e),
        Ok(gs) => {
            &&& file_segments(lines, truth) is Ok
            &&& gs.wf()
            &&& forall|c: int|
                0 <= c < CHROMOSOME_COUNT ==> (#[trigger] gs@[c]).to_multiset() =~= bucket_of(
                    file_segments(lines, truth)->Ok_0,
                    c,
                ).to_multiset()
        },
    }
}

proof fn lemma_segments_err_stays(lines: Seq<Vec<u8>>, m: int, m2: int, truth: bool, e: ParseError)
    requires
        m <= m2,
        segments_upto(lines, m, truth) == Err::<Seq<Segment>, ParseError>(e),
    ensures
        segments_upto(lines, m2, truth) == Err::<Seq<Segment>, ParseError>(e),
    decreases m2 - m,
{
    if m < m2 {
        lemma_segments_err_stays(lines, m, m2 - 1, truth, e);
    }
}

fn read_segments(lines: &Vec<Vec<u8>>, truth: bool) -> (r: Result<GenomicSegments, ParseError>)
    ensures
        read_ok(lines@, truth, r),
{
    broadcast use vstd::seq_lib::group_to_multiset_ensures;

    let mut gs = GenomicSegments::new();
    let ghost mut segs = Seq::<Segment>::empty();
    let mut i: usize = 1;
    proof {
        assert forall|c: int| 0 <= c < CHROMOSOME_COUNT implies (#[trigger] gs@[c]).to_multiset()
            =~= bucket_of(segs, c).to_multiset() by {
            assert(gs@[c] =~= Seq::<Segment>::empty());
        }
    }
    while i < lines.len()
        invariant
            1 <= i,
            i <= lines@.len() || (lines@.len() == 0 && i == 1),
            gs.wf(),
            segments_upto(lines@, i as int, truth) == Ok::<Seq<Segment>, ParseError>(segs),
            forall|c: int|
                0 <= c < CHROMOSOME_COUNT ==> (#[trigger] gs@[c]).to_multiset() =~= bucket_of(
                    segs,
                    c,
                ).to_multiset(),
        decreases lines@.len() - i,
    {
        let res = if truth {
            parse_truth_line(&lines[i])
        } else {
            parse_predicted_line(&lines[i])
        };
        match res {
            Err(kind) => {
                proof {
                    lemma_segments_err_stays(
                        lines@,
                        i + 1,
                        lines@.len() as int,
                        truth,
                        ParseError { line: i, kind },
                    );
                }
                return Err(ParseError { line: i, kind });
            },
            Ok(None) => {},
            Ok(Some(seg)) => {
                assert(valid_segment(seg));
                let ghost prev = gs@;
                gs.add(seg);
                proof {
                    let k = choose|k: int|
                        is_insertion_point(prev[seg.chr_id - 1], seg, k) && gs@ == added(prev, seg, k);
                    lemma_multiset_insert(prev[seg.chr_id - 1], k, seg);
                    let s2 = segs.push(seg);
                    assert(s2.drop_last() =~= segs);
                    assert forall|c: int| 0 <= c < CHROMOSOME_COUNT implies (#[trigger] gs@[c]).to_multiset()
                        =~= bucket_of(s2, c).to_multiset() by {
                        if c == seg.chr_id - 1 {
                            bucket_of(segs, c).to_multiset_ensures();
                        }
                    }
                    segs = s2;
                }
            },
        }
        i += 1;
    }
    proof {
        if lines@.len() == 0 {
            assert(segments_upto(lines@, 0, truth) == Ok::<Seq<Segment>, ParseError>(Seq::<Segment>::empty()));
        } else {
            assert(i == lines@.len());
        }
        assert(file_segments(lines@, truth) == Ok::<Seq<Segment>, ParseError>(segs));
        assert(file_segments(lines@, truth)->Ok_0 == segs);
    }
    Ok(gs)
}

/// Reads the truth segment set from the lines of its file (line 0 is a header).
pub fn read_from_actual_result(lines: &Vec<Vec<u8>>) -> (r: Result<GenomicSegments, ParseError>)
    ensures
        read_ok(lines@, true, r),
{
    read_segments(lines, true)
}

/// Reads the predicted segment set from the lines of its file (line 0 is a header).
pub fn read_from_accurity_result(lines: &Vec<Vec<u8>>) -> (r: Result<GenomicSegments, ParseError>)
    ensures
        read_ok(lines@, false, r),
{
    read_segments(lines, false)
}

} // verus!
