use vstd::prelude::*;

verus! {

/// The accumulated insertion count of one genomic bin.
#[derive(Clone, Copy, Debug, PartialEq, Eq, Structural)]
pub struct BinCount {
    pub bin: usize,
    pub count: u32,
}

/// Sum of all entry values.
pub open spec fn value_total(vals: Seq<u8>, n: int) -> nat
    decreases n,
{
    if n <= 0 {
        0
    } else {
        value_total(vals, n - 1) + vals[n - 1] as nat
    }
}

/// Sum of the values among the first `n` entries whose column falls in bin `b`.
pub open spec fn bin_total(cols: Seq<usize>, vals: Seq<u8>, res: nat, b: int, n: int) -> nat
    decreases n,
{
    if n <= 0 {
        0
    } else {
        bin_total(cols, vals, res, b, n - 1) + if cols[n - 1] as int / res as int == b {
            vals[n - 1] as nat
        } else {
            0
        }
    }
}

pub open spec fn bin_occurs(cols: Seq<usize>, res: nat, b: int) -> bool {
    exists|j: int| 0 <= j < cols.len() && #[trigger] cols[j] as int / res as int == b
}

/// Whether bin `b` is listed in `bins`.
pub open spec fn lists_bin(bins: Seq<BinCount>, b: usize) -> bool {
    exists|i: int| 0 <= i < bins.len() && bins[i].bin == b
}

proof fn lemma_bin_total_bounded(cols: Seq<usize>, vals: Seq<u8>, res: nat, b: int, n: int)
    ensures
        bin_total(cols, vals, res, b, n) <= value_total(vals, n),
    decreases n,
{
    if n > 0 {
        lemma_bin_total_bounded(cols, vals, res, b, n - 1);
    }
}

proof fn lemma_value_total_monotone(vals: Seq<u8>, m: int, n: int)
    requires
        m <= n,
    ensures
        value_total(vals, m) <= value_total(vals, n),
    decreases n - m,
{
    if m < n {
        lemma_value_total_monotone(vals, m, n - 1);
    }
}

/// Accumulates the nonzero entries of a sparse insertion matrix (given by
/// its column indices and values) into bins of `resolution` columns.
/// The result lists each bin that some entry falls in, once, in ascending
/// order, with the sum of the values of the entries in it.
pub fn bin_insertions(col_indices: &Vec<usize>, values: &Vec<u8>, resolution: usize) -> (r: Vec<
    BinCount,
>)
    requires
        resolution > 0,
        col_indices@.len() == values@.len(),
        value_total(values@, values@.len() as int) <= u32::MAX,
    ensures
        forall|i: int, k: int| 0 <= i < k < r@.len() ==> r@[i].bin < r@[k].bin,
        forall|i: int|
            0 <= i < r@.len() ==> bin_occurs(col_indices@, resolution as nat, #[trigger] r@[i].bin as int)
                && r@[i].count == bin_total(
                col_indices@,
                values@,
                resolution as nat,
                r@[i].bin as int,
                values@.len() as int,
            ),
        forall|j: int|
            0 <= j < col_indices@.len() ==> lists_bin(r@, #[trigger] col_indices@[j] / resolution),
{
    let n = col_indices.len();
    let ghost cols = col_indices@;
    let ghost vals = values@;
    let ghost res = resolution as nat;
    let mut out: Vec<BinCount> = Vec::new();
    let mut have_prev = false;
    let mut prev: usize = 0;
    loop
        invariant
            n == cols.len(),
            n == vals.len(),
            cols == col_indices@,
            vals == values@,
            res == resolution as nat,
            resolution > 0,
            value_total(vals, n as int) <= u32::MAX,
            forall|i: int, k: int| 0 <= i < k < out@.len() ==> out@[i].bin < out@[k].bin,
            forall|i: int|
                0 <= i < out@.len() ==> bin_occurs(cols, res, #[trigger] out@[i].bin as int)
                    && out@[i].count == bin_total(cols, vals, res, out@[i].bin as int, n as int),
            have_prev ==> out@.len() > 0 && out@.last().bin == prev,
            !have_prev ==> out@.len() == 0,
            forall|j: int|
                0 <= j < n && have_prev && #[trigger] (col_indices@[j] / resolution) <= prev
                    ==> lists_bin(out@, col_indices@[j] / resolution),
        decreases
                (if have_prev {
                    usize::MAX - prev
                } else {
                    usize::MAX + 1
                }),
    {
        let mut found = false;
        let mut best: usize = 0;
        let mut j: usize = 0;
        while j < n
            invariant
                n == cols.len(),
                cols == col_indices@,
                resolution > 0,
                res == resolution as nat,
                j <= n,
                found ==> bin_occurs(cols, res, best as int) && (!have_prev || best > prev),
                forall|k: int|
                    0 <= k < j && (!have_prev || #[trigger] (col_indices@[k] / resolution) > prev) ==> found
                        && best <= col_indices@[k] / resolution,
            decreases n - j,
        {
            let b = col_indices[j] / resolution;
            if (!have_prev || b > prev) && (!found || b < best) {
                found = true;
                best = b;
                assert(col_indices@[j as int] as int / res as int == best as int);
            }
            j += 1;
        }
        if !found {
            assert forall|j: int| 0 <= j < n implies lists_bin(out@, #[trigger] col_indices@[j] / resolution) by {
                let b = col_indices@[j] / resolution;
                if !have_prev || b > prev {
                    assert(found);
                }
            }
            return out;
        }
        let mut s: u32 = 0;
        let mut k: usize = 0;
        while k < n
            invariant
                n == cols.len(),
                n == vals.len(),
                cols == col_indices@,
                vals == values@,
                res == resolution as nat,
                resolution > 0,
                k <= n,
                value_total(vals, n as int) <= u32::MAX,
                s == bin_total(cols, vals, res, best as int, k as int),
            decreases n - k,
        {
            proof {
                lemma_bin_total_bounded(cols, vals, res, best as int, k + 1);
                lemma_value_total_monotone(vals, k + 1, n as int);
            }
            if col_indices[k] / resolution == best {
                s = s + values[k] as u32;
            }
            k += 1;
        }
        let ghost old_out = out@;
        out.push(BinCount { bin: best, count: s });
        proof {
            assert forall|j: int|
                0 <= j < n && #[trigger] (col_indices@[j] / resolution) <= best implies lists_bin(out@, col_indices@[j] / resolution) by {
                if have_prev && col_indices@[j] / resolution <= prev {
                    let i = choose|i: int|
                        0 <= i < old_out.len() && old_out[i].bin == col_indices@[j] / resolution;
                    assert(out@[i] == old_out[i]);
                } else {
                    assert(out@[old_out.len() as int].bin == col_indices@[j] / resolution);
                }
            }
        }
        have_prev = true;
        prev = best;
    }
}

/// A bin's starting position resolved to a chromosome and an offset in it.
#[derive(Debug)]
pub struct Locus {
    pub chrom: String,
    pub pos: u64,
}

/// The length of one chromosome.
#[derive(Debug)]
pub struct ChromSize {
    pub name: String,
    pub len: u64,
}

/// A half-open interval `[start, end)` of one chromosome carrying the
/// accumulated insertion count of the bins it covers.
#[derive(Debug)]
pub struct CoverageInterval {
    pub chrom: String,
    pub start: u64,
    pub end: u64,
    pub count: u32,
}

impl View for CoverageInterval {
    type V = (Seq<char>, u64, u64, u32);

    open spec fn view(&self) -> (Seq<char>, u64, u64, u32) {
        (self.chrom@, self.start, self.end, self.count)
    }
}

#[derive(Clone, Copy, Debug, PartialEq, Eq, Structural)]
pub enum TrackError {
    /// An interval lies on a chromosome that the size table lacks.
    MissingChromosome,
    /// An interval starts at or past the end of its chromosome.
    RegionOutOfRange,
}

pub open spec fn views(v: Seq<CoverageInterval>) -> Seq<(Seq<char>, u64, u64, u32)> {
    v.map_values(|c: CoverageInterval| c@)
}

/// The interval that a bin covers before merging.
pub open spec fn regions(bins: Seq<BinCount>, loci: Seq<Locus>, res: u64) -> Seq<(Seq<char>, u64, u64, u32)> {
    Seq::new(bins.len(), |i: int| (loci[i].chrom@, loci[i].pos, (loci[i].pos + res) as u64, bins[i].count))
}

/// Coalesces each run of consecutive intervals with the same chromosome and
/// the same count into one interval from the run's first start to its last end.
pub open spec fn merge_runs(s: Seq<(Seq<char>, u64, u64, u32)>) -> Seq<(Seq<char>, u64, u64, u32)>
    decreases s.len(),
{
    if s.len() == 0 {
        s
    } else {
        let m = merge_runs(s.drop_last());
        let x = s.last();
        if m.len() > 0 && m.last().0 == x.0 && m.last().3 == x.3 {
            m.update(m.len() - 1, (x.0, m.last().1, x.2, x.3))
        } else {
            m.push(x)
        }
    }
}

/// The length recorded for chromosome `c`; where a name repeats, its last entry counts.
pub open spec fn size_of(sizes: Seq<ChromSize>, c: Seq<char>) -> Option<u64>
    decreases sizes.len(),
{
    if sizes.len() == 0 {
        None
    } else if sizes.last().name@ == c {
        Some(sizes.last().len)
    } else {
        size_of(sizes.drop_last(), c)
    }
}

/// Whether interval `i` is the last of its chromosome's run.
pub open spec fn ends_run(m: Seq<(Seq<char>, u64, u64, u32)>, i: int) -> bool {
    i == m.len() - 1 || m[i + 1].0 != m[i].0
}

/// Truncates the last interval of each chromosome's run to the chromosome's length.
pub open spec fn clipped(m: Seq<(Seq<char>, u64, u64, u32)>, sizes: Seq<ChromSize>) -> Seq<(Seq<char>, u64, u64, u32)> {
    Seq::new(
        m.len(),
        |i: int|
            if ends_run(m, i) && size_of(sizes, m[i].0) is Some && m[i].2 > size_of(sizes, m[i].0)->0 {
                (m[i].0, m[i].1, size_of(sizes, m[i].0)->0, m[i].3)
            } else {
                m[i]
            },
    )
}

/// The error that clipping `m` against `sizes` reports, if any: a missing
/// chromosome anywhere comes first, then an interval starting out of range.
pub open spec fn clip_error(m: Seq<(Seq<char>, u64, u64, u32)>, sizes: Seq<ChromSize>) -> Option<TrackError> {
    if exists|i: int| 0 <= i < m.len() && size_of(sizes, #[trigger] m[i].0) is None {
        Some(TrackError::MissingChromosome)
    } else if exists|i: int| 0 <= i < m.len() && #[trigger] m[i].1 >= size_of(sizes, m[i].0)->0 {
        Some(TrackError::RegionOutOfRange)
    } else {
        None
    }
}

/// Looks up the length of chromosome `chrom`.
pub fn chrom_size(sizes: &Vec<ChromSize>, chrom: &String) -> (r: Option<u64>)
    ensures
        r == size_of(sizes@, chrom@),
{
    let mut found: Option<u64> = None;
    let mut i: usize = 0;
    while i < sizes.len()
        invariant
            i <= sizes@.len(),
            found == size_of(sizes@.take(i as int), chrom@),
        decreases sizes@.len() - i,
    {
        assert(sizes@.take(i + 1).drop_last() == sizes@.take(i as int));
        if sizes[i].name == *chrom {
            found = Some(sizes[i].len);
        }
        i += 1;
    }
    assert(sizes@.take(sizes@.len() as int) == sizes@);
    found
}

/// Builds the per-bin intervals `[pos, pos + resolution)` and merges each run of
/// consecutive intervals sharing chromosome and count.
pub fn merge_bins(bins: &Vec<BinCount>, loci: &Vec<Locus>, resolution: u64) -> (r: Vec<CoverageInterval>)
    requires
        bins@.len() == loci@.len(),
        forall|i: int| 0 <= i < loci@.len() ==> #[trigger] loci@[i].pos + resolution <= u64::MAX,
    ensures
        views(r@) == merge_runs(regions(bins@, loci@, resolution)),
{
    let ghost rs = regions(bins@, loci@, resolution);
    let n = bins.len();
    let mut out: Vec<CoverageInterval> = Vec::new();
    if n == 0 {
        assert(views(out@) =~= merge_runs(rs));
        return out;
    }
    let mut cur = CoverageInterval {
        chrom: loci[0].chrom.clone(),
        start: loci[0].pos,
        end: loci[0].pos + resolution,
        count: bins[0].count,
    };
    proof {
        assert(rs.take(1).drop_last() =~= rs.take(0));
        assert(merge_runs(rs.take(0)) =~= Seq::empty());
        assert(views(out@).push(cur@) =~= merge_runs(rs.take(1)));
    }
    let mut i: usize = 1;
    while i < n
        invariant
            1 <= i <= n,
            n == bins@.len(),
            n == loci@.len(),
            rs == regions(bins@, loci@, resolution),
            forall|i: int| 0 <= i < loci@.len() ==> #[trigger] loci@[i].pos + resolution <= u64::MAX,
            views(out@).push(cur@) == merge_runs(rs.take(i as int)),
        decreases n - i,
    {
        proof {
            assert(rs.take(i + 1).drop_last() =~= rs.take(i as int));
            assert(rs.take(i + 1).last() == rs[i as int]);
        }
        let ghost before = views(out@).push(cur@);
        if loci[i].chrom == cur.chrom && bins[i].count == cur.count {
            cur.end = loci[i].pos + resolution;
            proof {
                assert(views(out@).push(cur@) =~= before.update(before.len() - 1, (rs[i as int].0, before.last().1, rs[i as int].2, rs[i as int].3)));
            }
        } else {
            out.push(cur);
            cur = CoverageInterval {
                chrom: loci[i].chrom.clone(),
                start: loci[i].pos,
                end: loci[i].pos + resolution,
                count: bins[i].count,
            };
            proof {
                assert(views(out@) =~= before);
                assert(views(out@).push(cur@) =~= before.push(rs[i as int]));
            }
        }
        i += 1;
    }
    out.push(cur);
    proof {
        assert(rs.take(n as int) =~= rs);
        assert(views(out@) =~= merge_runs(rs));
    }
    out
}

/// Truncates the last interval of each chromosome's run to that chromosome's
/// length. Fails if a chromosome is missing from `sizes`, or if an interval
/// starts at or past its chromosome's end.
pub fn clip_to_chromosomes(merged: &Vec<CoverageInterval>, sizes: &Vec<ChromSize>) -> (r: Result<
    Vec<CoverageInterval>,
    TrackError,
>)
    ensures
        match r {
            Ok(v) => clip_error(views(merged@), sizes@) is None && views(v@) == clipped(
                views(merged@),
                sizes@,
            ),
            Err(e) => clip_error(views(merged@), sizes@) == Some(e),
        },
{
    let ghost m = views(merged@);
    let n = merged.len();
    let mut i: usize = 0;
    while i < n
        invariant
            n == merged@.len(),
            m == views(merged@),
            i <= n,
            forall|k: int| 0 <= k < i ==> size_of(sizes@, #[trigger] m[k].0) is Some,
        decreases n - i,
    {
        if chrom_size(sizes, &merged[i].chrom).is_none() {
            assert(m[i as int].0 == merged@[i as int].chrom@);
            return Err(TrackError::MissingChromosome);
        }
        i += 1;
    }
    let mut out: Vec<CoverageInterval> = Vec::new();
    let mut i: usize = 0;
    while i < n
        invariant
            n == merged@.len(),
            m == views(merged@),
            i <= n,
            forall|k: int| 0 <= k < n ==> size_of(sizes@, #[trigger] m[k].0) is Some,
            forall|k: int| 0 <= k < i ==> #[trigger] m[k].1 < size_of(sizes@, m[k].0)->0,
            views(out@) == clipped(m, sizes@).take(i as int),
        decreases n - i,
    {
        let size = chrom_size(sizes, &merged[i].chrom);
        assert(m[i as int].0 == merged@[i as int].chrom@);
        let size = match size {
            Some(z) => z,
            None => {
                return Err(TrackError::MissingChromosome);
            },
        };
        if merged[i].start >= size {
            assert(m[i as int].1 >= size_of(sizes@, m[i as int].0)->0);
            return Err(TrackError::RegionOutOfRange);
        }
        let last = i + 1 == n || merged[i + 1].chrom != merged[i].chrom;
        proof {
            if i + 1 < n {
                assert(m[i + 1].0 == merged@[i + 1].chrom@);
            }
            assert(last == ends_run(m, i as int));
        }
        let end = if last && merged[i].end > size {
            size
        } else {
            merged[i].end
        };
        let iv = CoverageInterval {
            chrom: merged[i].chrom.clone(),
            start: merged[i].start,
            end,
            count: merged[i].count,
        };
        assert(iv@ == clipped(m, sizes@)[i as int]);
        let ghost prev = out@;
        out.push(iv);
        assert(views(out@) =~= views(prev).push(iv@));
        assert(views(out@) =~= clipped(m, sizes@).take(i + 1));
        i += 1;
    }
    assert(clipped(m, sizes@).take(n as int) =~= clipped(m, sizes@));
    Ok(out)
}
/// Whether every bin's count is zero, so that the track has no normalised signal.
pub open spec fn all_zero(bins: Seq<BinCount>) -> bool {
    forall|i: int| 0 <= i < bins.len() ==> #[trigger] bins[i].count == 0
}

/// No two neighbouring intervals on one chromosome carry the same count.
pub open spec fn runs_maximal(m: Seq<(Seq<char>, u64, u64, u32)>) -> bool {
    forall|i: int| 0 <= i < m.len() - 1 && #[trigger] m[i].0 == m[i + 1].0 ==> m[i].3 != m[i + 1].3
}

/// Merging leaves no two neighbouring intervals on one chromosome with equal counts.
pub proof fn lemma_merge_runs_maximal(s: Seq<(Seq<char>, u64, u64, u32)>)
    ensures
        runs_maximal(merge_runs(s)),
    decreases s.len(),
{
    if s.len() > 0 {
        lemma_merge_runs_maximal(s.drop_last());
        let m = merge_runs(s.drop_last());
        let r = merge_runs(s);
        assert forall|i: int| 0 <= i < r.len() - 1 && #[trigger] r[i].0 == r[i + 1].0 implies r[i].3 != r[i + 1].3 by {
            assert(m[i].0 == r[i].0 && m[i].3 == r[i].3);
            if i + 1 < m.len() {
                assert(m[i + 1].0 == r[i + 1].0 && m[i + 1].3 == r[i + 1].3);
            }
        }
    }
}

/// Clipping changes ends only, so it keeps chromosomes and counts in place.
pub proof fn lemma_clipped_keeps_runs(m: Seq<(Seq<char>, u64, u64, u32)>, sizes: Seq<ChromSize>)
    requires
        runs_maximal(m),
    ensures
        runs_maximal(clipped(m, sizes)),
{
    let c = clipped(m, sizes);
    assert forall|i: int| 0 <= i < c.len() - 1 && #[trigger] c[i].0 == c[i + 1].0 implies c[i].3 != c[i + 1].3 by {
        assert(m[i].0 == c[i].0 && m[i + 1].0 == c[i + 1].0);
    }
}

/// The coverage track of one group: each bin's interval `[pos, pos + resolution)`
/// at its resolved locus, runs of equal counts on a chromosome merged, and the
/// last interval of each chromosome clipped to its length. `loci[i]` is where
/// bin `bins[i]` starts. A group without insertions has an empty track.
/// Otherwise every bin is checked before merging: a chromosome missing from
/// `sizes`, or a bin starting at or past its chromosome's end (an inconsistent
/// genome index), is an error.
pub fn coverage_track(
    bins: &Vec<BinCount>,
    loci: &Vec<Locus>,
    resolution: u64,
    sizes: &Vec<ChromSize>,
) -> (r: Result<Vec<CoverageInterval>, TrackError>)
    requires
        bins@.len() == loci@.len(),
        forall|i: int| 0 <= i < loci@.len() ==> #[trigger] loci@[i].pos + resolution <= u64::MAX,
    ensures
        all_zero(bins@) ==> r is Ok && r->Ok_0@.len() == 0,
        !all_zero(bins@) ==> match r {
            Ok(v) => clip_error(regions(bins@, loci@, resolution), sizes@) is None
                && views(v@) == clipped(merge_runs(regions(bins@, loci@, resolution)), sizes@),
            Err(e) => clip_error(regions(bins@, loci@, resolution), sizes@) == Some(e),
        },
        r is Ok ==> runs_maximal(views(r->Ok_0@)),
        track_views(r) == track_outcome(bins@, loci@, resolution, sizes@),
{
    let mut any = false;
    let mut i: usize = 0;
    while i < bins.len()
        invariant
            i <= bins@.len(),
            any == exists|k: int| 0 <= k < i && #[trigger] bins@[k].count != 0,
        decreases bins@.len() - i,
    {
        if bins[i].count != 0 {
            any = true;
        }
        i += 1;
    }
    if !any {
        let empty: Vec<CoverageInterval> = Vec::new();
        assert(runs_maximal(views(empty@)));
        assert(all_zero(bins@));
        assert(views(empty@) =~= Seq::empty());
        return Ok(empty);
    }
    assert(!all_zero(bins@));
    let ghost rs = regions(bins@, loci@, resolution);
    let n = loci.len();
    let mut i: usize = 0;
    while i < n
        invariant
            n == loci@.len(),
            n == rs.len(),
            rs == regions(bins@, loci@, resolution),
            !all_zero(bins@),
            i <= n,
            forall|k: int| 0 <= k < i ==> size_of(sizes@, #[trigger] rs[k].0) is Some,
        decreases n - i,
    {
        if chrom_size(sizes, &loci[i].chrom).is_none() {
            assert(rs[i as int].0 == loci@[i as int].chrom@);
            assert(size_of(sizes@, rs[i as int].0) is None);
            assert(clip_error(rs, sizes@) == Some(TrackError::MissingChromosome));
            return Err(TrackError::MissingChromosome);
        }
        i += 1;
    }
    let mut i: usize = 0;
    while i < n
        invariant
            n == loci@.len(),
            n == rs.len(),
            rs == regions(bins@, loci@, resolution),
            !all_zero(bins@),
            i <= n,
            forall|k: int| 0 <= k < n ==> size_of(sizes@, #[trigger] rs[k].0) is Some,
            forall|k: int| 0 <= k < i ==> #[trigger] rs[k].1 < size_of(sizes@, rs[k].0)->0,
        decreases n - i,
    {
        let size = chrom_size(sizes, &loci[i].chrom);
        assert(rs[i as int].0 == loci@[i as int].chrom@);
        if let Some(z) = size {
            if loci[i].pos >= z {
                assert(rs[i as int].1 >= size_of(sizes@, rs[i as int].0)->0);
                assert(!exists|k: int| 0 <= k < rs.len() && size_of(sizes@, #[trigger] rs[k].0) is None);
                assert(clip_error(rs, sizes@) == Some(TrackError::RegionOutOfRange));
                return Err(TrackError::RegionOutOfRange);
            }
        }
        i += 1;
    }
    assert(clip_error(rs, sizes@) is None);
    let merged = merge_bins(bins, loci, resolution);
    proof {
        lemma_merge_runs_from_regions(rs);
        lemma_merge_keeps_clip_error(rs, sizes@);
    }
    let r = clip_to_chromosomes(&merged, sizes);
    proof {
        lemma_merge_runs_maximal(rs);
        lemma_clipped_keeps_runs(views(merged@), sizes@);
    }
    r
}

/// Each merged run starts where some region starts, on that region's chromosome.
proof fn lemma_merge_runs_from_regions(s: Seq<(Seq<char>, u64, u64, u32)>)
    ensures
        forall|i: int|
            0 <= i < merge_runs(s).len() ==> exists|j: int|
                0 <= j < s.len() && s[j].0 == (#[trigger] merge_runs(s)[i]).0 && s[j].1 == merge_runs(
                    s,
                )[i].1,
    decreases s.len(),
{
    if s.len() > 0 {
        let d = s.drop_last();
        lemma_merge_runs_from_regions(d);
        let m = merge_runs(d);
        let r = merge_runs(s);
        assert forall|i: int| 0 <= i < r.len() implies exists|j: int|
            0 <= j < s.len() && s[j].0 == (#[trigger] r[i]).0 && s[j].1 == r[i].1 by {
            if i < m.len() {
                assert(r[i].0 == m[i].0 && r[i].1 == m[i].1);
                let j = choose|j: int| 0 <= j < d.len() && d[j].0 == (#[trigger] m[i]).0 && d[j].1 == m[i].1;
                assert(s[j] == d[j]);
            } else {
                assert(r[i] == s.last());
                assert(s[s.len() - 1] == s.last());
            }
        }
    }
}

/// Regions that all lie on known chromosomes and start before their ends
/// still do so after merging.
proof fn lemma_merge_keeps_clip_error(s: Seq<(Seq<char>, u64, u64, u32)>, sizes: Seq<ChromSize>)
    requires
        clip_error(s, sizes) is None,
        forall|i: int|
            0 <= i < merge_runs(s).len() ==> exists|j: int|
                0 <= j < s.len() && s[j].0 == (#[trigger] merge_runs(s)[i]).0 && s[j].1 == merge_runs(
                    s,
                )[i].1,
    ensures
        clip_error(merge_runs(s), sizes) is None,
{
    let m = merge_runs(s);
    assert forall|i: int| 0 <= i < m.len() implies size_of(sizes, #[trigger] m[i].0) is Some && m[i].1
        < size_of(sizes, m[i].0)->0 by {
        let j = choose|j: int| 0 <= j < s.len() && s[j].0 == (#[trigger] m[i]).0 && s[j].1 == m[i].1;
        assert(size_of(sizes, s[j].0) is Some);
        assert(s[j].1 < size_of(sizes, s[j].0)->0);
    }
    assert(!exists|i: int| 0 <= i < m.len() && size_of(sizes, #[trigger] m[i].0) is None);
    assert(!exists|i: int| 0 <= i < m.len() && #[trigger] m[i].1 >= size_of(sizes, m[i].0)->0);
}

/// The total insertion count over all bins.
pub fn total_count(bins: &Vec<BinCount>) -> (r: u128)
    ensures
        r == counts_total(bins@, bins@.len() as int),
{
    let mut t: u128 = 0;
    let mut i: usize = 0;
    while i < bins.len()
        invariant
            i <= bins@.len(),
            t == counts_total(bins@, i as int),
            t <= i * 0xFFFF_FFFFu128,
        decreases bins@.len() - i,
    {
        t = t + bins[i].count as u128;
        i += 1;
    }
    t
}

pub open spec fn counts_total(bins: Seq<BinCount>, n: int) -> nat
    decreases n,
{
    if n <= 0 {
        0
    } else {
        counts_total(bins, n - 1) + bins[n - 1].count as nat
    }
}
/// Every interval is nonempty, and on one chromosome each interval ends no
/// later than the next one starts.
pub open spec fn ordered_intervals(s: Seq<(Seq<char>, u64, u64, u32)>) -> bool {
    &&& forall|i: int| 0 <= i < s.len() ==> #[trigger] s[i].1 < s[i].2
    &&& forall|i: int| 0 <= i < s.len() - 1 && #[trigger] s[i].0 == s[i + 1].0 ==> s[i].2 <= s[i + 1].1
}

/// Every interval is nonempty and ends within its chromosome.
pub open spec fn within_chromosomes(v: Seq<(Seq<char>, u64, u64, u32)>, sizes: Seq<ChromSize>) -> bool {
    forall|i: int|
        0 <= i < v.len() ==> #[trigger] v[i].1 < v[i].2 && size_of(sizes, v[i].0) is Some && v[i].2
            <= size_of(sizes, v[i].0)->0
}

proof fn lemma_merge_runs_ordered(s: Seq<(Seq<char>, u64, u64, u32)>)
    requires
        ordered_intervals(s),
    ensures
        ordered_intervals(merge_runs(s)),
        s.len() > 0 ==> merge_runs(s).len() > 0 && merge_runs(s).last().0 == s.last().0
            && merge_runs(s).last().2 == s.last().2,
    decreases s.len(),
{
    if s.len() > 0 {
        let d = s.drop_last();
        assert forall|i: int| 0 <= i < d.len() - 1 && #[trigger] d[i].0 == d[i + 1].0 implies d[i].2 <= d[i + 1].1 by {
            assert(s[i].0 == s[i + 1].0);
        }
        assert forall|i: int| 0 <= i < d.len() implies #[trigger] d[i].1 < d[i].2 by {
            assert(s[i].1 < s[i].2);
        }
        lemma_merge_runs_ordered(d);
        let m = merge_runs(d);
        let r = merge_runs(s);
        let x = s.last();
        assert(x.1 < x.2);
        if d.len() > 0 {
            assert(s[d.len() - 1] == d.last());
        }
        if m.len() > 0 && m.last().0 == x.0 && m.last().3 == x.3 {
            assert(m.last().2 <= x.1);
            assert forall|i: int| 0 <= i < r.len() implies #[trigger] r[i].1 < r[i].2 by {
                if i < r.len() - 1 {
                    assert(r[i] == m[i]);
                }
            }
            assert forall|i: int| 0 <= i < r.len() - 1 && #[trigger] r[i].0 == r[i + 1].0 implies r[i].2 <= r[i + 1].1 by {
                assert(r[i] == m[i]);
                assert(r[i + 1].1 == m[i + 1].1 && r[i + 1].0 == m[i + 1].0);
            }
        } else {
            assert forall|i: int| 0 <= i < r.len() implies #[trigger] r[i].1 < r[i].2 by {
                if i < r.len() - 1 {
                    assert(r[i] == m[i]);
                }
            }
            assert forall|i: int| 0 <= i < r.len() - 1 && #[trigger] r[i].0 == r[i + 1].0 implies r[i].2 <= r[i + 1].1 by {
                assert(r[i] == m[i]);
                if i + 1 < m.len() {
                    assert(r[i + 1] == m[i + 1]);
                }
            }
        }
    }
}

/// Whether consecutive bins on one chromosome start at least `res` apart,
/// as bins taken in ascending order from a consistent genome index do.
pub open spec fn loci_ascending(loci: Seq<Locus>, res: u64) -> bool {
    forall|i: int|
        0 <= i < loci.len() - 1 && #[trigger] loci[i].chrom@ == loci[i + 1].chrom@ ==> loci[i].pos + res
            <= loci[i + 1].pos
}

/// A track that clipping accepts lies within its chromosomes: each interval is
/// nonempty and ends no later than its chromosome's length, provided the bins
/// have positive width and consecutive bins of a chromosome do not overlap.
pub proof fn lemma_track_within_chromosomes(
    bins: Seq<BinCount>,
    loci: Seq<Locus>,
    res: u64,
    sizes: Seq<ChromSize>,
)
    requires
        res > 0,
        bins.len() == loci.len(),
        forall|i: int| 0 <= i < loci.len() ==> #[trigger] loci[i].pos + res <= u64::MAX,
        loci_ascending(loci, res),
        clip_error(regions(bins, loci, res), sizes) is None,
    ensures
        within_chromosomes(clipped(merge_runs(regions(bins, loci, res)), sizes), sizes),
{
    let rs = regions(bins, loci, res);
    assert forall|i: int| 0 <= i < rs.len() - 1 && #[trigger] rs[i].0 == rs[i + 1].0 implies rs[i].2 <= rs[i + 1].1 by {
        assert(loci[i].chrom@ == loci[i + 1].chrom@);
    }
    assert forall|i: int| 0 <= i < rs.len() implies #[trigger] rs[i].1 < rs[i].2 by {
        assert(loci[i].pos + res <= u64::MAX);
    }
    lemma_merge_runs_ordered(rs);
    lemma_merge_runs_from_regions(rs);
    lemma_merge_keeps_clip_error(rs, sizes);
    let m = merge_runs(rs);
    let c = clipped(m, sizes);
    assert forall|i: int| 0 <= i < c.len() implies #[trigger] c[i].1 < c[i].2 && size_of(sizes, c[i].0) is Some
        && c[i].2 <= size_of(sizes, c[i].0)->0 by {
        assert(m[i].1 < m[i].2);
        assert(size_of(sizes, m[i].0) is Some);
        assert(m[i].1 < size_of(sizes, m[i].0)->0);
        if !ends_run(m, i) {
            assert(m[i + 1].0 == m[i].0);
            assert(m[i + 1].1 < size_of(sizes, m[i + 1].0)->0);
        }
    }
}

/// The result of `coverage_track` as plain values.
pub open spec fn track_views(r: Result<Vec<CoverageInterval>, TrackError>) -> Result<
    Seq<(Seq<char>, u64, u64, u32)>,
    TrackError,
> {
    match r {
        Ok(v) => Ok(views(v@)),
        Err(e) => Err(e),
    }
}

/// What `coverage_track` returns on given bins, loci, resolution and sizes.
pub open spec fn track_outcome(bins: Seq<BinCount>, loci: Seq<Locus>, res: u64, sizes: Seq<ChromSize>) -> Result<
    Seq<(Seq<char>, u64, u64, u32)>,
    TrackError,
> {
    let m = merge_runs(regions(bins, loci, res));
    if all_zero(bins) {
        Ok(Seq::empty())
    } else {
        match clip_error(regions(bins, loci, res), sizes) {
            Some(e) => Err(e),
            None => Ok(clipped(m, sizes)),
        }
    }
}

/// Two runs of the track construction on the same inputs give the same intervals.
pub proof fn lemma_track_deterministic(
    bins: Seq<BinCount>,
    loci: Seq<Locus>,
    res: u64,
    sizes: Seq<ChromSize>,
    first: Result<Vec<CoverageInterval>, TrackError>,
    second: Result<Vec<CoverageInterval>, TrackError>,
)
    requires
        track_views(first) == track_outcome(bins, loci, res, sizes),
        track_views(second) == track_outcome(bins, loci, res, sizes),
    ensures
        track_views(first) == track_views(second),
{
}
} // verus!
