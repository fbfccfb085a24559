use snapatac2_export::bed::{expand_batch, BedRecord, Event, ExportError};
use snapatac2_export::coverage::{
    bin_insertions, chrom_size, clip_to_chromosomes, coverage_track, merge_bins, total_count,
    BinCount, ChromSize, CoverageInterval, Locus, TrackError,
};
use snapatac2_export::groups::{active_groups, group_file_name, is_compressed_name, sanitize_label};
use snapatac2_export::peaks::{cap_peak_score, effective_genome_size, genome_size, PeakLineError};

fn s(x: &str) -> String {
    x.to_string()
}

fn locus(c: &str, pos: u64) -> Locus {
    Locus { chrom: s(c), pos }
}

fn size(c: &str, len: u64) -> ChromSize {
    ChromSize { name: s(c), len }
}

fn iv(c: &CoverageInterval) -> (String, u64, u64, u32) {
    (c.chrom.clone(), c.start, c.end, c.count)
}

fn event(c: &str, start: u64, count: u32) -> Event {
    Event { chrom: s(c), start, end: start + 1, count }
}

#[test]
fn single_bin_track() {
    let bins = bin_insertions(&vec![3], &vec![5], 1);
    assert_eq!(bins, vec![BinCount { bin: 3, count: 5 }]);
    let track = coverage_track(&bins, &vec![locus("chr1", 300)], 1, &vec![size("chr1", 1000)]).unwrap();
    assert_eq!(track.len(), 1);
    assert_eq!(iv(&track[0]), (s("chr1"), 300, 301, 5));
    let total = total_count(&bins);
    assert_eq!(total, 5);
    let norm = ((total as f32) / 1000000.0) * (1.0f32 / 1000.0);
    let value = (track[0].count as f32) / norm;
    assert_eq!(value, 5.0f32 / ((5.0f32 / 1e6) * (1.0f32 / 1000.0)));
}

#[test]
fn adjacent_equal_bins_merge() {
    let bins = vec![BinCount { bin: 0, count: 4 }, BinCount { bin: 1, count: 4 }];
    let loci = vec![locus("chr1", 100), locus("chr1", 101)];
    let track = coverage_track(&bins, &loci, 1, &vec![size("chr1", 1000)]).unwrap();
    assert_eq!(track.len(), 1);
    assert_eq!(iv(&track[0]), (s("chr1"), 100, 102, 4));
}

#[test]
fn unequal_or_other_chromosome_bins_stay_apart() {
    let bins = vec![
        BinCount { bin: 0, count: 4 },
        BinCount { bin: 1, count: 2 },
        BinCount { bin: 2, count: 2 },
    ];
    let loci = vec![locus("chr1", 0), locus("chr1", 10), locus("chr2", 0)];
    let merged = merge_bins(&bins, &loci, 10);
    let got: Vec<_> = merged.iter().map(iv).collect();
    assert_eq!(
        got,
        vec![(s("chr1"), 0, 10, 4), (s("chr1"), 10, 20, 2), (s("chr2"), 0, 10, 2)]
    );
}

#[test]
fn last_interval_is_clipped() {
    let merged = vec![CoverageInterval { chrom: s("chrX"), start: 100, end: 200, count: 7 }];
    let out = clip_to_chromosomes(&merged, &vec![size("chrX", 150)]).unwrap();
    assert_eq!(iv(&out[0]), (s("chrX"), 100, 150, 7));
}

#[test]
fn only_last_of_each_chromosome_is_clipped() {
    let merged = vec![
        CoverageInterval { chrom: s("chr1"), start: 0, end: 100, count: 1 },
        CoverageInterval { chrom: s("chr1"), start: 100, end: 200, count: 2 },
        CoverageInterval { chrom: s("chr2"), start: 0, end: 100, count: 2 },
    ];
    let sizes = vec![size("chr1", 150), size("chr2", 80)];
    let out: Vec<_> = clip_to_chromosomes(&merged, &sizes).unwrap().iter().map(iv).collect();
    assert_eq!(
        out,
        vec![(s("chr1"), 0, 100, 1), (s("chr1"), 100, 150, 2), (s("chr2"), 0, 80, 2)]
    );
}

#[test]
fn missing_chromosome_is_an_error() {
    let merged = vec![CoverageInterval { chrom: s("chrY"), start: 0, end: 10, count: 1 }];
    assert_eq!(
        clip_to_chromosomes(&merged, &vec![size("chrX", 150)]).unwrap_err(),
        TrackError::MissingChromosome
    );
}

#[test]
fn region_past_chromosome_end_is_an_error() {
    let merged = vec![CoverageInterval { chrom: s("chrX"), start: 150, end: 160, count: 1 }];
    assert_eq!(
        clip_to_chromosomes(&merged, &vec![size("chrX", 150)]).unwrap_err(),
        TrackError::RegionOutOfRange
    );
}

#[test]
fn bin_past_chromosome_end_inside_a_run_is_an_error() {
    let bins = vec![BinCount { bin: 0, count: 1 }, BinCount { bin: 2, count: 1 }];
    let loci = vec![locus("chr1", 0), locus("chr1", 200)];
    assert_eq!(
        coverage_track(&bins, &loci, 100, &vec![size("chr1", 150)]).unwrap_err(),
        TrackError::RegionOutOfRange
    );
}

#[test]
fn track_chromosome_missing_is_an_error() {
    let bins = vec![BinCount { bin: 0, count: 1 }];
    assert_eq!(
        coverage_track(&bins, &vec![locus("chr9", 0)], 10, &vec![size("chr1", 150)]).unwrap_err(),
        TrackError::MissingChromosome
    );
}

#[test]
fn zero_total_gives_empty_track() {
    let bins = bin_insertions(&vec![4, 9], &vec![0, 0], 5);
    assert_eq!(bins, vec![BinCount { bin: 0, count: 0 }, BinCount { bin: 1, count: 0 }]);
    let loci = vec![locus("chr1", 0), locus("chr1", 5)];
    assert!(coverage_track(&bins, &loci, 5, &vec![]).unwrap().is_empty());
}

#[test]
fn binning_sums_and_sorts() {
    let bins = bin_insertions(&vec![25, 3, 21, 7, 40], &vec![1, 2, 3, 4, 255], 10);
    assert_eq!(
        bins,
        vec![
            BinCount { bin: 0, count: 6 },
            BinCount { bin: 2, count: 4 },
            BinCount { bin: 4, count: 255 },
        ]
    );
    assert_eq!(total_count(&bins), 265);
    assert!(bin_insertions(&vec![], &vec![], 3).is_empty());
}

#[test]
fn track_is_deterministic() {
    let bins = bin_insertions(&vec![1, 2, 5], &vec![1, 1, 3], 2);
    let loci = vec![locus("chr1", 0), locus("chr1", 2), locus("chr1", 4)];
    let sizes = vec![size("chr1", 5)];
    let a: Vec<_> = coverage_track(&bins, &loci, 2, &sizes).unwrap().iter().map(iv).collect();
    let b: Vec<_> = coverage_track(&bins, &loci, 2, &sizes).unwrap().iter().map(iv).collect();
    assert_eq!(a, b);
    assert_eq!(a, vec![(s("chr1"), 0, 4, 1), (s("chr1"), 4, 5, 3)]);
}

#[test]
fn chromosome_size_lookup() {
    let sizes = vec![size("chr1", 10), size("chr2", 20), size("chr1", 30)];
    assert_eq!(chrom_size(&sizes, &s("chr2")), Some(20));
    assert_eq!(chrom_size(&sizes, &s("chr1")), Some(30));
    assert_eq!(chrom_size(&sizes, &s("chr3")), None);
}

#[test]
fn score_above_maximum_is_capped() {
    let line = "chr1\t10\t20\tpeak_1\t1500\t.\t3.2";
    assert_eq!(cap_peak_score(line).unwrap(), "chr1\t10\t20\tpeak_1\t1000\t.\t3.2");
    let last = "chr1\t10\t20\tpeak_1\t99999999999999999999999";
    assert_eq!(cap_peak_score(last).unwrap(), "chr1\t10\t20\tpeak_1\t1000");
}

#[test]
fn score_within_range_is_unchanged() {
    let line = "chr1\t10\t20\tpeak_1\t42\t.\t3.2";
    assert_eq!(cap_peak_score(line).unwrap(), line);
    let edge = "chr1\t10\t20\tpeak_1\t1000\t.";
    assert_eq!(cap_peak_score(edge).unwrap(), edge);
}

#[test]
fn malformed_peak_lines() {
    assert_eq!(cap_peak_score("chr1\t10\t20\tpeak_1").unwrap_err(), PeakLineError::MissingScore);
    assert_eq!(cap_peak_score("chr1\t10\t20\tp\t\t.").unwrap_err(), PeakLineError::BadScore);
    assert_eq!(cap_peak_score("chr1\t10\t20\tp\t12a\t.").unwrap_err(), PeakLineError::BadScore);
}

#[test]
fn genome_sizes() {
    assert_eq!(genome_size(&vec![100, 200, 700]), Some(1000));
    assert_eq!(genome_size(&vec![u64::MAX, 1]), None);
    assert_eq!(effective_genome_size(1000), 900);
    assert_eq!(effective_genome_size(15), 14);
    assert_eq!(effective_genome_size(0), 0);
}

#[test]
fn labels_are_sanitized() {
    assert_eq!(sanitize_label("T/NK cells/2"), "T+NK cells+2");
    assert_eq!(sanitize_label("B"), "B");
    assert_eq!(group_file_name("out_", "a/b", ".bed.gz"), "out_a+b.bed.gz");
}

#[test]
fn compressed_suffix() {
    assert!(is_compressed_name("x.bed.gz"));
    assert!(!is_compressed_name("x.bed"));
    assert!(!is_compressed_name("gz"));
}

#[test]
fn active_groups_deduplicate_and_filter() {
    let group_by = vec![s("b"), s("a"), s("b"), s("c"), s("a")];
    let all = active_groups(&group_by, &None);
    assert_eq!(all, vec![s("b"), s("a"), s("c")]);
    let some = active_groups(&group_by, &Some(vec![s("c"), s("a"), s("z")]));
    assert_eq!(some, vec![s("a"), s("c")]);
    assert!(!some.contains(&s("b")));
    let names: Vec<String> = some.iter().map(|g| group_file_name("p_", g, ".bed")).collect();
    assert_eq!(names, vec![s("p_a.bed"), s("p_c.bed")]);
}

#[test]
fn batch_expands_counts_for_active_groups() {
    let barcodes = vec![s("AA"), s("CC"), s("GG"), s("TT")];
    let group_by = vec![s("x"), s("y"), s("x"), s("y")];
    let groups = vec![s("x")];
    let first = vec![vec![event("chr1", 5, 2), event("chr2", 7, 1)], vec![event("chr1", 9, 4)]];
    let recs = expand_batch(&first, 0, &barcodes, &group_by, &groups).unwrap();
    let view: Vec<_> = recs
        .iter()
        .map(|r: &BedRecord| (r.group, r.chrom.clone(), r.start, r.end, r.barcode.clone()))
        .collect();
    assert_eq!(
        view,
        vec![
            (0, s("chr1"), 5, 6, s("AA")),
            (0, s("chr1"), 5, 6, s("AA")),
            (0, s("chr2"), 7, 8, s("AA")),
        ]
    );
    let second = vec![vec![event("chr3", 1, 3)], vec![event("chr3", 2, 6)]];
    let recs = expand_batch(&second, 2, &barcodes, &group_by, &groups).unwrap();
    assert_eq!(recs.len(), 3);
    assert!(recs.iter().all(|r| r.barcode == "GG"));
}

#[test]
fn batch_past_arrays_is_misaligned() {
    let barcodes = vec![s("AA")];
    let group_by = vec![s("x")];
    let batch = vec![vec![event("chr1", 5, 1)], vec![event("chr1", 6, 1)]];
    assert_eq!(
        expand_batch(&batch, 0, &barcodes, &group_by, &vec![s("x")]).unwrap_err(),
        ExportError::Misaligned
    );
    assert!(expand_batch(&vec![], 2, &barcodes, &group_by, &vec![]).is_err());
}
