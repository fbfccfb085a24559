use vstd::prelude::*;
use crate::groups::{contains_label, find_label};

verus! {

/// One aggregated insertion record of a cell: `count` insertions at `[start, end)`.
#[derive(Debug)]
pub struct Event {
    pub chrom: String,
    pub start: u64,
    pub end: u64,
    pub count: u32,
}

/// One line of a group's BED output: chromosome, start, end and cell barcode,
/// with the index of the group (in the active group list) it is written to.
#[derive(Debug)]
pub struct BedRecord {
    pub group: usize,
    pub chrom: String,
    pub start: u64,
    pub end: u64,
    pub barcode: String,
}

impl View for BedRecord {
    type V = (usize, Seq<char>, u64, u64, Seq<char>);

    open spec fn view(&self) -> (usize, Seq<char>, u64, u64, Seq<char>) {
        (self.group, self.chrom@, self.start, self.end, self.barcode@)
    }
}

#[derive(Clone, Copy, Debug, PartialEq, Eq, Structural)]
pub enum ExportError {
    /// The batch reaches past the end of the barcode or group arrays.
    Misaligned,
}

pub open spec fn record_views(v: Seq<BedRecord>) -> Seq<(usize, Seq<char>, u64, u64, Seq<char>)> {
    v.map_values(|r: BedRecord| r@)
}

/// The index of the first group named `label`.
pub open spec fn group_index(groups: Seq<String>, label: Seq<char>) -> Option<int>
    decreases groups.len(),
{
    if groups.len() == 0 {
        None
    } else if groups.last()@ == label && group_index(groups.drop_last(), label) is None {
        Some(groups.len() - 1)
    } else {
        group_index(groups.drop_last(), label)
    }
}

/// The records of the first `n` events of a cell: each event repeated `count` times.
pub open spec fn event_records(evs: Seq<Event>, g: usize, bc: Seq<char>, n: int) -> Seq<
    (usize, Seq<char>, u64, u64, Seq<char>),
>
    decreases n,
{
    if n <= 0 {
        Seq::empty()
    } else {
        let e = evs[n - 1];
        event_records(evs, g, bc, n - 1) + Seq::new(e.count as nat, |k: int| (g, e.chrom@, e.start, e.end, bc))
    }
}

/// The records of the first `n` cells of a batch whose first cell has global
/// index `offset`; a cell whose group is not active contributes none.
pub open spec fn batch_records(
    batch: Seq<Vec<Event>>,
    offset: int,
    barcodes: Seq<String>,
    group_by: Seq<String>,
    groups: Seq<String>,
    n: int,
) -> Seq<(usize, Seq<char>, u64, u64, Seq<char>)>
    decreases n,
{
    if n <= 0 {
        Seq::empty()
    } else {
        let prev = batch_records(batch, offset, barcodes, group_by, groups, n - 1);
        match group_index(groups, group_by[offset + n - 1]@) {
            Some(g) => prev + event_records(
                batch[n - 1]@,
                g as usize,
                barcodes[offset + n - 1]@,
                batch[n - 1]@.len() as int,
            ),
            None => prev,
        }
    }
}

/// The total count of the first `n` events of a cell.
pub open spec fn events_total(evs: Seq<Event>, n: int) -> nat
    decreases n,
{
    if n <= 0 {
        0
    } else {
        events_total(evs, n - 1) + evs[n - 1].count as nat
    }
}

/// The total count of the events of the first `n` cells whose group is active.
pub open spec fn active_total(
    batch: Seq<Vec<Event>>,
    offset: int,
    group_by: Seq<String>,
    groups: Seq<String>,
    n: int,
) -> nat
    decreases n,
{
    if n <= 0 {
        0
    } else {
        active_total(batch, offset, group_by, groups, n - 1) + if contains_label(
            groups,
            group_by[offset + n - 1]@,
        ) {
            events_total(batch[n - 1]@, batch[n - 1]@.len() as int)
        } else {
            0
        }
    }
}

proof fn lemma_group_index(groups: Seq<String>, label: Seq<char>)
    ensures
        group_index(groups, label) is Some <==> contains_label(groups, label),
        group_index(groups, label) is Some ==> 0 <= group_index(groups, label)->0 < groups.len()
            && groups[group_index(groups, label)->0]@ == label,
        group_index(groups, label) is Some ==> forall|k: int|
            0 <= k < group_index(groups, label)->0 ==> #[trigger] groups[k]@ != label,
    decreases groups.len(),
{
    if groups.len() > 0 {
        let d = groups.drop_last();
        lemma_group_index(d, label);
        assert forall|k: int| 0 <= k < d.len() implies #[trigger] d[k] == groups[k] by {}
        if group_index(d, label) is Some {
            assert forall|k: int| 0 <= k < group_index(d, label)->0 implies #[trigger] groups[k]@ != label by {
                assert(d[k] == groups[k]);
            }
        }
        if group_index(groups, label) is Some && group_index(d, label) is None {
            assert forall|k: int| 0 <= k < groups.len() - 1 implies #[trigger] groups[k]@ != label by {
                assert(d[k] == groups[k]);
            }
        }
        if contains_label(groups, label) && !contains_label(d, label) {
            let i = choose|i: int| 0 <= i < groups.len() && #[trigger] groups[i]@ == label;
            if i < d.len() {
                assert(d[i]@ == label);
            }
        }
        if contains_label(d, label) {
            let i = choose|i: int| 0 <= i < d.len() && #[trigger] d[i]@ == label;
            assert(groups[i]@ == label);
        }
    }
}

proof fn lemma_event_records_len(evs: Seq<Event>, g: usize, bc: Seq<char>, n: int)
    ensures
        event_records(evs, g, bc, n).len() == events_total(evs, n),
    decreases n,
{
    if n > 0 {
        lemma_event_records_len(evs, g, bc, n - 1);
    }
}

/// Each insertion of an active cell becomes one record: the number of records
/// of a batch is the total count of the events of its cells whose group is active.
pub proof fn lemma_batch_records_count(
    batch: Seq<Vec<Event>>,
    offset: int,
    barcodes: Seq<String>,
    group_by: Seq<String>,
    groups: Seq<String>,
    n: int,
)
    ensures
        batch_records(batch, offset, barcodes, group_by, groups, n).len() == active_total(
            batch,
            offset,
            group_by,
            groups,
            n,
        ),
    decreases n,
{
    if n > 0 {
        lemma_batch_records_count(batch, offset, barcodes, group_by, groups, n - 1);
        lemma_group_index(groups, group_by[offset + n - 1]@);
        lemma_event_records_len(
            batch[n - 1]@,
            group_index(groups, group_by[offset + n - 1]@)->0 as usize,
            barcodes[offset + n - 1]@,
            batch[n - 1]@.len() as int,
        );
    }
}

/// The BED records of one batch of cells, the first of which has global index
/// `offset` in `barcodes` and `group_by`. A cell whose group is in `groups`
/// contributes, for each of its events, `count` copies of a record with its
/// barcode; other cells contribute nothing. Records keep the order of cells
/// and events.
pub fn expand_batch(
    batch: &Vec<Vec<Event>>,
    offset: usize,
    barcodes: &Vec<String>,
    group_by: &Vec<String>,
    groups: &Vec<String>,
) -> (r: Result<Vec<BedRecord>, ExportError>)
    ensures
        r is Err <==> offset + batch@.len() > barcodes@.len() || offset + batch@.len()
            > group_by@.len(),
        r is Ok ==> record_views(r->Ok_0@) == batch_records(
            batch@,
            offset as int,
            barcodes@,
            group_by@,
            groups@,
            batch@.len() as int,
        ),
        r is Ok ==> r->Ok_0@.len() == active_total(
            batch@,
            offset as int,
            group_by@,
            groups@,
            batch@.len() as int,
        ),
{
    if barcodes.len() < offset || group_by.len() < offset || batch.len() > barcodes.len() - offset
        || batch.len() > group_by.len() - offset {
        return Err(ExportError::Misaligned);
    }
    assert(offset + batch@.len() <= usize::MAX);
    let mut out: Vec<BedRecord> = Vec::new();
    let mut c: usize = 0;
    while c < batch.len()
        invariant
            c <= batch@.len(),
            offset + batch@.len() <= barcodes@.len(),
            offset + batch@.len() <= group_by@.len(),
            offset + batch@.len() <= usize::MAX,
            record_views(out@) == batch_records(
                batch@,
                offset as int,
                barcodes@,
                group_by@,
                groups@,
                c as int,
            ),
        decreases batch@.len() - c,
    {
        let found = find_label(groups, &group_by[offset + c]);
        proof {
            lemma_group_index(groups@, group_by@[offset + c]@);
        }
        match found {
            None => {},
            Some(g0) => {
                let ghost before = record_views(out@);
                let g = first_index(groups, g0);
                proof {
                    let gi = group_index(groups@, group_by@[offset + c]@);
                    assert(gi is Some);
                    if gi->0 < g {
                        assert(groups@[gi->0]@ == groups@[g as int]@);
                    }
                    if g < gi->0 {
                        assert(groups@[g as int]@ == group_by@[offset + c]@);
                    }
                    assert(gi == Some(g as int));
                }
                let cell = &batch[c];
                let bc = &barcodes[offset + c];
                let mut e: usize = 0;
                while e < cell.len()
                    invariant
                        e <= cell@.len(),
                        record_views(out@) == before + event_records(cell@, g, bc@, e as int),
                    decreases cell@.len() - e,
                {
                    let ev = &cell[e];
                    let ghost mid = record_views(out@);
                    let mut k: u32 = 0;
                    while k < ev.count
                        invariant
                            k <= ev.count,
                            record_views(out@) == mid + Seq::new(
                                k as nat,
                                |j: int| (g, ev.chrom@, ev.start, ev.end, bc@),
                            ),
                        decreases ev.count - k,
                    {
                        let rec = BedRecord {
                            group: g,
                            chrom: ev.chrom.clone(),
                            start: ev.start,
                            end: ev.end,
                            barcode: bc.clone(),
                        };
                        let ghost pre = out@;
                        out.push(rec);
                        assert(record_views(out@) =~= record_views(pre).push(rec@));
                        assert(record_views(out@) =~= mid + Seq::new(
                            (k + 1) as nat,
                            |j: int| (g, ev.chrom@, ev.start, ev.end, bc@),
                        ));
                        k += 1;
                    }
                    assert(record_views(out@) =~= before + event_records(cell@, g, bc@, e + 1));
                    e += 1;
                }
            },
        }
        c += 1;
    }
    proof {
        lemma_batch_records_count(
            batch@,
            offset as int,
            barcodes@,
            group_by@,
            groups@,
            batch@.len() as int,
        );
    }
    Ok(out)
}

/// The first index whose label equals that at index `i`.
fn first_index(groups: &Vec<String>, i: usize) -> (r: usize)
    requires
        i < groups@.len(),
    ensures
        r <= i,
        groups@[r as int]@ == groups@[i as int]@,
        forall|k: int| 0 <= k < r ==> #[trigger] groups@[k]@ != groups@[i as int]@,
{
    let mut j: usize = 0;
    while j < i
        invariant
            j <= i < groups@.len(),
            forall|k: int| 0 <= k < j ==> #[trigger] groups@[k]@ != groups@[i as int]@,
        decreases i - j,
    {
        if groups[j] == groups[i] {
            return j;
        }
        j += 1;
    }
    i
}

} // verus!
