//! The fetch-and-aggregate pipeline: one fetch per record with a
//! skip-if-exists cache and a no-partial-artifact guarantee, one summary per
//! catalog with failed records excluded, and the run over all catalogs.
//!
//! The destination tree is the [`Disk`] model; what the network would
//! deliver for each record is an input ([`FetchOutcome`]), so every verified
//! function here covers every network behaviour. The surrounding program
//! performs the real transfers and replays the same decisions.

use vstd::prelude::*;

use crate::data_structures::{
    spec_company_name, spec_default_metadata, spec_file_path, spec_newest_year, spec_oldest_year,
    Company, CompanyDownloads, CompanyMetadata, Download, Report,
};
use crate::disk::Disk;

verus! {

/// Why a single document fetch failed.
#[derive(Debug, Clone, Copy, PartialEq, Eq, Structural)]
pub enum FetchError {
    /// The transfer could not be made or broke off.
    Network,
    /// The server answered with a non-success status.
    Status,
    /// The body could not be written to its destination.
    Write,
}

/// What the network does for one record: deliver a body that materializes
/// as a file of the given size in kilobytes, or fail.
#[derive(Debug, Clone, Copy, PartialEq, Eq, Structural)]
pub enum FetchOutcome {
    Success(u64),
    Failure(FetchError),
}

/// The destination tree after one record is fetched: unchanged when the
/// path already exists or the fetch fails, extended by the new file when it
/// succeeds.
pub open spec fn fetch_disk(
    disk: Map<Seq<char>, u64>,
    root: Seq<char>,
    report: Report,
    net: FetchOutcome,
) -> Map<Seq<char>, u64> {
    let path = spec_file_path(root, report);
    if disk.dom().contains(path) {
        disk
    } else {
        match net {
            FetchOutcome::Success(size) => disk.insert(path, size),
            FetchOutcome::Failure(_) => disk,
        }
    }
}

/// The size of the artifact one fetch yields: the existing file's when the
/// path is already present, the delivered body's on success, nothing on
/// failure.
pub open spec fn fetch_result(
    disk: Map<Seq<char>, u64>,
    root: Seq<char>,
    report: Report,
    net: FetchOutcome,
) -> Option<u64> {
    let path = spec_file_path(root, report);
    if disk.dom().contains(path) {
        Some(disk[path])
    } else {
        match net {
            FetchOutcome::Success(size) => Some(size),
            FetchOutcome::Failure(_) => None,
        }
    }
}

/// Fetches one record to its canonical path. A path already present is
/// never fetched again (the skip-if-exists cache); a failed fetch deletes
/// the partial file and reports the error, so no truncated file ever stays
/// behind.
pub fn fetch(disk: &mut Disk, root: &str, report: &Report, net: FetchOutcome) -> (r: Result<
    Download,
    FetchError,
>)
    ensures
        final(disk)@ == fetch_disk(old(disk)@, root@, *report, net),
        (match r {
            Ok(d) => {
                &&& fetch_result(old(disk)@, root@, *report, net) == Some(d.size)
                &&& d.report == *report
                &&& d.mime_type@ == "application/pdf"@
            },
            Err(e) => {
                &&& fetch_result(old(disk)@, root@, *report, net) is None
                &&& net == FetchOutcome::Failure(e)
            },
        }),
        r is Err <==> (!old(disk)@.dom().contains(spec_file_path(root@, *report)) && (net matches
            FetchOutcome::Failure(_))),
        (!old(disk)@.dom().contains(spec_file_path(root@, *report)) && (net matches
            FetchOutcome::Failure(_))) ==> !final(disk)@.dom().contains(
            spec_file_path(root@, *report),
        ),
        old(disk)@.dom().contains(spec_file_path(root@, *report)) ==> final(disk)@ == old(disk)@,
{
    let path = report.get_file_path(root);
    if disk.contains(path.as_str()) {
        let size = disk.size_of(path.as_str());
        Ok(Download { report: report.clone(), size, mime_type: "application/pdf".to_owned() })
    } else {
        match net {
            FetchOutcome::Success(size) => {
                disk.create(path.as_str(), size);
                Ok(
                    Download {
                        report: report.clone(),
                        size,
                        mime_type: "application/pdf".to_owned(),
                    },
                )
            },
            FetchOutcome::Failure(e) => {
                // the streamed write may have left a partial file: remove it
                disk.create(path.as_str(), 0);
                disk.remove(path.as_str());
                proof {
                    assert(disk@ =~= old(disk)@);
                }
                Err(e)
            },
        }
    }
}

/// The destination tree after the records of one catalog are fetched in
/// order against `disk`.
pub open spec fn run_disk(
    disk: Map<Seq<char>, u64>,
    root: Seq<char>,
    records: Seq<Report>,
    nets: Seq<FetchOutcome>,
) -> Map<Seq<char>, u64>
    decreases records.len(),
{
    if records.len() == 0 {
        disk
    } else {
        fetch_disk(
            run_disk(disk, root, records.drop_last(), nets.drop_last()),
            root,
            records.last(),
            nets.last(),
        )
    }
}

/// The records of one catalog that survive fetching (their fetch resolved),
/// in input order: a failed record is excluded, not replaced.
pub open spec fn run_kept(
    disk: Map<Seq<char>, u64>,
    root: Seq<char>,
    records: Seq<Report>,
    nets: Seq<FetchOutcome>,
) -> Seq<Report>
    decreases records.len(),
{
    if records.len() == 0 {
        Seq::empty()
    } else {
        let rest = run_kept(disk, root, records.drop_last(), nets.drop_last());
        let pre = run_disk(disk, root, records.drop_last(), nets.drop_last());
        if fetch_result(pre, root, records.last(), nets.last()) is Some {
            rest.push(records.last())
        } else {
            rest
        }
    }
}

/// The observed sizes of the surviving records' artifacts, aligned with
/// [`run_kept`].
pub open spec fn run_sizes(
    disk: Map<Seq<char>, u64>,
    root: Seq<char>,
    records: Seq<Report>,
    nets: Seq<FetchOutcome>,
) -> Seq<u64>
    decreases records.len(),
{
    if records.len() == 0 {
        Seq::empty()
    } else {
        let rest = run_sizes(disk, root, records.drop_last(), nets.drop_last());
        let pre = run_disk(disk, root, records.drop_last(), nets.drop_last());
        match fetch_result(pre, root, records.last(), nets.last()) {
            Some(size) => rest.push(size),
            None => rest,
        }
    }
}

/// How many network transfers a catalog run starts: one for each record
/// whose path is not already present when its turn comes.
pub open spec fn count_fetches(
    disk: Map<Seq<char>, u64>,
    root: Seq<char>,
    records: Seq<Report>,
    nets: Seq<FetchOutcome>,
) -> nat
    decreases records.len(),
{
    if records.len() == 0 {
        0
    } else {
        let pre = run_disk(disk, root, records.drop_last(), nets.drop_last());
        count_fetches(disk, root, records.drop_last(), nets.drop_last()) + (if pre.dom().contains(
            spec_file_path(root, records.last()),
        ) {
            0nat
        } else {
            1nat
        })
    }
}

/// The artifact list a catalog yields: one artifact per surviving record,
/// in order, with the observed size and the assumed content type.
pub open spec fn downloads_match(ds: Seq<Download>, kept: Seq<Report>, sizes: Seq<u64>) -> bool {
    &&& ds.len() == kept.len()
    &&& ds.len() == sizes.len()
    &&& forall|i: int|
        0 <= i < ds.len() ==> (#[trigger] ds[i]).report == kept[i] && ds[i].size == sizes[i]
            && ds[i].mime_type@ == "application/pdf"@
}

/// The summary a catalog yields from its surviving records and the stored
/// metadata (or its absence).
pub open spec fn summary_matches(
    c: Company,
    kept: Seq<Report>,
    stored: Option<CompanyMetadata>,
) -> bool {
    &&& c.reports@ == kept
    &&& c.oldest_year == spec_oldest_year(kept)
    &&& c.newest_year == spec_newest_year(kept)
    &&& (stored is Some ==> c.metadata == stored->Some_0)
    &&& (stored is None ==> spec_default_metadata(c.metadata, spec_company_name(kept)))
}

/// Processes one catalog: fetches every record in order, excludes the
/// records whose fetch failed, and builds the company summary from the
/// survivors.
pub fn process_catalog(
    disk: &mut Disk,
    root: &str,
    records: Vec<Report>,
    outcomes: Vec<FetchOutcome>,
    stored: Option<CompanyMetadata>,
) -> (r: (Company, Vec<Download>))
    requires
        records@.len() == outcomes@.len(),
    ensures
        final(disk)@ == run_disk(old(disk)@, root@, records@, outcomes@),
        summary_matches(r.0, run_kept(old(disk)@, root@, records@, outcomes@), stored),
        downloads_match(
            r.1@,
            run_kept(old(disk)@, root@, records@, outcomes@),
            run_sizes(old(disk)@, root@, records@, outcomes@),
        ),
{
    let ghost disk0 = disk@;
    let mut kept: Vec<Report> = Vec::new();
    let mut downloads: Vec<Download> = Vec::new();
    let mut i: usize = 0;
    proof {
        assert(records@.take(0) =~= Seq::<Report>::empty());
        assert(outcomes@.take(0) =~= Seq::<FetchOutcome>::empty());
    }
    while i < records.len()
        invariant
            i <= records@.len(),
            records@.len() == outcomes@.len(),
            disk@ == run_disk(disk0, root@, records@.take(i as int), outcomes@.take(i as int)),
            kept@ == run_kept(disk0, root@, records@.take(i as int), outcomes@.take(i as int)),
            downloads_match(
                downloads@,
                kept@,
                run_sizes(disk0, root@, records@.take(i as int), outcomes@.take(i as int)),
            ),
        decreases records@.len() - i,
    {
        proof {
            assert(records@.take(i + 1).drop_last() =~= records@.take(i as int));
            assert(outcomes@.take(i + 1).drop_last() =~= outcomes@.take(i as int));
            assert(records@.take(i + 1).last() == records@[i as int]);
            assert(outcomes@.take(i + 1).last() == outcomes@[i as int]);
        }
        match fetch(disk, root, &records[i], outcomes[i]) {
            Ok(d) => {
                kept.push(records[i].clone());
                downloads.push(d);
            },
            Err(_) => {},
        }
        i = i + 1;
    }
    proof {
        assert(records@.take(records@.len() as int) =~= records@);
        assert(outcomes@.take(outcomes@.len() as int) =~= outcomes@);
    }
    let company = Company::new(kept, stored);
    (company, downloads)
}

/// Artifacts in presentation order: record years never increase.
pub open spec fn sorted_by_year_desc(s: Seq<Download>) -> bool {
    forall|i: int, j: int| 0 <= i < j < s.len() ==> s[i].report.year >= s[j].report.year
}

/// Reorders artifacts by record year, newest first; the artifacts
/// themselves are exactly those given.
pub fn sort_downloads_by_year_desc(downloads: Vec<Download>) -> (r: Vec<Download>)
    ensures
        sorted_by_year_desc(r@),
        r@.to_multiset() == downloads@.to_multiset(),
{
    broadcast use vstd::seq_lib::group_to_multiset_ensures;

    let mut v = downloads;
    let mut out: Vec<Download> = Vec::new();
    proof {
        assert(out@.to_multiset().add(v@.to_multiset()) =~= downloads@.to_multiset());
    }
    while v.len() > 0
        invariant
            out@.to_multiset().add(v@.to_multiset()) == downloads@.to_multiset(),
            sorted_by_year_desc(out@),
            forall|a: int, b: int|
                0 <= a < out@.len() && 0 <= b < v@.len() ==> out@[a].report.year
                    >= v@[b].report.year,
        decreases v@.len(),
    {
        let mut best: usize = 0;
        let mut j: usize = 1;
        while j < v.len()
            invariant
                best < j,
                j <= v@.len(),
                v@.len() > 0,
                forall|k: int| 0 <= k < j ==> v@[best as int].report.year >= v@[k].report.year,
            decreases v@.len() - j,
        {
            if v[j].report.year > v[best].report.year {
                best = j;
            }
            j = j + 1;
        }
        let ghost v_before = v@;
        let ghost out_before = out@;
        let x = v.remove(best);
        out.push(x);
        proof {
            broadcast use vstd::seq_lib::group_to_multiset_ensures;

            assert(v_before.contains(x)) by {
                assert(v_before[best as int] == x);
            }
            assert(v_before.to_multiset().count(x) > 0);
            assert(out@.to_multiset().add(v@.to_multiset()) =~= downloads@.to_multiset());
            assert(forall|b: int|
                0 <= b < v@.len() ==> x.report.year >= (#[trigger] v@[b]).report.year) by {
                assert(forall|b: int|
                    0 <= b < v@.len() ==> v@[b] == v_before[if b < best as int {
                        b
                    } else {
                        b + 1
                    }]);
            }
        }
    }
    out
}

/// One catalog's input to a run: its parsed records, what the network does
/// for each, and the metadata the side store holds for the company.
pub struct CatalogJob {
    pub records: Vec<Report>,
    pub outcomes: Vec<FetchOutcome>,
    pub stored: Option<CompanyMetadata>,
}

/// The destination tree after the catalogs are processed in order.
pub open spec fn pipeline_disk(
    disk: Map<Seq<char>, u64>,
    root: Seq<char>,
    catalogs: Seq<CatalogJob>,
) -> Map<Seq<char>, u64>
    decreases catalogs.len(),
{
    if catalogs.len() == 0 {
        disk
    } else {
        run_disk(
            pipeline_disk(disk, root, catalogs.drop_last()),
            root,
            catalogs.last().records@,
            catalogs.last().outcomes@,
        )
    }
}

/// What the `k`-th aggregate of a run holds: the summary of the catalog's
/// surviving records, and its artifacts sorted by year descending.
pub open spec fn aggregate_matches(
    cd: CompanyDownloads,
    disk: Map<Seq<char>, u64>,
    root: Seq<char>,
    catalogs: Seq<CatalogJob>,
    k: int,
) -> bool {
    let pre = pipeline_disk(disk, root, catalogs.take(k));
    let kept = run_kept(pre, root, catalogs[k].records@, catalogs[k].outcomes@);
    let sizes = run_sizes(pre, root, catalogs[k].records@, catalogs[k].outcomes@);
    &&& summary_matches(cd.company, kept, catalogs[k].stored)
    &&& sorted_by_year_desc(cd.downloads@)
    &&& exists|u: Seq<Download>|
        downloads_match(u, kept, sizes) && cd.downloads@.to_multiset() == u.to_multiset()
}

/// Runs the pipeline over all catalogs against one destination tree: each
/// catalog is processed to completion and yields one aggregate; nothing is
/// emitted before all are done.
pub fn run(disk: &mut Disk, root: &str, catalogs: Vec<CatalogJob>) -> (r: Vec<CompanyDownloads>)
    requires
        forall|k: int|
            0 <= k < catalogs@.len() ==> (#[trigger] catalogs@[k]).records@.len()
                == catalogs@[k].outcomes@.len(),
    ensures
        r@.len() == catalogs@.len(),
        final(disk)@ == pipeline_disk(old(disk)@, root@, catalogs@),
        forall|k: int|
            0 <= k < catalogs@.len() ==> aggregate_matches(
                #[trigger] r@[k],
                old(disk)@,
                root@,
                catalogs@,
                k,
            ),
{
    let ghost cats0 = catalogs@;
    let ghost disk0 = disk@;
    let mut catalogs = catalogs;
    let mut r: Vec<CompanyDownloads> = Vec::new();
    proof {
        assert(cats0.take(0) =~= Seq::<CatalogJob>::empty());
        assert(cats0.skip(0) =~= cats0);
    }
    while catalogs.len() > 0
        invariant
            r@.len() <= cats0.len(),
            catalogs@ == cats0.skip(r@.len() as int),
            disk@ == pipeline_disk(disk0, root@, cats0.take(r@.len() as int)),
            forall|k: int|
                0 <= k < cats0.len() ==> (#[trigger] cats0[k]).records@.len()
                    == cats0[k].outcomes@.len(),
            forall|k: int|
                0 <= k < r@.len() ==> aggregate_matches(#[trigger] r@[k], disk0, root@, cats0, k),
        decreases catalogs@.len(),
    {
        let ghost n = r@.len() as int;
        proof {
            assert(catalogs@[0] == cats0[n]);
            assert(cats0.take(n + 1).drop_last() =~= cats0.take(n));
            assert(cats0.take(n + 1).last() == cats0[n]);
        }
        let job = catalogs.remove(0);
        proof {
            assert(catalogs@ =~= cats0.skip(n + 1));
        }
        let (company, dls) = process_catalog(disk, root, job.records, job.outcomes, job.stored);
        let ghost unsorted = dls@;
        let dls = sort_downloads_by_year_desc(dls);
        r.push(CompanyDownloads { company, downloads: dls });
        proof {
            let cd = r@[n];
            assert(downloads_match(
                unsorted,
                run_kept(pipeline_disk(disk0, root@, cats0.take(n)), root@, cats0[n].records@, cats0[n].outcomes@),
                run_sizes(pipeline_disk(disk0, root@, cats0.take(n)), root@, cats0[n].records@, cats0[n].outcomes@),
            ));
            assert(aggregate_matches(cd, disk0, root@, cats0, n));
        }
    }
    proof {
        assert(cats0.take(r@.len() as int) =~= cats0);
    }
    r
}

/// A run never touches a file that already exists: present paths keep
/// their sizes.
proof fn lemma_run_disk_preserves(
    disk: Map<Seq<char>, u64>,
    root: Seq<char>,
    records: Seq<Report>,
    nets: Seq<FetchOutcome>,
    k: Seq<char>,
)
    requires
        disk.dom().contains(k),
    ensures
        run_disk(disk, root, records, nets).dom().contains(k),
        run_disk(disk, root, records, nets)[k] == disk[k],
    decreases records.len(),
{
    if records.len() > 0 {
        lemma_run_disk_preserves(disk, root, records.drop_last(), nets.drop_last(), k);
    }
}

/// Any path a run creates is the canonical path of one of its records
/// whose fetch succeeded.
proof fn lemma_run_disk_new_keys(
    disk: Map<Seq<char>, u64>,
    root: Seq<char>,
    records: Seq<Report>,
    nets: Seq<FetchOutcome>,
    k: Seq<char>,
)
    requires
        records.len() == nets.len(),
        run_disk(disk, root, records, nets).dom().contains(k),
        !disk.dom().contains(k),
    ensures
        exists|j: int|
            0 <= j < records.len() && spec_file_path(root, #[trigger] records[j]) == k && nets[j]
                matches FetchOutcome::Success(_),
    decreases records.len(),
{
    let pre = run_disk(disk, root, records.drop_last(), nets.drop_last());
    if pre.dom().contains(k) {
        lemma_run_disk_new_keys(disk, root, records.drop_last(), nets.drop_last(), k);
        let j = choose|j: int|
            0 <= j < records.drop_last().len() && spec_file_path(
                root,
                #[trigger] records.drop_last()[j],
            ) == k && nets.drop_last()[j] matches FetchOutcome::Success(_);
        assert(records.drop_last()[j] == records[j]);
        assert(nets.drop_last()[j] == nets[j]);
    } else {
        assert(spec_file_path(root, records[records.len() - 1]) == k);
    }
}

/// When every fetch of a catalog succeeds, every record survives, every
/// record's path exists afterwards, and the tree records exactly the
/// observed sizes.
proof fn lemma_run_all_success(
    disk: Map<Seq<char>, u64>,
    root: Seq<char>,
    records: Seq<Report>,
    nets: Seq<FetchOutcome>,
)
    requires
        records.len() == nets.len(),
        forall|j: int| 0 <= j < nets.len() ==> #[trigger] nets[j] matches FetchOutcome::Success(_),
    ensures
        run_kept(disk, root, records, nets) == records,
        run_sizes(disk, root, records, nets).len() == records.len(),
        forall|j: int|
            0 <= j < records.len() ==> run_disk(disk, root, records, nets).dom().contains(
                spec_file_path(root, #[trigger] records[j]),
            ) && run_disk(disk, root, records, nets)[spec_file_path(root, records[j])] == run_sizes(
                disk,
                root,
                records,
                nets,
            )[j],
    decreases records.len(),
{
    if records.len() == 0 {
        assert(run_kept(disk, root, records, nets) =~= records);
    } else {
        let rest_records = records.drop_last();
        let rest_nets = nets.drop_last();
        assert(forall|j: int|
            0 <= j < rest_nets.len() ==> #[trigger] rest_nets[j] matches FetchOutcome::Success(_));
        lemma_run_all_success(disk, root, rest_records, rest_nets);
        let pre = run_disk(disk, root, rest_records, rest_nets);
        let pre_sizes = run_sizes(disk, root, rest_records, rest_nets);
        let last = records.last();
        let path = spec_file_path(root, last);
        assert(nets[records.len() - 1] matches FetchOutcome::Success(_));
        assert(run_kept(disk, root, records, nets) =~= records);
        let d1 = run_disk(disk, root, records, nets);
        let sizes = run_sizes(disk, root, records, nets);
        assert forall|j: int| 0 <= j < records.len() implies d1.dom().contains(
            spec_file_path(root, #[trigger] records[j]),
        ) && d1[spec_file_path(root, records[j])] == sizes[j] by {
            if j < records.len() - 1 {
                assert(rest_records[j] == records[j]);
                let p = spec_file_path(root, records[j]);
                assert(pre.dom().contains(p) && pre[p] == pre_sizes[j]);
                assert(sizes[j] == pre_sizes[j]);
            }
        }
    }
}

/// When every record's path already exists, a run changes nothing, keeps
/// every record, reads the existing sizes, and starts zero transfers.
proof fn lemma_run_preexisting(
    disk: Map<Seq<char>, u64>,
    root: Seq<char>,
    records: Seq<Report>,
    nets: Seq<FetchOutcome>,
)
    requires
        records.len() == nets.len(),
        forall|j: int|
            0 <= j < records.len() ==> disk.dom().contains(
                spec_file_path(root, #[trigger] records[j]),
            ),
    ensures
        run_disk(disk, root, records, nets) == disk,
        run_kept(disk, root, records, nets) == records,
        run_sizes(disk, root, records, nets).len() == records.len(),
        forall|j: int|
            0 <= j < records.len() ==> run_sizes(disk, root, records, nets)[j] == disk[
                spec_file_path(root, #[trigger] records[j])
            ],
        count_fetches(disk, root, records, nets) == 0,
    decreases records.len(),
{
    if records.len() == 0 {
        assert(run_kept(disk, root, records, nets) =~= records);
    } else {
        let rest_records = records.drop_last();
        let rest_nets = nets.drop_last();
        assert(forall|j: int| 0 <= j < rest_records.len() ==> rest_records[j] == records[j]);
        lemma_run_preexisting(disk, root, rest_records, rest_nets);
        assert(records[records.len() - 1] == records.last());
        assert(run_kept(disk, root, records, nets) =~= records);
    }
}

/// Idempotence of the pipeline against one destination root: a catalog run
/// whose fetches all succeed materializes every record's path, so a second
/// run over the same catalog starts zero network transfers, leaves the tree
/// unchanged, and yields the same surviving records and the same artifact
/// sizes — whatever the network would have done the second time.
pub proof fn lemma_run_idempotent(
    disk: Map<Seq<char>, u64>,
    root: Seq<char>,
    records: Seq<Report>,
    nets1: Seq<FetchOutcome>,
    nets2: Seq<FetchOutcome>,
)
    requires
        records.len() == nets1.len(),
        records.len() == nets2.len(),
        forall|j: int| 0 <= j < nets1.len() ==> #[trigger] nets1[j] matches FetchOutcome::Success(
            _,
        ),
    ensures
        ({
            let d1 = run_disk(disk, root, records, nets1);
            &&& run_kept(disk, root, records, nets1) == records
            &&& run_disk(d1, root, records, nets2) == d1
            &&& run_kept(d1, root, records, nets2) == records
            &&& run_sizes(d1, root, records, nets2) == run_sizes(disk, root, records, nets1)
            &&& count_fetches(d1, root, records, nets2) == 0
        }),
{
    lemma_run_all_success(disk, root, records, nets1);
    let d1 = run_disk(disk, root, records, nets1);
    lemma_run_preexisting(d1, root, records, nets2);
    assert forall|j: int| 0 <= j < records.len() implies run_sizes(d1, root, records, nets2)[j]
        == run_sizes(disk, root, records, nets1)[j] by {
        assert(d1.dom().contains(spec_file_path(root, records[j])));
        assert(d1[spec_file_path(root, records[j])] == run_sizes(disk, root, records, nets1)[j]);
    }
    assert(run_sizes(d1, root, records, nets2) =~= run_sizes(disk, root, records, nets1));
}

/// A run over the catalogs never touches a file that already exists:
/// present paths keep their sizes.
proof fn lemma_pipeline_disk_preserves(
    disk: Map<Seq<char>, u64>,
    root: Seq<char>,
    catalogs: Seq<CatalogJob>,
    k: Seq<char>,
)
    requires
        disk.dom().contains(k),
    ensures
        pipeline_disk(disk, root, catalogs).dom().contains(k),
        pipeline_disk(disk, root, catalogs)[k] == disk[k],
    decreases catalogs.len(),
{
    if catalogs.len() > 0 {
        lemma_pipeline_disk_preserves(disk, root, catalogs.drop_last(), k);
        lemma_run_disk_preserves(
            pipeline_disk(disk, root, catalogs.drop_last()),
            root,
            catalogs.last().records@,
            catalogs.last().outcomes@,
            k,
        );
    }
}

/// When every fetch of every catalog succeeds, the final tree holds every
/// record's path with the size its run observed.
proof fn lemma_pipeline_all_success(
    disk: Map<Seq<char>, u64>,
    root: Seq<char>,
    catalogs: Seq<CatalogJob>,
)
    requires
        forall|k: int|
            0 <= k < catalogs.len() ==> (#[trigger] catalogs[k]).records@.len()
                == catalogs[k].outcomes@.len(),
        forall|k: int, j: int|
            0 <= k < catalogs.len() && 0 <= j < catalogs[k].outcomes@.len()
                ==> (#[trigger] catalogs[k].outcomes@[j]) matches FetchOutcome::Success(_),
    ensures
        forall|k: int, j: int|
            0 <= k < catalogs.len() && 0 <= j < catalogs[k].records@.len() ==> {
                let path = spec_file_path(root, #[trigger] catalogs[k].records@[j]);
                let pre = pipeline_disk(disk, root, catalogs.take(k));
                &&& pipeline_disk(disk, root, catalogs).dom().contains(path)
                &&& pipeline_disk(disk, root, catalogs)[path] == run_sizes(
                    pre,
                    root,
                    catalogs[k].records@,
                    catalogs[k].outcomes@,
                )[j]
            },
    decreases catalogs.len(),
{
    if catalogs.len() > 0 {
        let rest = catalogs.drop_last();
        assert(forall|k: int| 0 <= k < rest.len() ==> rest[k] == catalogs[k]);
        lemma_pipeline_all_success(disk, root, rest);
        let mid = pipeline_disk(disk, root, rest);
        let last = catalogs.last();
        lemma_run_all_success(mid, root, last.records@, last.outcomes@);
        let d_final = pipeline_disk(disk, root, catalogs);
        assert forall|k: int, j: int|
            0 <= k < catalogs.len() && 0 <= j < catalogs[k].records@.len() implies {
            let path = spec_file_path(root, #[trigger] catalogs[k].records@[j]);
            let pre = pipeline_disk(disk, root, catalogs.take(k));
            d_final.dom().contains(path) && d_final[path] == run_sizes(
                pre,
                root,
                catalogs[k].records@,
                catalogs[k].outcomes@,
            )[j]
        } by {
            let path = spec_file_path(root, catalogs[k].records@[j]);
            if k < catalogs.len() - 1 {
                assert(rest.take(k) =~= catalogs.take(k));
                assert(mid.dom().contains(path));
                lemma_run_disk_preserves(mid, root, last.records@, last.outcomes@, path);
            } else {
                assert(catalogs.take(k) =~= rest);
            }
        }
    }
}

/// Over a tree that already holds every record's path, a run over the
/// catalogs changes nothing, keeps every record, reads the existing sizes,
/// and starts zero transfers.
proof fn lemma_pipeline_preexisting(
    disk: Map<Seq<char>, u64>,
    root: Seq<char>,
    catalogs: Seq<CatalogJob>,
)
    requires
        forall|k: int|
            0 <= k < catalogs.len() ==> (#[trigger] catalogs[k]).records@.len()
                == catalogs[k].outcomes@.len(),
        forall|k: int, j: int|
            0 <= k < catalogs.len() && 0 <= j < catalogs[k].records@.len() ==> disk.dom().contains(
                spec_file_path(root, #[trigger] catalogs[k].records@[j]),
            ),
    ensures
        pipeline_disk(disk, root, catalogs) == disk,
        forall|k: int|
            0 <= k <= catalogs.len() ==> pipeline_disk(disk, root, #[trigger] catalogs.take(k))
                == disk,
        forall|k: int|
            0 <= k < catalogs.len() ==> run_kept(
                disk,
                root,
                (#[trigger] catalogs[k]).records@,
                catalogs[k].outcomes@,
            ) == catalogs[k].records@,
        forall|k: int, j: int|
            0 <= k < catalogs.len() && 0 <= j < catalogs[k].records@.len() ==> run_sizes(
                disk,
                root,
                catalogs[k].records@,
                catalogs[k].outcomes@,
            )[j] == disk[spec_file_path(root, #[trigger] catalogs[k].records@[j])] && run_sizes(
                disk,
                root,
                catalogs[k].records@,
                catalogs[k].outcomes@,
            ).len() == catalogs[k].records@.len(),
        forall|k: int|
            0 <= k < catalogs.len() ==> count_fetches(
                disk,
                root,
                (#[trigger] catalogs[k]).records@,
                catalogs[k].outcomes@,
            ) == 0,
    decreases catalogs.len(),
{
    assert(catalogs.take(0) =~= Seq::<CatalogJob>::empty());
    if catalogs.len() > 0 {
        let rest = catalogs.drop_last();
        assert(forall|k: int| 0 <= k < rest.len() ==> rest[k] == catalogs[k]);
        lemma_pipeline_preexisting(disk, root, rest);
        let last = catalogs.last();
        lemma_run_preexisting(disk, root, last.records@, last.outcomes@);
        assert forall|k: int| 0 <= k <= catalogs.len() implies pipeline_disk(
            disk,
            root,
            #[trigger] catalogs.take(k),
        ) == disk by {
            if k < catalogs.len() {
                assert(rest.take(k) =~= catalogs.take(k));
            } else {
                assert(catalogs.take(k) =~= catalogs);
            }
        }
    }
}

/// Idempotence of the whole pipeline against one destination root: after a
/// run in which every fetch of every catalog succeeds, a second run over
/// the same catalogs starts zero network transfers, leaves the destination
/// tree unchanged, and yields the same surviving records and the same
/// artifact sizes for every catalog — whatever the network would have done
/// the second time.
pub proof fn lemma_pipeline_idempotent(
    disk: Map<Seq<char>, u64>,
    root: Seq<char>,
    catalogs1: Seq<CatalogJob>,
    catalogs2: Seq<CatalogJob>,
)
    requires
        catalogs1.len() == catalogs2.len(),
        forall|k: int|
            0 <= k < catalogs1.len() ==> (#[trigger] catalogs2[k]).records@ == catalogs1[
                k
            ].records@,
        forall|k: int|
            0 <= k < catalogs1.len() ==> (#[trigger] catalogs1[k]).records@.len() == catalogs1[
                k
            ].outcomes@.len(),
        forall|k: int|
            0 <= k < catalogs2.len() ==> (#[trigger] catalogs2[k]).records@.len() == catalogs2[
                k
            ].outcomes@.len(),
        forall|k: int, j: int|
            0 <= k < catalogs1.len() && 0 <= j < catalogs1[k].outcomes@.len()
                ==> (#[trigger] catalogs1[k].outcomes@[j]) matches FetchOutcome::Success(_),
    ensures
        ({
            let d1 = pipeline_disk(disk, root, catalogs1);
            &&& pipeline_disk(d1, root, catalogs2) == d1
            &&& forall|k: int|
                0 <= k < catalogs2.len() ==> run_kept(
                    pipeline_disk(d1, root, catalogs2.take(k)),
                    root,
                    (#[trigger] catalogs2[k]).records@,
                    catalogs2[k].outcomes@,
                ) == catalogs2[k].records@
            &&& forall|k: int|
                0 <= k < catalogs2.len() ==> run_sizes(
                    pipeline_disk(d1, root, catalogs2.take(k)),
                    root,
                    (#[trigger] catalogs2[k]).records@,
                    catalogs2[k].outcomes@,
                ) == run_sizes(
                    pipeline_disk(disk, root, catalogs1.take(k)),
                    root,
                    catalogs1[k].records@,
                    catalogs1[k].outcomes@,
                )
            &&& forall|k: int|
                0 <= k < catalogs2.len() ==> count_fetches(
                    pipeline_disk(d1, root, catalogs2.take(k)),
                    root,
                    (#[trigger] catalogs2[k]).records@,
                    catalogs2[k].outcomes@,
                ) == 0
        }),
{
    lemma_pipeline_all_success(disk, root, catalogs1);
    let d1 = pipeline_disk(disk, root, catalogs1);
    assert forall|k: int, j: int|
        0 <= k < catalogs2.len() && 0 <= j < catalogs2[k].records@.len() implies d1.dom().contains(
        spec_file_path(root, #[trigger] catalogs2[k].records@[j]),
    ) by {
        assert(catalogs2[k].records@[j] == catalogs1[k].records@[j]);
    }
    lemma_pipeline_preexisting(d1, root, catalogs2);
    assert forall|k: int| 0 <= k < catalogs2.len() implies run_sizes(
        pipeline_disk(d1, root, catalogs2.take(k)),
        root,
        (#[trigger] catalogs2[k]).records@,
        catalogs2[k].outcomes@,
    ) == run_sizes(
        pipeline_disk(disk, root, catalogs1.take(k)),
        root,
        catalogs1[k].records@,
        catalogs1[k].outcomes@,
    ) by {
        let sizes2 = run_sizes(
            pipeline_disk(d1, root, catalogs2.take(k)),
            root,
            catalogs2[k].records@,
            catalogs2[k].outcomes@,
        );
        let sizes1 = run_sizes(
            pipeline_disk(disk, root, catalogs1.take(k)),
            root,
            catalogs1[k].records@,
            catalogs1[k].outcomes@,
        );
        assert(pipeline_disk(d1, root, catalogs2.take(k)) == d1);
        lemma_run_all_success(
            pipeline_disk(disk, root, catalogs1.take(k)),
            root,
            catalogs1[k].records@,
            catalogs1[k].outcomes@,
        );
        lemma_run_preexisting(d1, root, catalogs2[k].records@, catalogs2[k].outcomes@);
        assert forall|j: int| 0 <= j < catalogs2[k].records@.len() implies sizes2[j] == sizes1[j] by {
            assert(catalogs2[k].records@[j] == catalogs1[k].records@[j]);
            assert(sizes2[j] == d1[spec_file_path(root, catalogs2[k].records@[j])]);
        }
        assert(sizes2 =~= sizes1);
    }
}

/// Exclusion on failure, and no partial artifact: when exactly the `i`-th
/// record of a catalog fails to fetch (its path fresh and not shared with
/// another record), the survivors are exactly the records without the
/// `i`-th — one fewer — and the failed record's path does not exist
/// afterwards.
pub proof fn lemma_failure_excluded(
    disk: Map<Seq<char>, u64>,
    root: Seq<char>,
    records: Seq<Report>,
    nets: Seq<FetchOutcome>,
    i: int,
)
    requires
        records.len() == nets.len(),
        0 <= i < records.len(),
        nets[i] matches FetchOutcome::Failure(_),
        forall|j: int|
            0 <= j < nets.len() && j != i ==> #[trigger] nets[j] matches FetchOutcome::Success(_),
        !disk.dom().contains(spec_file_path(root, records[i])),
        forall|j: int|
            0 <= j < records.len() && j != i ==> spec_file_path(root, #[trigger] records[j])
                != spec_file_path(root, records[i]),
    ensures
        run_kept(disk, root, records, nets) == records.remove(i),
        run_kept(disk, root, records, nets).len() == records.len() - 1,
        !run_disk(disk, root, records, nets).dom().contains(spec_file_path(root, records[i])),
    decreases records.len(),
{
    let rest_records = records.drop_last();
    let rest_nets = nets.drop_last();
    let pre = run_disk(disk, root, rest_records, rest_nets);
    let path_i = spec_file_path(root, records[i]);
    assert(forall|j: int| 0 <= j < rest_records.len() ==> rest_records[j] == records[j]);
    assert(forall|j: int| 0 <= j < rest_nets.len() ==> rest_nets[j] == nets[j]);
    if i == records.len() - 1 {
        assert(forall|j: int|
            0 <= j < rest_nets.len() ==> #[trigger] rest_nets[j] matches FetchOutcome::Success(_));
        lemma_run_all_success(disk, root, rest_records, rest_nets);
        if pre.dom().contains(path_i) {
            lemma_run_disk_new_keys(disk, root, rest_records, rest_nets, path_i);
            assert(false);
        }
        assert(fetch_result(pre, root, records.last(), nets.last()) is None);
        assert(run_kept(disk, root, records, nets) =~= records.remove(i));
    } else {
        lemma_failure_excluded(disk, root, rest_records, rest_nets, i);
        assert(records[i] == rest_records[i]);
        assert(nets[records.len() - 1] matches FetchOutcome::Success(_));
        assert(fetch_result(pre, root, records.last(), nets.last()) is Some);
        assert(run_kept(disk, root, records, nets) == run_kept(
            disk,
            root,
            rest_records,
            rest_nets,
        ).push(records.last()));
        assert(run_kept(disk, root, records, nets) =~= records.remove(i));
        let path_last = spec_file_path(root, records.last());
        assert(path_last != path_i);
    }
}

} // verus!
