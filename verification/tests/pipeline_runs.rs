use annual_report_database::data_structures::Report;
use annual_report_database::disk::Disk;
use annual_report_database::pipeline::{
    fetch, process_catalog, run, sort_downloads_by_year_desc, CatalogJob, FetchError, FetchOutcome,
};

fn report(company: &str, language: &str, report_type: &str, year: u16, link: &str) -> Report {
    Report {
        company: company.to_string(),
        language: language.to_string(),
        report_type: report_type.to_string(),
        year,
        link: link.to_string(),
    }
}

fn acme_catalog() -> Vec<Report> {
    vec![
        report("Acme", "EN", "AR", 2022, "url1"),
        report("Acme", "DE", "AR", 2022, "url2"),
        report("Acme", "EN", "AR", 2023, "url3"),
    ]
}

#[test]
fn fetch_success_materializes_the_file() {
    let mut disk = Disk::new();
    let r = report("Acme", "EN", "AR", 2022, "url1");
    let d = fetch(&mut disk, "root", &r, FetchOutcome::Success(55)).unwrap();
    assert_eq!(d.size, 55);
    assert_eq!(d.mime_type, "application/pdf");
    assert_eq!(d.report.link, "url1");
    assert!(disk.contains("root/Acme/2022/AR-EN.pdf"));
}

#[test]
fn fetch_skips_an_existing_path() {
    let mut disk = Disk::new();
    let r = report("Acme", "EN", "AR", 2022, "url1");
    fetch(&mut disk, "root", &r, FetchOutcome::Success(55)).unwrap();
    // the path now exists: the network is not consulted, even when it would fail
    let d = fetch(&mut disk, "root", &r, FetchOutcome::Failure(FetchError::Network)).unwrap();
    assert_eq!(d.size, 55);
}

#[test]
fn failed_fetch_leaves_no_partial_artifact() {
    let mut disk = Disk::new();
    let r = report("Acme", "EN", "AR", 2022, "url1");
    let res = fetch(&mut disk, "root", &r, FetchOutcome::Failure(FetchError::Network));
    assert_eq!(res.unwrap_err(), FetchError::Network);
    assert!(!disk.contains("root/Acme/2022/AR-EN.pdf"));
}

#[test]
fn failed_record_is_excluded_exactly() {
    let mut disk = Disk::new();
    let records = acme_catalog();
    let outcomes = vec![
        FetchOutcome::Success(40),
        FetchOutcome::Failure(FetchError::Status),
        FetchOutcome::Success(60),
    ];
    let (company, downloads) = process_catalog(&mut disk, "root", records, outcomes, None);
    assert_eq!(company.reports.len(), 2);
    assert_eq!(company.reports[0].link, "url1");
    assert_eq!(company.reports[1].link, "url3");
    assert_eq!(downloads.len(), 2);
    assert_eq!(downloads[0].size, 40);
    assert_eq!(downloads[1].size, 60);
    assert!(!disk.contains("root/Acme/2022/AR-DE.pdf"));
    assert!(disk.contains("root/Acme/2022/AR-EN.pdf"));
    assert!(disk.contains("root/Acme/2023/AR-EN.pdf"));
}

#[test]
fn second_run_fetches_nothing_and_agrees() {
    let mut disk = Disk::new();
    let outcomes = vec![
        FetchOutcome::Success(40),
        FetchOutcome::Success(50),
        FetchOutcome::Success(60),
    ];
    let (company1, downloads1) = process_catalog(&mut disk, "root", acme_catalog(), outcomes, None);
    // every path now exists, so the second run must resolve every record
    // from the tree alone: a network that would always fail changes nothing
    let outcomes = vec![
        FetchOutcome::Failure(FetchError::Network),
        FetchOutcome::Failure(FetchError::Network),
        FetchOutcome::Failure(FetchError::Network),
    ];
    let (company2, downloads2) = process_catalog(&mut disk, "root", acme_catalog(), outcomes, None);
    assert_eq!(company2.reports.len(), company1.reports.len());
    assert_eq!(company2.oldest_year, company1.oldest_year);
    assert_eq!(company2.newest_year, company1.newest_year);
    assert_eq!(company2.metadata.name, company1.metadata.name);
    assert_eq!(downloads2.len(), downloads1.len());
    for (a, b) in downloads1.iter().zip(downloads2.iter()) {
        assert_eq!(a.size, b.size);
        assert_eq!(a.report.link, b.report.link);
        assert_eq!(a.mime_type, b.mime_type);
    }
}

#[test]
fn sort_orders_by_year_descending() {
    let downloads = vec![
        annual_report_database::data_structures::Download {
            report: report("Acme", "EN", "AR", 2020, "a"),
            size: 10,
            mime_type: "application/pdf".to_string(),
        },
        annual_report_database::data_structures::Download {
            report: report("Acme", "EN", "AR", 2023, "b"),
            size: 11,
            mime_type: "application/pdf".to_string(),
        },
        annual_report_database::data_structures::Download {
            report: report("Acme", "EN", "AR", 2021, "c"),
            size: 12,
            mime_type: "application/pdf".to_string(),
        },
    ];
    let sorted = sort_downloads_by_year_desc(downloads);
    let years: Vec<u16> = sorted.iter().map(|d| d.report.year).collect();
    assert_eq!(years, vec![2023, 2021, 2020]);
    let links: Vec<&str> = sorted.iter().map(|d| d.report.link.as_str()).collect();
    assert_eq!(links, vec!["b", "c", "a"]);
}

#[test]
fn end_to_end_single_catalog() {
    let mut disk = Disk::new();
    let catalogs = vec![CatalogJob {
        records: acme_catalog(),
        outcomes: vec![
            FetchOutcome::Success(40),
            FetchOutcome::Success(50),
            FetchOutcome::Success(60),
        ],
        stored: None,
    }];
    let results = run(&mut disk, "root", catalogs);
    assert_eq!(results.len(), 1);
    let acme = &results[0];
    assert_eq!(acme.company.metadata.name, "Acme");
    assert_eq!(acme.company.oldest_year, 2022);
    assert_eq!(acme.company.newest_year, 2023);
    assert_eq!(acme.downloads.len(), 3);
    // artifacts are sorted by year, newest first
    assert_eq!(acme.downloads[0].report.year, 2023);
    // two files under Acme/2022/, one under Acme/2023/
    assert!(disk.contains("root/Acme/2022/AR-EN.pdf"));
    assert!(disk.contains("root/Acme/2022/AR-DE.pdf"));
    assert!(disk.contains("root/Acme/2023/AR-EN.pdf"));
    assert!(!disk.contains("root/Acme/2021/AR-EN.pdf"));
}

#[test]
fn duplicate_records_share_one_path() {
    let mut disk = Disk::new();
    let records = vec![
        report("Acme", "EN", "AR", 2022, "url1"),
        report("Acme", "EN", "AR", 2022, "url-other"),
    ];
    let outcomes = vec![FetchOutcome::Success(40), FetchOutcome::Success(99)];
    let (company, downloads) = process_catalog(&mut disk, "root", records, outcomes, None);
    // the second record maps to the same path: it is served from the tree,
    // silently, with the first record's size
    assert_eq!(company.reports.len(), 2);
    assert_eq!(downloads.len(), 2);
    assert_eq!(downloads[0].size, 40);
    assert_eq!(downloads[1].size, 40);
}

#[test]
fn extreme_years_format_correctly() {
    let r = report("Acme", "EN", "AR", 0, "a");
    assert_eq!(r.get_file_path("d"), "d/Acme/0/AR-EN.pdf");
    let r = report("Acme", "EN", "AR", u16::MAX, "a");
    assert_eq!(r.get_file_path("d"), "d/Acme/65535/AR-EN.pdf");
}

#[test]
fn rerunning_the_whole_pipeline_changes_nothing() {
    let catalogs = || {
        vec![
            CatalogJob {
                records: acme_catalog(),
                outcomes: vec![
                    FetchOutcome::Success(40),
                    FetchOutcome::Success(50),
                    FetchOutcome::Success(60),
                ],
                stored: None,
            },
            CatalogJob {
                records: vec![report("Beta", "DE", "FR", 2021, "url9")],
                outcomes: vec![FetchOutcome::Success(70)],
                stored: None,
            },
        ]
    };
    let mut disk = Disk::new();
    let first = run(&mut disk, "root", catalogs());
    // every path now exists: the second run must not consult the network
    let mut second_catalogs = catalogs();
    for catalog in &mut second_catalogs {
        for outcome in &mut catalog.outcomes {
            *outcome = FetchOutcome::Failure(FetchError::Network);
        }
    }
    let second = run(&mut disk, "root", second_catalogs);
    assert_eq!(first.len(), second.len());
    for (a, b) in first.iter().zip(second.iter()) {
        assert_eq!(a.company.metadata.name, b.company.metadata.name);
        assert_eq!(a.company.oldest_year, b.company.oldest_year);
        assert_eq!(a.company.newest_year, b.company.newest_year);
        assert_eq!(a.company.reports.len(), b.company.reports.len());
        assert_eq!(a.downloads.len(), b.downloads.len());
        for (x, y) in a.downloads.iter().zip(b.downloads.iter()) {
            assert_eq!(x.report.link, y.report.link);
            assert_eq!(x.size, y.size);
            assert_eq!(x.mime_type, y.mime_type);
        }
    }
}

#[test]
fn catalogs_share_one_destination_tree() {
    let mut disk = Disk::new();
    let catalogs = vec![
        CatalogJob {
            records: vec![report("Acme", "EN", "AR", 2022, "url1")],
            outcomes: vec![FetchOutcome::Success(40)],
            stored: None,
        },
        CatalogJob {
            records: vec![report("Beta", "EN", "AR", 2022, "url9")],
            outcomes: vec![FetchOutcome::Failure(FetchError::Write)],
            stored: None,
        },
    ];
    let results = run(&mut disk, "root", catalogs);
    assert_eq!(results.len(), 2);
    assert_eq!(results[0].company.metadata.name, "Acme");
    assert_eq!(results[0].downloads.len(), 1);
    // the failed catalog still yields a summary, with the record excluded
    assert_eq!(results[1].company.metadata.name, "");
    assert_eq!(results[1].company.reports.len(), 0);
    assert!(results[1].downloads.is_empty());
    assert!(disk.contains("root/Acme/2022/AR-EN.pdf"));
    assert!(!disk.contains("root/Beta/2022/AR-EN.pdf"));
}
