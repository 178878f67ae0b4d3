use annual_report_database::data_structures::{
    filter_companies, get_document_name, get_language, Company, CompanyDownloads, CompanyMetadata,
    Configuration, Download, Report,
};

fn report(company: &str, language: &str, report_type: &str, year: u16, link: &str) -> Report {
    Report {
        company: company.to_string(),
        language: language.to_string(),
        report_type: report_type.to_string(),
        year,
        link: link.to_string(),
    }
}

fn download(report_value: Report, size: u64, mime_type: &str) -> Download {
    Download {
        report: report_value,
        size,
        mime_type: mime_type.to_string(),
    }
}

#[test]
fn document_names_are_mapped() {
    assert_eq!(get_document_name("AR"), "Annual report");
    assert_eq!(get_document_name("FR"), "Financial report");
    assert_eq!(get_document_name("SR"), "Sustainability report");
    assert_eq!(get_document_name("CG"), "Corporate Governance");
    assert_eq!(get_document_name("RS"), "Annual Results");
    assert_eq!(get_document_name("CR"), "Compensation Report");
    assert_eq!(get_document_name("ST"), "Strategy Report");
    assert_eq!(get_document_name("AD"), "Addendum");
    assert_eq!(get_document_name("AM"), "Annual Meeting Minutes");
    assert_eq!(get_document_name("RR"), "Risk Report");
    assert_eq!(get_document_name("RV"), "Review");
    assert_eq!(get_document_name("PS"), "Proxy Statement");
    assert_eq!(get_document_name("10K"), "SEC Form 10-K");
    assert_eq!(get_document_name("20F"), "SEC Form 20-F");
    assert_eq!(get_document_name("GRI"), "GRI Sustainability Reporting Standard");
}

#[test]
fn unknown_document_code_is_shown_as_itself() {
    assert_eq!(get_document_name("XX"), "XX");
    assert_eq!(get_document_name(""), "");
}

#[test]
fn language_names_are_mapped() {
    assert_eq!(get_language("EN"), "English");
    assert_eq!(get_language("DE"), "Deutsch");
    assert_eq!(get_language("FR"), "Français");
    assert_eq!(get_language("IT"), "Italiano");
    assert_eq!(get_language("ES"), "");
}

#[test]
fn file_path_follows_the_layout() {
    let r = report("Acme", "EN", "AR", 2022, "https://example.com/a.pdf");
    assert_eq!(r.get_file_path("downloads"), "downloads/Acme/2022/AR-EN.pdf");
    let r = report("Beta Corp", "DE", "10K", 999, "x");
    assert_eq!(r.get_file_path("d"), "d/Beta Corp/999/10K-DE.pdf");
}

#[test]
fn default_metadata_fields() {
    let m = CompanyMetadata::new("Acme");
    assert_eq!(m.name, "Acme");
    assert_eq!(m.country, "CH");
    assert!(m.tags.is_empty());
    assert_eq!(m.comment, "");
    assert!(m.links.is_empty());
    assert_eq!(m.annual_closing_date, "31.12");
    assert_eq!(m.accounting_rules, "IFRS");
    assert_eq!(m.legal_form, "AG");
    assert_eq!(m.url, "");
    assert_eq!(m.email, "");
    assert_eq!(m.share_class, "RS");
}

#[test]
fn domainname_strips_scheme_and_www() {
    let mut m = CompanyMetadata::new("Acme");
    m.url = "https://www.example.com".to_string();
    assert_eq!(m.get_domainname(false), "www.example.com");
    assert_eq!(m.get_domainname(true), "example.com");
    m.url = "http://example.org/ir".to_string();
    assert_eq!(m.get_domainname(false), "example.org/ir");
}

#[test]
fn configuration_defaults() {
    let c = Configuration::default();
    assert_eq!(c.source_directory, "Sources/");
    assert_eq!(c.download_directory, "downloads/");
}

#[test]
fn year_range_over_records() {
    let reports = vec![
        report("Acme", "EN", "AR", 2019, "a"),
        report("Acme", "DE", "AR", 2023, "b"),
        report("Acme", "EN", "FR", 2021, "c"),
    ];
    let c = Company::new(reports, None);
    assert_eq!(c.oldest_year, 2019);
    assert_eq!(c.newest_year, 2023);
    assert_eq!(c.reports.len(), 3);
    assert_eq!(c.metadata.name, "Acme");
    assert_eq!(c.metadata.country, "CH");
}

#[test]
fn empty_record_list_gives_the_sentinel_range() {
    let c = Company::new(Vec::new(), None);
    assert_eq!(c.oldest_year, u16::MAX);
    assert_eq!(c.newest_year, 0);
    assert_eq!(c.metadata.name, "");
}

#[test]
fn stored_metadata_is_kept() {
    let mut stored = CompanyMetadata::new("Acme");
    stored.country = "DE".to_string();
    stored.tags.push("SMI".to_string());
    let c = Company::new(vec![report("Acme", "EN", "AR", 2020, "a")], Some(stored));
    assert_eq!(c.metadata.country, "DE");
    assert_eq!(c.metadata.tags, vec!["SMI".to_string()]);
}

#[test]
fn warning_on_wrong_content_type() {
    let d = download(report("Acme", "EN", "AR", 2022, "a"), 50, "text/html");
    assert!(d.has_warning());
}

#[test]
fn no_warning_on_large_pdf() {
    let d = download(report("Acme", "EN", "AR", 2022, "a"), 50, "application/pdf");
    assert!(!d.has_warning());
}

#[test]
fn warning_on_small_file_regardless_of_type() {
    let d = download(report("Acme", "EN", "AR", 2022, "a"), 2, "application/pdf");
    assert!(d.has_warning());
    let d = download(report("Acme", "EN", "AR", 2022, "a"), 2, "text/html");
    assert!(d.has_warning());
}

#[test]
fn number_of_warnings_is_counted() {
    let cd = CompanyDownloads {
        company: Company::new(Vec::new(), None),
        downloads: vec![
            download(report("Acme", "EN", "AR", 2022, "a"), 50, "application/pdf"),
            download(report("Acme", "DE", "AR", 2022, "b"), 2, "application/pdf"),
            download(report("Acme", "EN", "AR", 2021, "c"), 50, "text/html"),
        ],
    };
    assert_eq!(cd.get_number_warnings(), 2);
}

#[test]
fn reports_are_selected_by_year_and_language() {
    let cd = CompanyDownloads {
        company: Company::new(Vec::new(), None),
        downloads: vec![
            download(report("Acme", "EN", "AR", 2022, "a"), 50, "application/pdf"),
            download(report("Acme", "DE", "AR", 2022, "b"), 50, "application/pdf"),
            download(report("Acme", "EN", "FR", 2022, "c"), 50, "application/pdf"),
            download(report("Acme", "EN", "AR", 2021, "d"), 50, "application/pdf"),
        ],
    };
    let picked = cd.get_reports(2022, "EN");
    assert_eq!(picked.len(), 2);
    assert_eq!(picked[0].report.link, "a");
    assert_eq!(picked[1].report.link, "c");
    assert!(cd.get_reports(2020, "EN").is_empty());
}

fn company_with_tags(name: &str, tags: &[&str]) -> CompanyDownloads {
    let mut metadata = CompanyMetadata::new(name);
    metadata.tags = tags.iter().map(|t| t.to_string()).collect();
    let c = Company::new(vec![report(name, "EN", "AR", 2022, "a")], Some(metadata));
    CompanyDownloads {
        company: c,
        downloads: Vec::new(),
    }
}

#[test]
fn filter_companies_selects_exactly_the_tagged_ones_in_order() {
    let companies = vec![
        company_with_tags("A", &["SMI"]),
        company_with_tags("B", &["SMIM"]),
        company_with_tags("C", &["Bank", "SMI"]),
        company_with_tags("D", &[]),
    ];
    let picked = filter_companies("SMI", &companies);
    assert_eq!(picked.len(), 2);
    assert_eq!(picked[0].company.metadata.name, "A");
    assert_eq!(picked[1].company.metadata.name, "C");
    // the match is exact: "SMI" does not match "SMIM"
    let picked = filter_companies("SMIM", &companies);
    assert_eq!(picked.len(), 1);
    assert_eq!(picked[0].company.metadata.name, "B");
}

#[test]
fn filter_companies_is_case_sensitive() {
    let companies = vec![company_with_tags("A", &["smi"])];
    assert!(filter_companies("SMI", &companies).is_empty());
}
