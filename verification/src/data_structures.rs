//! The data model: document records, downloaded artifacts, company
//! summaries with their metadata, and the pure queries over them
//! (display names, canonical file paths, warning detection, tag filters).

use vstd::prelude::*;

use crate::text::{dec_digits, replace, replace_chars, str_eq, u16_to_string};

verus! {

/// Where catalogs are read from and where downloads are materialized.
#[derive(Debug)]
pub struct Configuration {
    pub source_directory: String,
    pub download_directory: String,
}

impl Default for Configuration {
    /// The stock directories used when no others are given.
    fn default() -> (r: Configuration)
        ensures
            r.source_directory@ == "Sources/"@,
            r.download_directory@ == "downloads/"@,
    {
        Configuration {
            source_directory: "Sources/".to_owned(),
            download_directory: "downloads/".to_owned(),
        }
    }
}

/// The languages a document may be published in.
#[derive(Debug, Clone, Copy, PartialEq, Eq, Structural)]
pub enum Language {
    EN,
    DE,
    FR,
    IT,
}

/// The display name of a document-type code; an unknown code is shown as
/// itself.
pub open spec fn spec_document_name(abb: Seq<char>) -> Seq<char> {
    if abb == "AR"@ {
        "Annual report"@
    } else if abb == "FR"@ {
        "Financial report"@
    } else if abb == "SR"@ {
        "Sustainability report"@
    } else if abb == "CG"@ {
        "Corporate Governance"@
    } else if abb == "RS"@ {
        "Annual Results"@
    } else if abb == "CR"@ {
        "Compensation Report"@
    } else if abb == "ST"@ {
        "Strategy Report"@
    } else if abb == "AD"@ {
        "Addendum"@
    } else if abb == "AM"@ {
        "Annual Meeting Minutes"@
    } else if abb == "RR"@ {
        "Risk Report"@
    } else if abb == "RV"@ {
        "Review"@
    } else if abb == "PS"@ {
        "Proxy Statement"@
    } else if abb == "10K"@ {
        "SEC Form 10-K"@
    } else if abb == "20F"@ {
        "SEC Form 20-F"@
    } else if abb == "GRI"@ {
        "GRI Sustainability Reporting Standard"@
    } else {
        abb
    }
}

/// Maps a document-type code to its display name.
pub fn get_document_name<'a>(abb: &'a str) -> (r: &'a str)
    ensures
        r@ == spec_document_name(abb@),
{
    if str_eq(abb, "AR") {
        "Annual report"
    } else if str_eq(abb, "FR") {
        "Financial report"
    } else if str_eq(abb, "SR") {
        "Sustainability report"
    } else if str_eq(abb, "CG") {
        "Corporate Governance"
    } else if str_eq(abb, "RS") {
        "Annual Results"
    } else if str_eq(abb, "CR") {
        "Compensation Report"
    } else if str_eq(abb, "ST") {
        "Strategy Report"
    } else if str_eq(abb, "AD") {
        "Addendum"
    } else if str_eq(abb, "AM") {
        "Annual Meeting Minutes"
    } else if str_eq(abb, "RR") {
        "Risk Report"
    } else if str_eq(abb, "RV") {
        "Review"
    } else if str_eq(abb, "PS") {
        "Proxy Statement"
    } else if str_eq(abb, "10K") {
        "SEC Form 10-K"
    } else if str_eq(abb, "20F") {
        "SEC Form 20-F"
    } else if str_eq(abb, "GRI") {
        "GRI Sustainability Reporting Standard"
    } else {
        abb
    }
}

/// The display name of a language code; unknown codes have an empty name.
pub open spec fn spec_language_name(language: Seq<char>) -> Seq<char> {
    if language == "EN"@ {
        "English"@
    } else if language == "DE"@ {
        "Deutsch"@
    } else if language == "FR"@ {
        "Français"@
    } else if language == "IT"@ {
        "Italiano"@
    } else {
        ""@
    }
}

/// Maps a language code to its display name.
pub fn get_language<'a>(language: &'a str) -> (r: &'a str)
    ensures
        r@ == spec_language_name(language@),
{
    if str_eq(language, "EN") {
        "English"
    } else if str_eq(language, "DE") {
        "Deutsch"
    } else if str_eq(language, "FR") {
        "Français"
    } else if str_eq(language, "IT") {
        "Italiano"
    } else {
        ""
    }
}

/// One parsed catalog row: a document to fetch.
#[derive(Debug)]
pub struct Report {
    pub company: String,
    pub language: String,
    pub report_type: String,
    pub year: u16,
    pub link: String,
}

impl Clone for Report {
    fn clone(&self) -> (r: Self)
        ensures
            r == *self,
    {
        Report {
            company: self.company.clone(),
            language: self.language.clone(),
            report_type: self.report_type.clone(),
            year: self.year,
            link: self.link.clone(),
        }
    }
}

/// The canonical destination path of a record:
/// `{root}/{company}/{year}/{type}-{language}.pdf`.
pub open spec fn spec_file_path(root: Seq<char>, report: Report) -> Seq<char> {
    root + "/"@ + report.company@ + "/"@ + dec_digits(report.year as nat) + "/"@
        + report.report_type@ + "-"@ + report.language@ + ".pdf"@
}

impl Report {
    /// Computes the canonical destination path under `root_path`. Distinct
    /// records of one company collide only if they share year, type and
    /// language.
    pub fn get_file_path(&self, root_path: &str) -> (r: String)
        ensures
            r@ == spec_file_path(root_path@, *self),
    {
        let mut p = root_path.to_owned();
        p.append("/");
        p.append(self.company.as_str());
        p.append("/");
        let year = u16_to_string(self.year);
        p.append(year.as_str());
        p.append("/");
        p.append(self.report_type.as_str());
        p.append("-");
        p.append(self.language.as_str());
        p.append(".pdf");
        proof {
            assert(p@ =~= spec_file_path(root_path@, *self));
        }
        p
    }
}

/// The per-company side data: origin, tags, links and accounting details.
#[derive(Debug)]
pub struct CompanyMetadata {
    pub name: String,
    pub country: String,
    pub tags: Vec<String>,
    pub comment: String,
    pub links: Vec<String>,
    pub annual_closing_date: String,
    pub accounting_rules: String,
    pub legal_form: String,
    pub url: String,
    pub email: String,
    pub share_class: String,
}

/// Copies a vector of strings element by element.
fn clone_string_vec(v: &Vec<String>) -> (r: Vec<String>)
    ensures
        r@ == v@,
{
    let mut r: Vec<String> = Vec::new();
    let mut i: usize = 0;
    while i < v.len()
        invariant
            i <= v@.len(),
            r@ =~= v@.take(i as int),
        decreases v@.len() - i,
    {
        r.push(v[i].clone());
        i = i + 1;
    }
    proof {
        assert(v@.take(v@.len() as int) =~= v@);
    }
    r
}

impl Clone for CompanyMetadata {
    /// The clone carries the same field values (the vectors the same
    /// elements).
    fn clone(&self) -> (r: Self)
        ensures
            r.name == self.name,
            r.country == self.country,
            r.tags@ == self.tags@,
            r.comment == self.comment,
            r.links@ == self.links@,
            r.annual_closing_date == self.annual_closing_date,
            r.accounting_rules == self.accounting_rules,
            r.legal_form == self.legal_form,
            r.url == self.url,
            r.email == self.email,
            r.share_class == self.share_class,
    {
        let tags = clone_string_vec(&self.tags);
        let links = clone_string_vec(&self.links);
        CompanyMetadata {
            name: self.name.clone(),
            country: self.country.clone(),
            tags,
            comment: self.comment.clone(),
            links,
            annual_closing_date: self.annual_closing_date.clone(),
            accounting_rules: self.accounting_rules.clone(),
            legal_form: self.legal_form.clone(),
            url: self.url.clone(),
            email: self.email.clone(),
            share_class: self.share_class.clone(),
        }
    }
}

/// The default metadata a company gets on first encounter.
pub open spec fn spec_default_metadata(m: CompanyMetadata, name: Seq<char>) -> bool {
    &&& m.name@ == name
    &&& m.country@ == "CH"@
    &&& m.tags@.len() == 0
    &&& m.comment@ == ""@
    &&& m.links@.len() == 0
    &&& m.annual_closing_date@ == "31.12"@
    &&& m.accounting_rules@ == "IFRS"@
    &&& m.legal_form@ == "AG"@
    &&& m.url@ == ""@
    &&& m.email@ == ""@
    &&& m.share_class@ == "RS"@
}

/// The domain name left when the scheme (and optionally a leading `www.`)
/// is stripped from a URL by textual replacement.
pub open spec fn spec_domainname(url: Seq<char>, remove_www: bool) -> Seq<char> {
    let d = replace_chars(replace_chars(url, "https://"@, ""@), "http://"@, ""@);
    if remove_www {
        replace_chars(d, "www."@, ""@)
    } else {
        d
    }
}

impl CompanyMetadata {
    /// Fresh default metadata for a newly seen company.
    pub fn new(name: &str) -> (r: CompanyMetadata)
        ensures
            spec_default_metadata(r, name@),
    {
        CompanyMetadata {
            name: name.to_owned(),
            country: "CH".to_owned(),
            tags: Vec::new(),
            comment: "".to_owned(),
            links: Vec::new(),
            annual_closing_date: "31.12".to_owned(),
            accounting_rules: "IFRS".to_owned(),
            legal_form: "AG".to_owned(),
            url: "".to_owned(),
            email: "".to_owned(),
            share_class: "RS".to_owned(),
        }
    }

    /// The company's domain name, from its URL.
    pub fn get_domainname(&self, remove_www: bool) -> (r: String)
        ensures
            r@ == spec_domainname(self.url@, remove_www),
    {
        proof {
            reveal_strlit("https://");
            reveal_strlit("http://");
            reveal_strlit("www.");
        }
        let d = replace(self.url.as_str(), "https://", "");
        let d = replace(d.as_str(), "http://", "");
        if remove_www {
            replace(d.as_str(), "www.", "")
        } else {
            d
        }
    }
}

/// One materialized document: the record it came from plus the size (in
/// kilobytes) and content type observed on disk.
#[derive(Debug)]
pub struct Download {
    pub report: Report,
    pub size: u64,
    pub mime_type: String,
}

impl Clone for Download {
    fn clone(&self) -> (r: Self)
        ensures
            r == *self,
    {
        Download {
            report: self.report.clone(),
            size: self.size,
            mime_type: self.mime_type.clone(),
        }
    }
}

/// An artifact looks anomalous when its content type is not the expected
/// `application/pdf` or it is implausibly small (under 10 kilobytes).
pub open spec fn spec_has_warning(d: Download) -> bool {
    d.mime_type@ != "application/pdf"@ || d.size < 10
}

impl Download {
    /// Flags a likely-broken download for manual review.
    pub fn has_warning(&self) -> (r: bool)
        ensures
            r == spec_has_warning(*self),
    {
        !str_eq(self.mime_type.as_str(), "application/pdf") || self.size < 10
    }
}

/// The largest year among the records, `0` when there are none (the
/// sentinel half of an undefined range).
pub open spec fn spec_newest_year(s: Seq<Report>) -> u16
    decreases s.len(),
{
    if s.len() == 0 {
        0u16
    } else {
        let rest = spec_newest_year(s.drop_last());
        if s.last().year > rest {
            s.last().year
        } else {
            rest
        }
    }
}

/// The smallest year among the records, `u16::MAX` when there are none (the
/// sentinel half of an undefined range).
pub open spec fn spec_oldest_year(s: Seq<Report>) -> u16
    decreases s.len(),
{
    if s.len() == 0 {
        u16::MAX
    } else {
        let rest = spec_oldest_year(s.drop_last());
        if s.last().year < rest {
            s.last().year
        } else {
            rest
        }
    }
}

/// The company name a catalog's summary carries: the first record's, or
/// empty for an empty catalog.
pub open spec fn spec_company_name(s: Seq<Report>) -> Seq<char> {
    if s.len() > 0 {
        s[0].company@
    } else {
        Seq::empty()
    }
}

/// For a non-empty record list the year range is the min and max of the
/// years: both bounds hold of every record and both are attained.
pub proof fn lemma_year_range(s: Seq<Report>)
    requires
        s.len() > 0,
    ensures
        spec_oldest_year(s) <= spec_newest_year(s),
        forall|i: int|
            0 <= i < s.len() ==> spec_oldest_year(s) <= #[trigger] s[i].year
                && s[i].year <= spec_newest_year(s),
        exists|i: int| 0 <= i < s.len() && s[i].year == spec_oldest_year(s),
        exists|i: int| 0 <= i < s.len() && s[i].year == spec_newest_year(s),
    decreases s.len(),
{
    if s.len() == 1 {
        assert(s.drop_last().len() == 0);
        assert(spec_oldest_year(s.drop_last()) == u16::MAX);
        assert(spec_newest_year(s.drop_last()) == 0);
        assert(s[0] == s.last());
        assert(s[0].year == spec_oldest_year(s));
        assert(s[0].year == spec_newest_year(s));
    } else {
        lemma_year_range(s.drop_last());
        let rest = s.drop_last();
        assert(forall|i: int| 0 <= i < rest.len() ==> rest[i] == s[i]);
        let j = choose|j: int| 0 <= j < rest.len() && rest[j].year == spec_oldest_year(rest);
        let k = choose|k: int| 0 <= k < rest.len() && rest[k].year == spec_newest_year(rest);
        if s.last().year < spec_oldest_year(rest) {
            assert(s[s.len() - 1].year == spec_oldest_year(s));
        } else {
            assert(s[j].year == spec_oldest_year(s));
        }
        if s.last().year > spec_newest_year(rest) {
            assert(s[s.len() - 1].year == spec_newest_year(s));
        } else {
            assert(s[k].year == spec_newest_year(s));
        }
    }
}

/// One company's aggregated view: its metadata, the records that survived
/// fetching, and the derived year range.
#[derive(Debug)]
pub struct Company {
    pub metadata: CompanyMetadata,
    pub reports: Vec<Report>,
    pub oldest_year: u16,
    pub newest_year: u16,
}

impl Company {
    /// Builds the summary of one catalog from its surviving records. The
    /// name is the first record's (a catalog is assumed single-company);
    /// `stored` is the metadata found in the side store, or `None` when the
    /// company is new, in which case defaults are attached.
    pub fn new(reports: Vec<Report>, stored: Option<CompanyMetadata>) -> (r: Company)
        ensures
            r.reports@ == reports@,
            r.oldest_year == spec_oldest_year(reports@),
            r.newest_year == spec_newest_year(reports@),
            reports@.len() > 0 ==> r.oldest_year <= r.newest_year,
            stored is Some ==> r.metadata == stored->Some_0,
            stored is None ==> spec_default_metadata(r.metadata, spec_company_name(reports@)),
    {
        let name: String = if reports.len() > 0 {
            reports[0].company.clone()
        } else {
            String::new()
        };
        let mut newest_year: u16 = 0;
        let mut oldest_year: u16 = u16::MAX;
        let mut i: usize = 0;
        proof {
            assert(reports@.take(0) =~= Seq::<Report>::empty());
        }
        while i < reports.len()
            invariant
                i <= reports@.len(),
                newest_year == spec_newest_year(reports@.take(i as int)),
                oldest_year == spec_oldest_year(reports@.take(i as int)),
            decreases reports@.len() - i,
        {
            proof {
                assert(reports@.take(i + 1).drop_last() =~= reports@.take(i as int));
                assert(reports@.take(i + 1).last() == reports@[i as int]);
            }
            if reports[i].year > newest_year {
                newest_year = reports[i].year;
            }
            if reports[i].year < oldest_year {
                oldest_year = reports[i].year;
            }
            i = i + 1;
        }
        proof {
            assert(reports@.take(reports@.len() as int) =~= reports@);
            if reports@.len() > 0 {
                lemma_year_range(reports@);
            }
        }
        let metadata = match stored {
            Some(m) => m,
            None => CompanyMetadata::new(name.as_str()),
        };
        Company { metadata, reports, oldest_year, newest_year }
    }
}

/// A company summary paired with the artifacts fetched for it.
pub struct CompanyDownloads {
    pub company: Company,
    pub downloads: Vec<Download>,
}

impl CompanyDownloads {
    /// How many of the artifacts look anomalous.
    pub fn get_number_warnings(&self) -> (r: usize)
        ensures
            r == self.downloads@.filter(|d: Download| spec_has_warning(d)).len(),
    {
        let mut count: usize = 0;
        let mut i: usize = 0;
        proof {
            assert(self.downloads@.take(0) =~= Seq::<Download>::empty());
            reveal(Seq::filter);
        }
        while i < self.downloads.len()
            invariant
                i <= self.downloads@.len(),
                count == self.downloads@.take(i as int).filter(
                    |d: Download| spec_has_warning(d),
                ).len(),
                count <= i,
            decreases self.downloads@.len() - i,
        {
            proof {
                reveal(Seq::filter);
                assert(self.downloads@.take(i + 1).drop_last() =~= self.downloads@.take(i as int));
                assert(self.downloads@.take(i + 1).last() == self.downloads@[i as int]);
            }
            if self.downloads[i].has_warning() {
                count = count + 1;
            }
            i = i + 1;
        }
        proof {
            assert(self.downloads@.take(self.downloads@.len() as int) =~= self.downloads@);
        }
        count
    }

    /// The artifacts of one year in one language, in input order.
    pub fn get_reports(&self, year: u16, language: &str) -> (r: Vec<&Download>)
        ensures
            r@.map_values(|d: &Download| *d) == self.downloads@.filter(
                |d: Download| d.report.year == year && d.report.language@ == language@,
            ),
    {
        let ghost pred = |d: Download| d.report.year == year && d.report.language@ == language@;
        let mut r: Vec<&Download> = Vec::new();
        let mut i: usize = 0;
        proof {
            assert(self.downloads@.take(0) =~= Seq::<Download>::empty());
            reveal(Seq::filter);
            assert(r@.map_values(|d: &Download| *d) =~= self.downloads@.take(0).filter(pred));
        }
        while i < self.downloads.len()
            invariant
                i <= self.downloads@.len(),
                r@.map_values(|d: &Download| *d) == self.downloads@.take(i as int).filter(pred),
                pred == (|d: Download| d.report.year == year && d.report.language@ == language@),
            decreases self.downloads@.len() - i,
        {
            proof {
                reveal(Seq::filter);
                assert(self.downloads@.take(i + 1).drop_last() =~= self.downloads@.take(i as int));
                assert(self.downloads@.take(i + 1).last() == self.downloads@[i as int]);
            }
            let d = &self.downloads[i];
            if d.report.year == year && str_eq(d.report.language.as_str(), language) {
                r.push(d);
                proof {
                    assert(r@.map_values(|d: &Download| *d) =~= r@.drop_last().map_values(
                        |d: &Download| *d,
                    ).push(self.downloads@[i as int]));
                }
            }
            i = i + 1;
        }
        proof {
            assert(self.downloads@.take(self.downloads@.len() as int) =~= self.downloads@);
        }
        r
    }
}

/// Whether the metadata's tag list contains exactly `tag`.
pub open spec fn spec_has_tag(m: CompanyMetadata, tag: Seq<char>) -> bool {
    exists|j: int| 0 <= j < m.tags@.len() && m.tags@[j]@ == tag
}

/// Tests whether a company's tag list contains `tag` (case-sensitive).
pub fn has_tag(metadata: &CompanyMetadata, tag: &str) -> (r: bool)
    ensures
        r == spec_has_tag(*metadata, tag@),
{
    let mut j: usize = 0;
    while j < metadata.tags.len()
        invariant
            j <= metadata.tags@.len(),
            forall|k: int| 0 <= k < j ==> metadata.tags@[k]@ != tag@,
        decreases metadata.tags@.len() - j,
    {
        if str_eq(metadata.tags[j].as_str(), tag) {
            return true;
        }
        j = j + 1;
    }
    false
}

/// Selects exactly the companies whose metadata tags contain `tag`,
/// preserving input order.
pub fn filter_companies<'a>(tag: &str, companies: &'a [CompanyDownloads]) -> (r: Vec<
    &'a CompanyDownloads,
>)
    ensures
        r@.map_values(|c: &CompanyDownloads| *c) == companies@.filter(
            |c: CompanyDownloads| spec_has_tag(c.company.metadata, tag@),
        ),
{
    let ghost pred = |c: CompanyDownloads| spec_has_tag(c.company.metadata, tag@);
    let mut r: Vec<&CompanyDownloads> = Vec::new();
    let mut i: usize = 0;
    proof {
        assert(companies@.take(0) =~= Seq::<CompanyDownloads>::empty());
        reveal(Seq::filter);
        assert(r@.map_values(|c: &CompanyDownloads| *c) =~= companies@.take(0).filter(pred));
    }
    while i < companies.len()
        invariant
            i <= companies@.len(),
            r@.map_values(|c: &CompanyDownloads| *c) == companies@.take(i as int).filter(pred),
            pred == (|c: CompanyDownloads| spec_has_tag(c.company.metadata, tag@)),
        decreases companies@.len() - i,
    {
        proof {
            reveal(Seq::filter);
            assert(companies@.take(i + 1).drop_last() =~= companies@.take(i as int));
            assert(companies@.take(i + 1).last() == companies@[i as int]);
        }
        let c = &companies[i];
        if has_tag(&c.company.metadata, tag) {
            r.push(c);
            proof {
                assert(r@.map_values(|c: &CompanyDownloads| *c) =~= r@.drop_last().map_values(
                    |c: &CompanyDownloads| *c,
                ).push(companies@[i as int]));
            }
        }
        i = i + 1;
    }
    proof {
        assert(companies@.take(companies@.len() as int) =~= companies@);
    }
    r
}

} // verus!
