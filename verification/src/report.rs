//! What is shown of a report: one line of JSON for each outdated project,
//! a summary, and a notice of the installed packages that could not be
//! matched.

use crate::reconcile::{Report, Row, RowView};
use crate::text::{clone_strings, strings};
use vstd::prelude::*;

verus! {

/// The members of a JSON object whose values are texts, as plain values.
pub open spec fn text_members(members: Seq<(String, String)>) -> Seq<(Seq<char>, Seq<char>)> {
    members.map_values(|m: (String, String)| (m.0@, m.1@))
}

/// The members of a JSON object whose values are lists of texts, as plain
/// values.
pub open spec fn list_members(members: Seq<(String, Vec<String>)>) -> Seq<
    (Seq<char>, Seq<Seq<char>>),
> {
    members.map_values(|m: (String, Vec<String>)| (m.0@, strings(m.1@)))
}

/// The compact JSON text of an object with these members, as the `Display`
/// of `serde_json::Value` writes it: the members with a text for a value
/// are put in first, then the ones with a list of texts.
pub uninterp spec fn json_object_text(
    texts: Seq<(Seq<char>, Seq<char>)>,
    lists: Seq<(Seq<char>, Seq<Seq<char>>)>,
) -> Seq<char>;

/// The compact JSON text of an object with these members.
///
/// Makes a `serde_json::Map` of the members, each text a
/// `serde_json::Value::String` and each list a `serde_json::Value::Array` of
/// such, and writes it with the `Display` of `serde_json::Value`. The text
/// depends on the members alone; what it is, is left to `serde_json`.
#[verifier::external_body]
fn json_object(texts: &Vec<(String, String)>, lists: &Vec<(String, Vec<String>)>) -> (text: String)
    ensures
        text@ == json_object_text(text_members(texts@), list_members(lists@)),
{
    let object: serde_json::Map<String, serde_json::Value> = texts.iter().map(
        |(k, v)| (k.clone(), serde_json::Value::from(v.as_str())),
    ).chain(lists.iter().map(|(k, l)| (k.clone(), serde_json::Value::from(l.clone())))).collect();
    serde_json::Value::Object(object).to_string()
}

/// What stands for a latest version that upstream does not give.
pub open spec fn no_version() -> Seq<char> {
    "<none>"@
}

/// The members of the line of a row that are texts.
pub open spec fn row_texts(row: RowView) -> Seq<(Seq<char>, Seq<char>)> {
    seq![
        ("repology_name"@, row.repology_name),
        (
            "repology_version"@,
            match row.latest {
                Some(l) => l,
                None => no_version(),
            },
        ),
    ]
}

/// The members of the line of a row that are lists.
pub open spec fn row_lists(row: RowView) -> Seq<(Seq<char>, Seq<Seq<char>>)> {
    seq![("attribute"@, row.attributes), ("nixpkgs_version"@, row.versions)]
}

/// The line of a row: a JSON object with the project's name, the latest
/// version upstream, the installed versions and the matched attributes.
pub open spec fn row_line(row: RowView) -> Seq<char> {
    json_object_text(row_texts(row), row_lists(row))
}

/// The line that is shown for a row.
pub fn render_row(row: &Row) -> (line: String)
    ensures
        line@ == row_line(row@),
{
    let latest = match &row.latest {
        Some(l) => l.clone(),
        None => "<none>".to_owned(),
    };
    let mut texts: Vec<(String, String)> = Vec::new();
    texts.push(("repology_name".to_owned(), row.repology_name.clone()));
    texts.push(("repology_version".to_owned(), latest));
    let mut lists: Vec<(String, Vec<String>)> = Vec::new();
    lists.push(("attribute".to_owned(), clone_strings(row.attributes.as_vec())));
    lists.push(("nixpkgs_version".to_owned(), clone_strings(row.versions.as_vec())));
    proof {
        broadcast use crate::ordered::SortedSet::lemma_view;

        assert(text_members(texts@) =~= row_texts(row@));
        assert(strings(row.attributes.items()) =~= row@.attributes);
        assert(strings(row.versions.items()) =~= row@.versions);
        assert(list_members(lists@) =~= row_lists(row@));
    }
    json_object(&texts, &lists)
}

/// The lines for the rows of a report, in the order of the rows.
pub fn render_rows(report: &Report) -> (lines: Vec<String>)
    ensures
        lines@.len() == report@.outdated.len(),
        forall|j: int|
            0 <= j < lines@.len() ==> (#[trigger] lines@[j])@ == row_line(report@.outdated[j]),
{
    let mut lines: Vec<String> = Vec::new();
    let mut j: usize = 0;
    while j < report.outdated.len()
        invariant
            0 <= j <= report.outdated.len(),
            lines@.len() == j,
            forall|m: int|
                0 <= m < j ==> (#[trigger] lines@[m])@ == row_line(report@.outdated[m]),
        decreases report.outdated.len() - j,
    {
        let line = render_row(&report.outdated[j]);
        assert(report@.outdated[j as int] == report.outdated@[j as int]@);
        lines.push(line);
        j += 1;
    }
    lines
}

/// How many of the installed packages are outdated.
#[derive(Debug, PartialEq, Eq)]
pub struct Summary {
    /// The number of outdated projects.
    pub outdated: usize,
    /// The number of installed packages.
    pub installed: usize,
}

/// The summary of a report on `installed` packages: there is one only if
/// some project is outdated.
pub fn summary(report: &Report, installed: usize) -> (s: Option<Summary>)
    ensures
        report@.outdated.len() == 0 ==> s is None,
        report@.outdated.len() > 0 ==> s == Some(
            Summary { outdated: report@.outdated.len() as usize, installed },
        ),
{
    let outdated = report.outdated.len();
    if outdated > 0 {
        Some(Summary { outdated, installed })
    } else {
        None
    }
}

/// What is said of the installed packages that no available package
/// matches.
#[derive(Debug, PartialEq, Eq)]
pub enum Notice {
    /// Nothing.
    Nothing,
    /// How many there are.
    Count(usize),
    /// Their names, in ascending order.
    Names(Vec<String>),
}

/// What is said of the installed packages that no available package
/// matches: all their names where much is to be told; else their number, if
/// there are any.
pub fn missing_notice(report: &Report, verbose: bool) -> (notice: Notice)
    ensures
        verbose ==> (notice matches Notice::Names(names) && strings(names@)
            == report@.missing_available),
        !verbose && report@.missing_available.len() > 0 ==> notice == Notice::Count(
            report@.missing_available.len() as usize,
        ),
        !verbose && report@.missing_available.len() == 0 ==> notice == Notice::Nothing,
{
    if verbose {
        let names = clone_strings(report.missing_available.as_vec());
        proof {
            broadcast use crate::ordered::SortedList::lemma_view;

            assert(strings(report.missing_available.items()) =~= report@.missing_available);
        }
        Notice::Names(names)
    } else if !report.missing_available.is_empty() {
        Notice::Count(report.missing_available.len())
    } else {
        Notice::Nothing
    }
}

} // verus!
