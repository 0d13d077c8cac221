//! The join of the three datasets: which upstream projects have an installed
//! package that is behind the latest version, and which packages could not
//! be matched at all.

use crate::available;
use crate::installed;
use crate::ordered::{
    ascending, lemma_ascending_unique, lemma_nondescending_unique, nondescending, Order, Ordered,
    SortedList, SortedSet,
};
use crate::repology;
use crate::tally::{first_facts, lags, more_facts, FactsView, Tally};
use crate::text::{clone_opt, compare_str, lemma_str_lt_order, opt_view, str_lt};
use vstd::prelude::*;

verus! {

/// The three datasets, each in the order in which it is walked.
pub struct Datasets {
    pub installed: Seq<installed::PackageView>,
    pub available: Seq<available::PackageView>,
    pub upstream: Seq<repology::PackageView>,
}

/// The places of an installed package, an available package and an upstream
/// package in their datasets.
pub struct Hit {
    pub i: int,
    pub a: int,
    pub u: int,
}

/// The order in which the join meets the triples: by installed package, then
/// by available package, then by upstream package.
pub open spec fn hit_lt(h: Hit, g: Hit) -> bool {
    h.i < g.i || (h.i == g.i && (h.a < g.a || (h.a == g.a && h.u < g.u)))
}

/// The three packages at `h` belong together: the installed and the available
/// package have the same name, and the available package is of the project
/// that the upstream package names.
pub open spec fn is_hit(d: Datasets, h: Hit) -> bool {
    &&& 0 <= h.i < d.installed.len()
    &&& 0 <= h.a < d.available.len()
    &&& 0 <= h.u < d.upstream.len()
    &&& d.installed[h.i].name == d.available[h.a].name
    &&& d.available[h.a].pname == d.upstream[h.u].name
}

/// `h` is a hit for the upstream project `k`.
pub open spec fn hit_of(d: Datasets, k: Seq<char>, h: Hit) -> bool {
    is_hit(d, h) && d.upstream[h.u].repology_name == k
}

/// Some installed package belongs to the upstream project `k`.
pub open spec fn is_known(d: Datasets, k: Seq<char>) -> bool {
    exists|h: Hit| hit_of(d, k, h)
}

/// `v` is the version of an installed package of the project `k`.
pub open spec fn has_version(d: Datasets, k: Seq<char>, v: Seq<char>) -> bool {
    exists|h: Hit| #[trigger] hit_of(d, k, h) && d.installed[h.i].version == v
}

/// `at` is the attribute of an available package that matched for the project `k`.
pub open spec fn has_attribute(d: Datasets, k: Seq<char>, at: Seq<char>) -> bool {
    exists|h: Hit| #[trigger] hit_of(d, k, h) && d.available[h.a].attribute == at
}

/// `h` is the hit for `k` that the join meets first.
pub open spec fn first_hit(d: Datasets, k: Seq<char>, h: Hit) -> bool {
    hit_of(d, k, h) && forall|g: Hit| #[trigger] hit_of(d, k, g) ==> !hit_lt(g, h)
}

/// The latest version that upstream gives for the project `k`: that of the
/// upstream package of the first hit.
pub open spec fn latest_of(d: Datasets, k: Seq<char>) -> Option<Seq<char>> {
    d.upstream[(choose|h: Hit| first_hit(d, k, h)).u].latest
}

/// The project `k` is outdated: upstream gives a latest version for it, and
/// no installed package of the project has that version.
pub open spec fn is_outdated(d: Datasets, k: Seq<char>) -> bool {
    is_known(d, k) && match latest_of(d, k) {
        Some(l) => !has_version(d, k, l),
        None => false,
    }
}

/// Some available package has the name `name`.
pub open spec fn available_has(d: Datasets, name: Seq<char>) -> bool {
    exists|a: int| 0 <= a < d.available.len() && #[trigger] d.available[a].name == name
}

/// Some upstream package is of the project that the repository calls `pname`.
pub open spec fn upstream_has(d: Datasets, pname: Seq<char>) -> bool {
    exists|u: int| 0 <= u < d.upstream.len() && #[trigger] d.upstream[u].name == pname
}

/// Tells the installed packages that no available package matches.
pub open spec fn is_unavailable(d: Datasets) -> spec_fn(installed::PackageView) -> bool {
    |lp: installed::PackageView| !available_has(d, lp.name)
}

/// Takes the name of an installed package.
pub open spec fn name_of() -> spec_fn(installed::PackageView) -> Seq<char> {
    |lp: installed::PackageView| lp.name
}

/// The names of the installed packages that no available package matches,
/// one for each such package, in the order of the installed packages.
pub open spec fn unavailable(d: Datasets) -> Seq<Seq<char>> {
    d.installed.filter(is_unavailable(d)).map_values(name_of())
}

/// Tells the available packages that match `lp` and whose project upstream
/// does not list.
pub open spec fn is_untracked(d: Datasets, lp: installed::PackageView) -> spec_fn(
    available::PackageView,
) -> bool {
    |ap: available::PackageView| ap.name == lp.name && !upstream_has(d, ap.pname)
}

/// Pairs the project name of an available package with the name of `lp`.
pub open spec fn paired_with(lp: installed::PackageView) -> spec_fn(available::PackageView) -> (
    Seq<char>,
    Seq<char>,
) {
    |ap: available::PackageView| (ap.pname, lp.name)
}

/// For the installed package `lp`: the project name of each available package
/// that matches it and whose project upstream does not list, with the name of
/// `lp`.
pub open spec fn untracked_of(d: Datasets, lp: installed::PackageView) -> Seq<
    (Seq<char>, Seq<char>),
> {
    d.available.filter(is_untracked(d, lp)).map_values(paired_with(lp))
}

/// Gives `untracked_of` for an installed package.
pub open spec fn untracked_for(d: Datasets) -> spec_fn(installed::PackageView) -> Seq<
    (Seq<char>, Seq<char>),
> {
    |lp: installed::PackageView| untracked_of(d, lp)
}

/// `untracked_of` for every installed package, one after the other.
pub open spec fn untracked(d: Datasets) -> Seq<(Seq<char>, Seq<char>)> {
    d.installed.map_values(untracked_for(d)).flatten()
}

/// An available package that matches an installed one, and whose project
/// upstream does not list.
#[derive(Debug, PartialEq, Eq)]
pub struct Unmatched {
    /// The name of the project in the repository.
    pub pname: String,
    /// The name of the installed package.
    pub name: String,
}

impl View for Unmatched {
    type V = (Seq<char>, Seq<char>);

    open spec fn view(&self) -> (Seq<char>, Seq<char>) {
        (self.pname@, self.name@)
    }
}

impl Ordered for Unmatched {
    type Key = (Seq<char>, Seq<char>);

    open spec fn key(&self) -> (Seq<char>, Seq<char>) {
        self@
    }

    /// By project name, then by the installed package's name.
    open spec fn key_lt(a: (Seq<char>, Seq<char>), b: (Seq<char>, Seq<char>)) -> bool {
        str_lt(a.0, b.0) || (a.0 == b.0 && str_lt(a.1, b.1))
    }

    proof fn lemma_order(
        a: (Seq<char>, Seq<char>),
        b: (Seq<char>, Seq<char>),
        c: (Seq<char>, Seq<char>),
    ) {
        lemma_str_lt_order(a.0, b.0, c.0);
        lemma_str_lt_order(a.1, b.1, c.1);
    }

    fn compare(&self, other: &Self) -> (o: Order) {
        match compare_str(self.pname.as_str(), other.pname.as_str()) {
            Order::Same => compare_str(self.name.as_str(), other.name.as_str()),
            o => o,
        }
    }
}

/// What the join has found for one upstream project.
#[derive(Debug, PartialEq, Eq)]
pub struct Row {
    /// The name of the project upstream.
    pub repology_name: String,
    /// The latest version that upstream gives.
    pub latest: Option<String>,
    /// The versions of the installed packages of the project.
    pub versions: SortedSet<String>,
    /// The attributes of the available packages that matched.
    pub attributes: SortedSet<String>,
}

/// What a `Row` holds.
pub struct RowView {
    pub repology_name: Seq<char>,
    pub latest: Option<Seq<char>>,
    pub versions: Seq<Seq<char>>,
    pub attributes: Seq<Seq<char>>,
}

impl View for Row {
    type V = RowView;

    open spec fn view(&self) -> RowView {
        RowView {
            repology_name: self.repology_name@,
            latest: opt_view(self.latest),
            versions: self.versions@,
            attributes: self.attributes@,
        }
    }
}

/// The outcome of the join.
#[derive(Debug, PartialEq, Eq)]
pub struct Report {
    /// The outdated projects, in ascending order of their names.
    pub outdated: Vec<Row>,
    /// The names of the installed packages that no available package
    /// matches, in ascending order.
    pub missing_available: SortedList<String>,
    /// The matches whose project upstream does not list, in ascending order.
    pub missing_repology: SortedList<Unmatched>,
}

/// What a `Report` holds.
pub struct ReportView {
    pub outdated: Seq<RowView>,
    pub missing_available: Seq<Seq<char>>,
    pub missing_repology: Seq<(Seq<char>, Seq<char>)>,
}

impl View for Report {
    type V = ReportView;

    open spec fn view(&self) -> ReportView {
        ReportView {
            outdated: self.outdated@.map_values(|r: Row| r@),
            missing_available: self.missing_available@,
            missing_repology: self.missing_repology@,
        }
    }
}

/// `row` says of its project what the datasets hold: the latest version
/// upstream, every installed version once, and every matched attribute once,
/// both in ascending order.
pub open spec fn row_of(d: Datasets, row: RowView) -> bool {
    &&& row.latest == latest_of(d, row.repology_name)
    &&& ascending::<String>(row.versions)
    &&& forall|v: Seq<char>| #[trigger]
        row.versions.contains(v) <==> has_version(d, row.repology_name, v)
    &&& ascending::<String>(row.attributes)
    &&& forall|at: Seq<char>| #[trigger]
        row.attributes.contains(at) <==> has_attribute(d, row.repology_name, at)
}

/// Some row of `rows` is about the project `k`.
pub open spec fn has_row(rows: Seq<RowView>, k: Seq<char>) -> bool {
    exists|j: int| 0 <= j < rows.len() && #[trigger] rows[j].repology_name == k
}

/// Each row's project comes strictly before those of all later rows.
pub open spec fn rows_ascending(rows: Seq<RowView>) -> bool {
    forall|i: int, j: int|
        0 <= i < j < rows.len() ==> str_lt(
            (#[trigger] rows[i]).repology_name,
            (#[trigger] rows[j]).repology_name,
        )
}

/// `r` is the report for the datasets `d`.
pub open spec fn reconciles(d: Datasets, r: ReportView) -> bool {
    &&& rows_ascending(r.outdated)
    &&& forall|k: Seq<char>| #[trigger] has_row(r.outdated, k) <==> is_outdated(d, k)
    &&& forall|j: int| 0 <= j < r.outdated.len() ==> row_of(d, #[trigger] r.outdated[j])
    &&& nondescending::<String>(r.missing_available)
    &&& r.missing_available.to_multiset() == unavailable(d).to_multiset()
    &&& nondescending::<Unmatched>(r.missing_repology)
    &&& r.missing_repology.to_multiset() == untracked(d).to_multiset()
}

/// Upstream gives a latest version for the row's project, and the row's
/// versions do not hold it.
pub open spec fn is_behind(row: RowView) -> bool {
    match row.latest {
        Some(l) => !row.versions.contains(l),
        None => false,
    }
}

/// The names of the projects of rows.
pub open spec fn row_names(rows: Seq<RowView>) -> Seq<Seq<char>> {
    rows.map_values(|row: RowView| row.repology_name)
}

/// A project is reported only when upstream gives a latest version for it
/// and no installed package of the project has that version.
pub proof fn lemma_rows_are_behind(d: Datasets, r: ReportView)
    requires
        reconciles(d, r),
    ensures
        forall|j: int| 0 <= j < r.outdated.len() ==> is_behind(#[trigger] r.outdated[j]),
{
    assert forall|j: int| 0 <= j < r.outdated.len() implies is_behind(#[trigger] r.outdated[j]) by {
        let row = r.outdated[j];
        let k = row.repology_name;
        assert(has_row(r.outdated, k));
        assert(is_outdated(d, k));
        assert(row_of(d, row));
        match row.latest {
            Some(l) => {
                assert(row.versions.contains(l) <==> has_version(d, k, l));
            },
            None => {},
        }
    }
}

/// Some installed package has the name `name`.
pub open spec fn installed_has(d: Datasets, name: Seq<char>) -> bool {
    exists|i: int| 0 <= i < d.installed.len() && #[trigger] d.installed[i].name == name
}

/// A name is listed as missing from the available packages if and only if
/// an installed package has that name and no available package has it.
pub proof fn lemma_missing_available(d: Datasets, r: ReportView, name: Seq<char>)
    requires
        reconciles(d, r),
    ensures
        r.missing_available.contains(name) <==> installed_has(d, name) && !available_has(d, name),
{
    let kept = d.installed.filter(is_unavailable(d));
    vstd::seq_lib::to_multiset_contains(r.missing_available, name);
    vstd::seq_lib::to_multiset_contains(unavailable(d), name);
    if unavailable(d).contains(name) {
        let j = choose|j: int| 0 <= j < unavailable(d).len() && unavailable(d)[j] == name;
        d.installed.lemma_filter_pred(is_unavailable(d), j);
        assert(kept[j].name == name);
        assert(kept.contains(kept[j]));
        d.installed.lemma_filter_contains_rev(is_unavailable(d), kept[j]);
        let i = choose|i: int| 0 <= i < d.installed.len() && d.installed[i] == kept[j];
        assert(d.installed[i].name == name);
    }
    if installed_has(d, name) && !available_has(d, name) {
        let i = choose|i: int| 0 <= i < d.installed.len() && #[trigger] d.installed[i].name == name;
        let lp = d.installed[i];
        d.installed.lemma_filter_contains(is_unavailable(d), i);
        let j = choose|j: int| 0 <= j < kept.len() && kept[j] == lp;
        assert(unavailable(d)[j] == name);
    }
}

/// The name of an installed package is listed as missing from the available
/// packages only if no available package has that name.
pub proof fn lemma_no_false_missing(d: Datasets, r: ReportView, name: Seq<char>)
    requires
        reconciles(d, r),
        available_has(d, name),
    ensures
        !r.missing_available.contains(name),
{
    lemma_missing_available(d, r, name);
}

/// The datasets determine the report: two reports for the same datasets
/// hold the same rows in the same order, and the same lists.
pub proof fn lemma_report_unique(d: Datasets, r1: ReportView, r2: ReportView)
    requires
        reconciles(d, r1),
        reconciles(d, r2),
    ensures
        r1 == r2,
{
    let n1 = row_names(r1.outdated);
    let n2 = row_names(r2.outdated);
    assert(ascending::<String>(n1));
    assert(ascending::<String>(n2));
    assert forall|k: Seq<char>| n1.contains(k) <==> n2.contains(k) by {
        if n1.contains(k) {
            let j = choose|j: int| 0 <= j < n1.len() && n1[j] == k;
            assert(r1.outdated[j].repology_name == k);
            assert(has_row(r1.outdated, k));
            assert(has_row(r2.outdated, k));
            let m = choose|m: int|
                0 <= m < r2.outdated.len() && #[trigger] r2.outdated[m].repology_name == k;
            assert(n2[m] == k);
        }
        if n2.contains(k) {
            let j = choose|j: int| 0 <= j < n2.len() && n2[j] == k;
            assert(r2.outdated[j].repology_name == k);
            assert(has_row(r2.outdated, k));
            assert(has_row(r1.outdated, k));
            let m = choose|m: int|
                0 <= m < r1.outdated.len() && #[trigger] r1.outdated[m].repology_name == k;
            assert(n1[m] == k);
        }
    }
    lemma_ascending_unique::<String>(n1, n2);
    assert(r1.outdated.len() == r2.outdated.len());
    assert forall|j: int| 0 <= j < r1.outdated.len() implies r1.outdated[j] == r2.outdated[j] by {
        let a = r1.outdated[j];
        let b = r2.outdated[j];
        assert(n1[j] == a.repology_name && n2[j] == b.repology_name);
        assert(row_of(d, a) && row_of(d, b));
        lemma_ascending_unique::<String>(a.versions, b.versions);
        lemma_ascending_unique::<String>(a.attributes, b.attributes);
    }
    assert(r1.outdated =~= r2.outdated);
    lemma_nondescending_unique::<String>(r1.missing_available, r2.missing_available);
    lemma_nondescending_unique::<Unmatched>(r1.missing_repology, r2.missing_repology);
}

/// `h` is a hit for `k` that the join has met before it comes to `b`.
spec fn seen_of(d: Datasets, k: Seq<char>, h: Hit, b: Hit) -> bool {
    hit_of(d, k, h) && hit_lt(h, b)
}

/// Some hit for `k` comes before `b`.
spec fn known_before(d: Datasets, k: Seq<char>, b: Hit) -> bool {
    exists|h: Hit| seen_of(d, k, h, b)
}

/// Some hit for `k` before `b` is of an installed package of version `v`.
spec fn version_before(d: Datasets, k: Seq<char>, v: Seq<char>, b: Hit) -> bool {
    exists|h: Hit| #[trigger] seen_of(d, k, h, b) && d.installed[h.i].version == v
}

/// Some hit for `k` before `b` is of an available package with the
/// attribute `at`.
spec fn attribute_before(d: Datasets, k: Seq<char>, at: Seq<char>, b: Hit) -> bool {
    exists|h: Hit| #[trigger] seen_of(d, k, h, b) && d.available[h.a].attribute == at
}

/// The first hit for `k` comes before `b`, and its upstream package gives
/// the latest version `l`.
spec fn first_before(d: Datasets, k: Seq<char>, l: Option<Seq<char>>, b: Hit) -> bool {
    exists|h: Hit| #[trigger] first_hit(d, k, h) && hit_lt(h, b) && d.upstream[h.u].latest == l
}

/// The tally `t` holds what the hits before `b` give.
spec fn tracks(d: Datasets, t: Map<Seq<char>, FactsView>, b: Hit) -> bool {
    &&& forall|k: Seq<char>| #[trigger] t.contains_key(k) <==> known_before(d, k, b)
    &&& forall|k: Seq<char>| #[trigger] t.contains_key(k) ==> first_before(d, k, t[k].latest, b)
    &&& forall|k: Seq<char>, v: Seq<char>|
        t.contains_key(k) ==> (#[trigger] t[k].versions.contains(v) <==> version_before(
            d,
            k,
            v,
            b,
        ))
    &&& forall|k: Seq<char>, at: Seq<char>|
        t.contains_key(k) ==> (#[trigger] t[k].attributes.contains(at) <==> attribute_before(
            d,
            k,
            at,
            b,
        ))
}

/// Where no hit lies between `b` and `b2`, the tally holds for both.
proof fn lemma_tracks_same(d: Datasets, t: Map<Seq<char>, FactsView>, b: Hit, b2: Hit)
    requires
        tracks(d, t, b),
        forall|h: Hit| #[trigger] is_hit(d, h) ==> (hit_lt(h, b2) <==> hit_lt(h, b)),
    ensures
        tracks(d, t, b2),
{
    assert forall|k: Seq<char>, h: Hit| #[trigger]
        seen_of(d, k, h, b2) <==> seen_of(d, k, h, b) by {
    }
    assert forall|k: Seq<char>| #[trigger] t.contains_key(k) <==> known_before(d, k, b2) by {
        if t.contains_key(k) {
            let h = choose|h: Hit| seen_of(d, k, h, b);
            assert(seen_of(d, k, h, b2));
        }
        if known_before(d, k, b2) {
            let h = choose|h: Hit| seen_of(d, k, h, b2);
            assert(seen_of(d, k, h, b));
        }
    }
    assert forall|k: Seq<char>| #[trigger] t.contains_key(k) implies first_before(
        d,
        k,
        t[k].latest,
        b2,
    ) by {
        let l = t[k].latest;
        assert(first_before(d, k, l, b));
        let h = choose|h: Hit| #[trigger]
            first_hit(d, k, h) && hit_lt(h, b) && d.upstream[h.u].latest == l;
        assert(first_hit(d, k, h) && hit_lt(h, b2));
    }
    assert forall|k: Seq<char>, v: Seq<char>| t.contains_key(k) implies (
    #[trigger] t[k].versions.contains(v) <==> version_before(d, k, v, b2)) by {
        if version_before(d, k, v, b) {
            let h = choose|h: Hit| #[trigger]
                seen_of(d, k, h, b) && d.installed[h.i].version == v;
            assert(seen_of(d, k, h, b2));
        }
        if version_before(d, k, v, b2) {
            let h = choose|h: Hit| #[trigger]
                seen_of(d, k, h, b2) && d.installed[h.i].version == v;
            assert(seen_of(d, k, h, b));
        }
    }
    assert forall|k: Seq<char>, at: Seq<char>| t.contains_key(k) implies (
    #[trigger] t[k].attributes.contains(at) <==> attribute_before(d, k, at, b2)) by {
        if attribute_before(d, k, at, b) {
            let h = choose|h: Hit| #[trigger]
                seen_of(d, k, h, b) && d.available[h.a].attribute == at;
            assert(seen_of(d, k, h, b2));
        }
        if attribute_before(d, k, at, b2) {
            let h = choose|h: Hit| #[trigger]
                seen_of(d, k, h, b2) && d.available[h.a].attribute == at;
            assert(seen_of(d, k, h, b));
        }
    }
}

/// The tally after the hit at `b` has been recorded holds for the place
/// after `b`.
proof fn lemma_tracks_hit(
    d: Datasets,
    t: Map<Seq<char>, FactsView>,
    b: Hit,
    t2: Map<Seq<char>, FactsView>,
)
    requires
        tracks(d, t, b),
        is_hit(d, b),
        t2 == t.insert(
            d.upstream[b.u].repology_name,
            if t.contains_key(d.upstream[b.u].repology_name) {
                more_facts(
                    t[d.upstream[b.u].repology_name],
                    d.installed[b.i].version,
                    d.available[b.a].attribute,
                )
            } else {
                first_facts(
                    d.upstream[b.u].latest,
                    d.installed[b.i].version,
                    d.available[b.a].attribute,
                )
            },
        ),
    ensures
        tracks(d, t2, Hit { i: b.i, a: b.a, u: b.u + 1 }),
{
    let b2 = Hit { i: b.i, a: b.a, u: b.u + 1 };
    let k0 = d.upstream[b.u].repology_name;
    let v0 = d.installed[b.i].version;
    let a0 = d.available[b.a].attribute;
    assert forall|h: Hit| hit_lt(h, b2) <==> (hit_lt(h, b) || h == b) by {
    }
    assert(seen_of(d, k0, b, b2));
    assert forall|k: Seq<char>| #[trigger] t2.contains_key(k) <==> known_before(d, k, b2) by {
        if t2.contains_key(k) && k != k0 {
            assert(t.contains_key(k));
            let h = choose|h: Hit| seen_of(d, k, h, b);
            assert(seen_of(d, k, h, b2));
        }
        if known_before(d, k, b2) && k != k0 {
            let h = choose|h: Hit| seen_of(d, k, h, b2);
            assert(seen_of(d, k, h, b));
            assert(known_before(d, k, b));
            assert(t.contains_key(k));
        }
    }
    assert forall|k: Seq<char>| #[trigger] t2.contains_key(k) implies first_before(
        d,
        k,
        t2[k].latest,
        b2,
    ) by {
        if t.contains_key(k) {
            let l = t[k].latest;
            assert(t2[k].latest == l);
            assert(first_before(d, k, l, b));
            let h = choose|h: Hit| #[trigger]
                first_hit(d, k, h) && hit_lt(h, b) && d.upstream[h.u].latest == l;
            assert(first_hit(d, k, h) && hit_lt(h, b2));
        } else {
            assert(k == k0);
            assert forall|g: Hit| #[trigger] hit_of(d, k0, g) implies !hit_lt(g, b) by {
                if hit_lt(g, b) {
                    assert(seen_of(d, k0, g, b));
                    assert(known_before(d, k0, b));
                }
            }
            assert(first_hit(d, k0, b));
        }
    }
    assert forall|k: Seq<char>, v: Seq<char>| t2.contains_key(k) implies (
    #[trigger] t2[k].versions.contains(v) <==> version_before(d, k, v, b2)) by {
        if version_before(d, k, v, b2) {
            let h = choose|h: Hit| #[trigger]
                seen_of(d, k, h, b2) && d.installed[h.i].version == v;
            if h != b {
                assert(seen_of(d, k, h, b));
                assert(known_before(d, k, b));
                assert(t.contains_key(k));
                assert(version_before(d, k, v, b));
                assert(t[k].versions.contains(v));
            }
        }
        if t2[k].versions.contains(v) {
            if t.contains_key(k) && t[k].versions.contains(v) {
                assert(version_before(d, k, v, b));
                let h = choose|h: Hit| #[trigger]
                    seen_of(d, k, h, b) && d.installed[h.i].version == v;
                assert(seen_of(d, k, h, b2));
            } else {
                assert(k == k0 && v == v0);
            }
        }
    }
    assert forall|k: Seq<char>, at: Seq<char>| t2.contains_key(k) implies (
    #[trigger] t2[k].attributes.contains(at) <==> attribute_before(d, k, at, b2)) by {
        if attribute_before(d, k, at, b2) {
            let h = choose|h: Hit| #[trigger]
                seen_of(d, k, h, b2) && d.available[h.a].attribute == at;
            if h != b {
                assert(seen_of(d, k, h, b));
                assert(known_before(d, k, b));
                assert(t.contains_key(k));
                assert(attribute_before(d, k, at, b));
                assert(t[k].attributes.contains(at));
            }
        }
        if t2[k].attributes.contains(at) {
            if t.contains_key(k) && t[k].attributes.contains(at) {
                assert(attribute_before(d, k, at, b));
                let h = choose|h: Hit| #[trigger]
                    seen_of(d, k, h, b) && d.available[h.a].attribute == at;
                assert(seen_of(d, k, h, b2));
            } else {
                assert(k == k0 && at == a0);
            }
        }
    }
}

/// No two hits are the first for one project.
proof fn lemma_first_hit_unique(d: Datasets, k: Seq<char>, h: Hit, g: Hit)
    requires
        first_hit(d, k, h),
        first_hit(d, k, g),
    ensures
        h == g,
{
}

/// Once every hit has been met, the tally holds what the datasets give.
proof fn lemma_tracks_all(d: Datasets, t: Map<Seq<char>, FactsView>)
    requires
        tracks(d, t, Hit { i: d.installed.len() as int, a: 0, u: 0 }),
    ensures
        forall|k: Seq<char>| #[trigger] t.contains_key(k) <==> is_known(d, k),
        forall|k: Seq<char>| #[trigger] t.contains_key(k) ==> t[k].latest == latest_of(d, k),
        forall|k: Seq<char>, v: Seq<char>|
            t.contains_key(k) ==> (#[trigger] t[k].versions.contains(v) <==> has_version(d, k, v)),
        forall|k: Seq<char>, at: Seq<char>|
            t.contains_key(k) ==> (#[trigger] t[k].attributes.contains(at) <==> has_attribute(
                d,
                k,
                at,
            )),
{
    let b = Hit { i: d.installed.len() as int, a: 0, u: 0 };
    assert forall|k: Seq<char>, h: Hit| #[trigger] seen_of(d, k, h, b) <==> hit_of(d, k, h) by {
    }
    assert forall|k: Seq<char>| #[trigger] t.contains_key(k) <==> is_known(d, k) by {
        if t.contains_key(k) {
            let h = choose|h: Hit| seen_of(d, k, h, b);
            assert(hit_of(d, k, h));
        }
        if is_known(d, k) {
            let h = choose|h: Hit| hit_of(d, k, h);
            assert(seen_of(d, k, h, b));
            assert(known_before(d, k, b));
        }
    }
    assert forall|k: Seq<char>| #[trigger] t.contains_key(k) implies t[k].latest == latest_of(
        d,
        k,
    ) by {
        let l = t[k].latest;
        assert(first_before(d, k, l, b));
        let h = choose|h: Hit| #[trigger]
            first_hit(d, k, h) && hit_lt(h, b) && d.upstream[h.u].latest == l;
        let g = choose|g: Hit| first_hit(d, k, g);
        lemma_first_hit_unique(d, k, h, g);
    }
    assert forall|k: Seq<char>, v: Seq<char>| t.contains_key(k) implies (
    #[trigger] t[k].versions.contains(v) <==> has_version(d, k, v)) by {
        if version_before(d, k, v, b) {
            let h = choose|h: Hit| #[trigger]
                seen_of(d, k, h, b) && d.installed[h.i].version == v;
            assert(hit_of(d, k, h));
        }
        if has_version(d, k, v) {
            let h = choose|h: Hit| #[trigger] hit_of(d, k, h) && d.installed[h.i].version == v;
            assert(seen_of(d, k, h, b));
        }
    }
    assert forall|k: Seq<char>, at: Seq<char>| t.contains_key(k) implies (
    #[trigger] t[k].attributes.contains(at) <==> has_attribute(d, k, at)) by {
        if attribute_before(d, k, at, b) {
            let h = choose|h: Hit| #[trigger]
                seen_of(d, k, h, b) && d.available[h.a].attribute == at;
            assert(hit_of(d, k, h));
        }
        if has_attribute(d, k, at) {
            let h = choose|h: Hit| #[trigger]
                hit_of(d, k, h) && d.available[h.a].attribute == at;
            assert(seen_of(d, k, h, b));
        }
    }
}

/// `unavailable` for the first `i` installed packages.
spec fn unavailable_upto(d: Datasets, i: int) -> Seq<Seq<char>> {
    d.installed.take(i).filter(is_unavailable(d)).map_values(name_of())
}

/// `untracked` for the first `i` installed packages.
spec fn untracked_upto(d: Datasets, i: int) -> Seq<(Seq<char>, Seq<char>)> {
    d.installed.take(i).map_values(untracked_for(d)).flatten()
}

/// `untracked_of` for the first `a` available packages.
spec fn untracked_of_upto(d: Datasets, lp: installed::PackageView, a: int) -> Seq<
    (Seq<char>, Seq<char>),
> {
    d.available.take(a).filter(is_untracked(d, lp)).map_values(paired_with(lp))
}

/// What one more installed package adds to `unavailable_upto`.
proof fn lemma_unavailable_step(d: Datasets, i: int)
    requires
        0 <= i < d.installed.len(),
    ensures
        unavailable_upto(d, i + 1) == if available_has(d, d.installed[i].name) {
            unavailable_upto(d, i)
        } else {
            unavailable_upto(d, i).push(d.installed[i].name)
        },
{
    let s = d.installed.take(i);
    let x = d.installed[i];
    assert(d.installed.take(i + 1) =~= s.push(x));
    s.lemma_filter_push(x, is_unavailable(d));
    s.filter(is_unavailable(d)).lemma_push_map_commute(name_of(), x);
}

/// What one more available package adds to `untracked_of_upto`.
proof fn lemma_untracked_of_step(d: Datasets, lp: installed::PackageView, a: int)
    requires
        0 <= a < d.available.len(),
    ensures
        untracked_of_upto(d, lp, a + 1) == if d.available[a].name == lp.name && !upstream_has(
            d,
            d.available[a].pname,
        ) {
            untracked_of_upto(d, lp, a).push((d.available[a].pname, lp.name))
        } else {
            untracked_of_upto(d, lp, a)
        },
{
    let s = d.available.take(a);
    let x = d.available[a];
    assert(d.available.take(a + 1) =~= s.push(x));
    s.lemma_filter_push(x, is_untracked(d, lp));
    s.filter(is_untracked(d, lp)).lemma_push_map_commute(paired_with(lp), x);
}

/// What one more installed package adds to `untracked_upto`.
proof fn lemma_untracked_step(d: Datasets, i: int)
    requires
        0 <= i < d.installed.len(),
    ensures
        untracked_upto(d, i + 1) == untracked_upto(d, i) + untracked_of(d, d.installed[i]),
{
    let s = d.installed.take(i);
    let x = d.installed[i];
    assert(d.installed.take(i + 1) =~= s.push(x));
    s.lemma_push_map_commute(untracked_for(d), x);
    s.map_values(untracked_for(d)).lemma_flatten_push(untracked_of(d, x));
}

/// Walks the upstream packages for one installed package and one available
/// package of the same name, and notes each match in the tally. Says whether
/// upstream lists the project of the available package.
fn join_upstream(
    tally: &mut Tally,
    lp: &installed::Package,
    ap: &available::Package,
    upstream: &repology::PackageSet,
    Ghost(d): Ghost<Datasets>,
    Ghost(i): Ghost<int>,
    Ghost(a): Ghost<int>,
) -> (found: bool)
    requires
        old(tally).wf(),
        upstream@ == d.upstream,
        0 <= i < d.installed.len(),
        0 <= a < d.available.len(),
        lp@ == d.installed[i],
        ap@ == d.available[a],
        lp@.name == ap@.name,
        tracks(d, old(tally)@, Hit { i, a, u: 0 }),
    ensures
        final(tally).wf(),
        tracks(d, final(tally)@, Hit { i, a: a + 1, u: 0 }),
        found == upstream_has(d, ap@.pname),
{
    let mut found = false;
    let mut u: usize = 0;
    while u < upstream.len()
        invariant
            tally.wf(),
            upstream@ == d.upstream,
            0 <= i < d.installed.len(),
            0 <= a < d.available.len(),
            lp@ == d.installed[i],
            ap@ == d.available[a],
            lp@.name == ap@.name,
            0 <= u <= upstream@.len(),
            tracks(d, tally@, Hit { i, a, u: u as int }),
            found == exists|u2: int| 0 <= u2 < u && #[trigger] d.upstream[u2].name == ap@.pname,
        decreases upstream@.len() - u,
    {
        let rp = &upstream.as_vec()[u];
        let ghost b = Hit { i, a, u: u as int };
        assert(d.upstream[u as int].name == rp.name@);
        if ap.pname == rp.name {
            found = true;
            let ghost t = tally@;
            tally.record(&rp.repology_name, &rp.latest, &lp.version, &ap.attribute);
            proof {
                lemma_tracks_hit(d, t, b, tally@);
            }
        } else {
            proof {
                lemma_tracks_same(d, tally@, b, Hit { i, a, u: u + 1 });
            }
        }
        u += 1;
    }
    proof {
        lemma_tracks_same(
            d,
            tally@,
            Hit { i, a, u: upstream@.len() as int },
            Hit { i, a: a + 1, u: 0 },
        );
    }
    found
}

/// Walks the available packages for one installed package. Notes each match
/// with an upstream package in the tally, and each available package of the
/// same name whose project upstream does not list in `missing`. Says whether
/// an available package has the name of the installed one.
fn join_available(
    tally: &mut Tally,
    missing: &mut SortedList<Unmatched>,
    lp: &installed::Package,
    available: &available::PackageSet,
    upstream: &repology::PackageSet,
    Ghost(d): Ghost<Datasets>,
    Ghost(i): Ghost<int>,
) -> (found: bool)
    requires
        old(tally).wf(),
        available@ == d.available,
        upstream@ == d.upstream,
        0 <= i < d.installed.len(),
        lp@ == d.installed[i],
        tracks(d, old(tally)@, Hit { i, a: 0, u: 0 }),
    ensures
        final(tally).wf(),
        tracks(d, final(tally)@, Hit { i: i + 1, a: 0, u: 0 }),
        found == available_has(d, lp@.name),
        final(missing)@.to_multiset() == old(missing)@.to_multiset().add(
            untracked_of(d, lp@).to_multiset(),
        ),
{
    let mut found = false;
    let mut a: usize = 0;
    proof {
        assert(untracked_of_upto(d, lp@, 0) =~= Seq::empty()) by {
            reveal(Seq::filter);
            assert(d.available.take(0) =~= Seq::empty());
        }
        assert(missing@.to_multiset() =~= missing@.to_multiset().add(
            Seq::<(Seq<char>, Seq<char>)>::empty().to_multiset(),
        )) by {
            broadcast use vstd::seq_lib::group_to_multiset_ensures;

        }
    }
    while a < available.len()
        invariant
            tally.wf(),
            available@ == d.available,
            upstream@ == d.upstream,
            0 <= i < d.installed.len(),
            lp@ == d.installed[i],
            0 <= a <= available@.len(),
            tracks(d, tally@, Hit { i, a: a as int, u: 0 }),
            found == exists|a2: int| 0 <= a2 < a && #[trigger] d.available[a2].name == lp@.name,
            missing@.to_multiset() == old(missing)@.to_multiset().add(
                untracked_of_upto(d, lp@, a as int).to_multiset(),
            ),
        decreases available@.len() - a,
    {
        let ap = &available.as_vec()[a];
        assert(d.available[a as int].name == ap.name@);
        proof {
            lemma_untracked_of_step(d, lp@, a as int);
        }
        if lp.name == ap.name {
            found = true;
            let listed = join_upstream(
                tally,
                lp,
                ap,
                upstream,
                Ghost(d),
                Ghost(i),
                Ghost(a as int),
            );
            if !listed {
                let ghost before = untracked_of_upto(d, lp@, a as int);
                missing.insert(Unmatched { pname: ap.pname.clone(), name: lp.name.clone() });
                proof {
                    vstd::seq_lib::to_multiset_build(before, (ap@.pname, lp@.name));
                    assert(old(missing)@.to_multiset().add(before.to_multiset()).insert(
                        (ap@.pname, lp@.name),
                    ) =~= old(missing)@.to_multiset().add(
                        before.to_multiset().insert((ap@.pname, lp@.name)),
                    ));
                }
            }
        } else {
            proof {
                lemma_tracks_same(
                    d,
                    tally@,
                    Hit { i, a: a as int, u: 0 },
                    Hit { i, a: a + 1, u: 0 },
                );
            }
        }
        a += 1;
    }
    proof {
        lemma_tracks_same(
            d,
            tally@,
            Hit { i, a: available@.len() as int, u: 0 },
            Hit { i: i + 1, a: 0, u: 0 },
        );
        assert(d.available.take(available@.len() as int) =~= d.available);
    }
    found
}

/// `row` says of its project what the tally holds of it.
spec fn agrees(t: Map<Seq<char>, FactsView>, row: RowView) -> bool {
    &&& t.contains_key(row.repology_name)
    &&& lags(t[row.repology_name])
    &&& row.latest == t[row.repology_name].latest
    &&& ascending::<String>(row.versions)
    &&& row.versions.to_set() == t[row.repology_name].versions
    &&& ascending::<String>(row.attributes)
    &&& row.attributes.to_set() == t[row.repology_name].attributes
}

/// The views of rows.
pub open spec fn row_views(rows: Seq<Row>) -> Seq<RowView> {
    rows.map_values(|r: Row| r@)
}

/// Among the first `j` names, `k` is that of a project that lags behind.
spec fn picked(t: Map<Seq<char>, FactsView>, names: Seq<Seq<char>>, j: int, k: Seq<char>) -> bool {
    exists|m: int| 0 <= m < j && #[trigger] names[m] == k && lags(t[k])
}

/// The rows of the projects in the tally that lag behind, in ascending order
/// of their names.
fn outdated_rows(tally: &Tally) -> (rows: Vec<Row>)
    requires
        tally.wf(),
    ensures
        rows_ascending(row_views(rows@)),
        forall|k: Seq<char>| #[trigger]
            has_row(row_views(rows@), k) <==> tally@.contains_key(k) && lags(tally@[k]),
        forall|j: int| 0 <= j < rows@.len() ==> agrees(tally@, #[trigger] row_views(rows@)[j]),
{
    let mut rows: Vec<Row> = Vec::new();
    let mut j: usize = 0;
    let n = tally.len();
    let ghost names = tally.names();
    let ghost t = tally@;
    proof {
        tally.lemma_names();
    }
    while j < n
        invariant
            tally.wf(),
            names == tally.names(),
            t == tally@,
            n == names.len(),
            0 <= j <= n,
            ascending::<String>(names),
            forall|k: Seq<char>| #[trigger] names.contains(k) <==> t.contains_key(k),
            rows_ascending(row_views(rows@)),
            forall|r: int, m: int|
                0 <= r < rows@.len() && j <= m < n ==> str_lt(
                    (#[trigger] row_views(rows@)[r]).repology_name,
                    #[trigger] names[m],
                ),
            forall|k: Seq<char>| #[trigger]
                has_row(row_views(rows@), k) <==> picked(t, names, j as int, k),
            forall|r: int| 0 <= r < rows@.len() ==> agrees(t, #[trigger] row_views(rows@)[r]),
        decreases n - j,
    {
        let f = tally.facts(j);
        f.versions.order();
        f.attributes.order();
        let behind = match &f.latest {
            Some(l) => !f.versions.contains(l),
            None => false,
        };
        let ghost k0 = names[j as int];
        let ghost old_rows = row_views(rows@);
        assert(behind == lags(t[k0]));
        if behind {
            let row = Row {
                repology_name: tally.name(j).clone(),
                latest: clone_opt(&f.latest),
                versions: f.versions.duplicate(),
                attributes: f.attributes.duplicate(),
            };
            rows.push(row);
            proof {
                let new_rows = row_views(rows@);
                assert(new_rows =~= old_rows.push(row@));
                assert(agrees(t, row@));
                assert forall|r: int, m: int|
                    0 <= r < new_rows.len() && j + 1 <= m < n implies str_lt(
                    (#[trigger] new_rows[r]).repology_name,
                    #[trigger] names[m],
                ) by {
                    if r < old_rows.len() {
                        assert(new_rows[r] == old_rows[r]);
                    }
                }
                assert forall|r1: int, r2: int| 0 <= r1 < r2 < new_rows.len() implies str_lt(
                    (#[trigger] new_rows[r1]).repology_name,
                    (#[trigger] new_rows[r2]).repology_name,
                ) by {
                    assert(new_rows[r1] == old_rows[r1]);
                    if r2 < old_rows.len() {
                        assert(new_rows[r2] == old_rows[r2]);
                    } else {
                        assert(str_lt(old_rows[r1].repology_name, names[j as int]));
                    }
                }
                assert forall|k: Seq<char>| #[trigger]
                    has_row(new_rows, k) <==> picked(t, names, j + 1, k) by {
                    if has_row(new_rows, k) {
                        let r = choose|r: int|
                            0 <= r < new_rows.len() && #[trigger] new_rows[r].repology_name == k;
                        if r < old_rows.len() {
                            assert(old_rows[r].repology_name == k);
                            assert(has_row(old_rows, k));
                            let m = choose|m: int|
                                0 <= m < j && #[trigger] names[m] == k && lags(t[k]);
                            assert(names[m] == k);
                        } else {
                            assert(names[j as int] == k);
                        }
                    }
                    if picked(t, names, j + 1, k) {
                        let m = choose|m: int|
                            0 <= m < j + 1 && #[trigger] names[m] == k && lags(t[k]);
                        if m < j {
                            assert(names[m] == k);
                            assert(picked(t, names, j as int, k));
                            assert(has_row(old_rows, k));
                            let r = choose|r: int|
                                0 <= r < old_rows.len() && #[trigger] old_rows[r].repology_name
                                    == k;
                            assert(new_rows[r].repology_name == k);
                        } else {
                            assert(new_rows[old_rows.len() as int].repology_name == k);
                        }
                    }
                }
                assert forall|r: int| 0 <= r < new_rows.len() implies agrees(
                    t,
                    #[trigger] new_rows[r],
                ) by {
                    if r < old_rows.len() {
                        assert(new_rows[r] == old_rows[r]);
                    }
                }
            }
        } else {
            proof {
                assert forall|k: Seq<char>| #[trigger]
                    has_row(old_rows, k) <==> picked(t, names, j + 1, k) by {
                    if has_row(old_rows, k) {
                        let m = choose|m: int|
                            0 <= m < j && #[trigger] names[m] == k && lags(t[k]);
                        assert(names[m] == k);
                    }
                    if picked(t, names, j + 1, k) {
                        let m = choose|m: int|
                            0 <= m < j + 1 && #[trigger] names[m] == k && lags(t[k]);
                        assert(names[m] == k);
                        assert(m < j);
                        assert(picked(t, names, j as int, k));
                    }
                }
            }
        }
        j += 1;
    }
    proof {
        assert forall|k: Seq<char>| #[trigger]
            has_row(row_views(rows@), k) <==> t.contains_key(k) && lags(t[k]) by {
            if picked(t, names, n as int, k) {
                let m = choose|m: int| 0 <= m < n && #[trigger] names[m] == k && lags(t[k]);
                assert(names.contains(k));
            }
            if t.contains_key(k) && lags(t[k]) {
                assert(names.contains(k));
                let m = choose|m: int| 0 <= m < names.len() && names[m] == k;
                assert(names[m] == k);
                assert(picked(t, names, n as int, k));
            }
        }
    }
    rows
}

/// Joins the three datasets.
///
/// Each installed package is matched with the available packages of the same
/// name, and each of those with the upstream packages of its project. A
/// project is reported when upstream gives a latest version for it that no
/// installed package of the project has. Installed packages without an
/// available package, and available packages without an upstream project,
/// are listed apart.
pub fn reconcile(
    installed: &installed::PackageSet,
    available: &available::PackageSet,
    upstream: &repology::PackageSet,
) -> (report: Report)
    ensures
        reconciles(
            Datasets { installed: installed@, available: available@, upstream: upstream@ },
            report@,
        ),
        forall|j: int|
            0 <= j < report@.outdated.len() ==> is_behind(#[trigger] report@.outdated[j]),
        forall|i: int|
            0 <= i < installed@.len() && available_has(
                Datasets { installed: installed@, available: available@, upstream: upstream@ },
                (#[trigger] installed@[i]).name,
            ) ==> !report@.missing_available.contains(installed@[i].name),
{
    let ghost d = Datasets { installed: installed@, available: available@, upstream: upstream@ };
    let mut tally = Tally::new();
    let mut missing_available = SortedList::<String>::new();
    let mut missing_repology = SortedList::<Unmatched>::new();
    let mut i: usize = 0;
    proof {
        assert(d.installed.take(0) =~= Seq::empty());
        assert(unavailable_upto(d, 0) =~= Seq::empty()) by {
            reveal(Seq::filter);
        }
        assert(untracked_upto(d, 0) =~= Seq::empty());
        assert(tracks(d, tally@, Hit { i: 0, a: 0, u: 0 }));
    }
    while i < installed.len()
        invariant
            d == (Datasets { installed: installed@, available: available@, upstream: upstream@ }),
            tally.wf(),
            0 <= i <= installed@.len(),
            tracks(d, tally@, Hit { i: i as int, a: 0, u: 0 }),
            missing_available@.to_multiset() == unavailable_upto(d, i as int).to_multiset(),
            missing_repology@.to_multiset() == untracked_upto(d, i as int).to_multiset(),
        decreases installed@.len() - i,
    {
        let lp = &installed.as_vec()[i];
        let found = join_available(
            &mut tally,
            &mut missing_repology,
            lp,
            available,
            upstream,
            Ghost(d),
            Ghost(i as int),
        );
        proof {
            lemma_unavailable_step(d, i as int);
            lemma_untracked_step(d, i as int);
            vstd::seq_lib::lemma_multiset_commutative(
                untracked_upto(d, i as int),
                untracked_of(d, lp@),
            );
        }
        if !found {
            missing_available.insert(lp.name.clone());
            proof {
                vstd::seq_lib::to_multiset_build(unavailable_upto(d, i as int), lp@.name);
            }
        }
        i += 1;
    }
    let outdated = outdated_rows(&tally);
    missing_available.order();
    missing_repology.order();
    let report = Report { outdated, missing_available, missing_repology };
    proof {
        let t = tally@;
        let r = report@;
        lemma_tracks_all(d, t);
        assert(d.installed.take(installed@.len() as int) =~= d.installed);
        assert(r.outdated == row_views(report.outdated@));
        assert forall|k: Seq<char>| #[trigger] has_row(r.outdated, k) <==> is_outdated(d, k) by {
            if t.contains_key(k) {
                match t[k].latest {
                    Some(l) => {
                        assert(t[k].versions.contains(l) <==> has_version(d, k, l));
                    },
                    None => {},
                }
            }
        }
        assert forall|j: int| 0 <= j < r.outdated.len() implies row_of(
            d,
            #[trigger] r.outdated[j],
        ) by {
            let row = r.outdated[j];
            let k = row.repology_name;
            assert(agrees(t, row));
            assert forall|v: Seq<char>| #[trigger]
                row.versions.contains(v) <==> has_version(d, k, v) by {
                assert(row.versions.to_set().contains(v) <==> t[k].versions.contains(v));
            }
            assert forall|at: Seq<char>| #[trigger]
                row.attributes.contains(at) <==> has_attribute(d, k, at) by {
                assert(row.attributes.to_set().contains(at) <==> t[k].attributes.contains(at));
            }
        }
        assert(reconciles(d, r));
        lemma_rows_are_behind(d, r);
        assert forall|i: int|
            0 <= i < installed@.len() && available_has(
                d,
                (#[trigger] installed@[i]).name,
            ) implies !r.missing_available.contains(installed@[i].name) by {
            lemma_no_false_missing(d, r, installed@[i].name);
        }
    }
    report
}

} // verus!
