//! What the upstream database says of the projects of one repository.

use crate::error::OldeError;
use crate::json::{
    is_first_member, items_view, json_parse, lemma_first_member, lemma_list_view,
    lemma_object_view, malformed, member, member_names, member_values, optional_text,
    optional_text_of, parse, required_text, text_of, Json, JsonView,
};
use crate::ordered::{
    ascending, lemma_ascending_no_duplicates, lemma_ascending_unique, Order, Ordered, SortedSet,
};
use crate::text::{
    clone_opt, compare_opt_str, compare_str, lemma_opt_str_lt_order, lemma_str_lt_order, opt_str_lt,
    opt_view, same_str, str_lt,
};
use vstd::prelude::*;
use vstd::string::*;

verus! {

/// One package of the repository, as the upstream database lists it under
/// a project.
#[derive(Debug, PartialEq, Eq)]
pub struct Package {
    /// The name of the project upstream.
    pub repology_name: String,
    /// The name of the project in the repository.
    pub name: String,
    /// The version that the repository has.
    pub version: Option<String>,
    /// What upstream makes of that version: outdated, newest, and so on.
    pub status: Option<String>,
    /// The latest version that any repository has, where upstream knows one.
    pub latest: Option<String>,
}

/// What a `Package` holds.
pub struct PackageView {
    pub repology_name: Seq<char>,
    pub name: Seq<char>,
    pub version: Option<Seq<char>>,
    pub status: Option<Seq<char>>,
    pub latest: Option<Seq<char>>,
}

impl View for Package {
    type V = PackageView;

    open spec fn view(&self) -> PackageView {
        PackageView {
            repology_name: self.repology_name@,
            name: self.name@,
            version: opt_view(self.version),
            status: opt_view(self.status),
            latest: opt_view(self.latest),
        }
    }
}

impl Ordered for Package {
    type Key = PackageView;

    open spec fn key(&self) -> PackageView {
        self@
    }

    /// By upstream name, then name, version, status and latest version.
    open spec fn key_lt(a: PackageView, b: PackageView) -> bool {
        if a.repology_name != b.repology_name {
            str_lt(a.repology_name, b.repology_name)
        } else if a.name != b.name {
            str_lt(a.name, b.name)
        } else if a.version != b.version {
            opt_str_lt(a.version, b.version)
        } else if a.status != b.status {
            opt_str_lt(a.status, b.status)
        } else {
            opt_str_lt(a.latest, b.latest)
        }
    }

    proof fn lemma_order(a: PackageView, b: PackageView, c: PackageView) {
        lemma_str_lt_order(a.repology_name, b.repology_name, c.repology_name);
        lemma_str_lt_order(a.name, b.name, c.name);
        lemma_opt_str_lt_order(a.version, b.version, c.version);
        lemma_opt_str_lt_order(a.status, b.status, c.status);
        lemma_opt_str_lt_order(a.latest, b.latest, c.latest);
    }

    fn compare(&self, other: &Self) -> (o: Order) {
        match compare_str(self.repology_name.as_str(), other.repology_name.as_str()) {
            Order::Same => match compare_str(self.name.as_str(), other.name.as_str()) {
                Order::Same => match compare_opt_str(&self.version, &other.version) {
                    Order::Same => match compare_opt_str(&self.status, &other.status) {
                        Order::Same => compare_opt_str(&self.latest, &other.latest),
                        o => o,
                    },
                    o => o,
                },
                o => o,
            },
            o => o,
        }
    }
}

/// The packages that upstream lists, each once, in ascending order.
pub type PackageSet = SortedSet<Package>;

/// One entry of a project's list: what one repository has of the project.
#[derive(Debug, PartialEq, Eq)]
pub struct Entry {
    /// The repository.
    pub repo: String,
    /// The name of the project in that repository, where upstream gives one.
    pub visiblename: Option<String>,
    /// The version that the repository has.
    pub version: Option<String>,
    /// What upstream makes of that version.
    pub status: Option<String>,
}

/// What an `Entry` holds.
pub struct EntryView {
    pub repo: Seq<char>,
    pub visiblename: Option<Seq<char>>,
    pub version: Option<Seq<char>>,
    pub status: Option<Seq<char>>,
}

impl View for Entry {
    type V = EntryView;

    open spec fn view(&self) -> EntryView {
        EntryView {
            repo: self.repo@,
            visiblename: opt_view(self.visiblename),
            version: opt_view(self.version),
            status: opt_view(self.status),
        }
    }
}

/// One project of a page, with its entries in the order in which upstream
/// sent them.
#[derive(Debug, PartialEq, Eq)]
pub struct Project {
    /// The name of the project upstream.
    pub name: String,
    /// What the repositories have of it.
    pub entries: Vec<Entry>,
}

/// What a `Project` holds.
pub struct ProjectView {
    pub name: Seq<char>,
    pub entries: Seq<EntryView>,
}

/// The views of entries.
pub open spec fn entry_views(entries: Seq<Entry>) -> Seq<EntryView> {
    entries.map_values(|e: Entry| e@)
}

impl View for Project {
    type V = ProjectView;

    open spec fn view(&self) -> ProjectView {
        ProjectView { name: self.name@, entries: entry_views(self.entries@) }
    }
}

impl Ordered for Project {
    type Key = Seq<char>;

    open spec fn key(&self) -> Seq<char> {
        self.name@
    }

    /// By name.
    open spec fn key_lt(a: Seq<char>, b: Seq<char>) -> bool {
        str_lt(a, b)
    }

    proof fn lemma_order(a: Seq<char>, b: Seq<char>, c: Seq<char>) {
        lemma_str_lt_order(a, b, c);
    }

    fn compare(&self, other: &Self) -> (o: Order) {
        compare_str(self.name.as_str(), other.name.as_str())
    }
}

/// One page of the listing: its projects, each name once, in ascending
/// order of the names.
pub type Page = SortedSet<Project>;

/// The views of the projects of a page.
pub open spec fn page_view(page: Seq<Project>) -> Seq<ProjectView> {
    page.map_values(|p: Project| p@)
}

/// The names of the projects of a page.
pub open spec fn names_of(page: Seq<ProjectView>) -> Seq<Seq<char>> {
    page.map_values(|p: ProjectView| p.name)
}

/// The packages that share a project share its latest version.
pub open spec fn latest_agrees(packages: Seq<PackageView>) -> bool {
    forall|p: PackageView, q: PackageView|
        packages.contains(p) && packages.contains(q) && p.repology_name == q.repology_name
            ==> p.latest == q.latest
}

/// The status says that a version is the latest one.
pub open spec fn is_current(status: Option<Seq<char>>) -> bool {
    status == Some("newest"@) || status == Some("unique"@)
}

/// The entry at `i` is the first whose version is the latest one.
pub open spec fn is_first_current(entries: Seq<EntryView>, i: int) -> bool {
    &&& 0 <= i < entries.len()
    &&& is_current(entries[i].status)
    &&& forall|j: int| 0 <= j < i ==> !is_current(#[trigger] entries[j].status)
}

/// The latest version of a project: the version of the first entry whose
/// status says so; none where no entry does.
pub open spec fn project_latest(entries: Seq<EntryView>) -> Option<Seq<char>> {
    if exists|i: int| is_first_current(entries, i) {
        entries[choose|i: int| is_first_current(entries, i)].version
    } else {
        None
    }
}

/// Tells the entries that give a package: those of the repository `tag`
/// that carry a name.
pub open spec fn emits(tag: Seq<char>) -> spec_fn(EntryView) -> bool {
    |e: EntryView| e.repo == tag && e.visiblename is Some
}

/// Makes the package of an entry of the project `name`.
pub open spec fn to_package(name: Seq<char>, latest: Option<Seq<char>>) -> spec_fn(
    EntryView,
) -> PackageView {
    |e: EntryView|
        PackageView {
            repology_name: name,
            name: e.visiblename.unwrap(),
            version: e.version,
            status: e.status,
            latest,
        }
}

/// The packages that `entries` give for the project `name`, all with the
/// same latest version.
pub open spec fn packages_from(
    tag: Seq<char>,
    name: Seq<char>,
    latest: Option<Seq<char>>,
    entries: Seq<EntryView>,
) -> Seq<PackageView> {
    entries.filter(emits(tag)).map_values(to_package(name, latest))
}

/// The packages of one project: one for each of its entries of the
/// repository `tag` that carries a name.
pub open spec fn project_packages(tag: Seq<char>, project: ProjectView) -> Seq<PackageView> {
    packages_from(tag, project.name, project_latest(project.entries), project.entries)
}

/// Gives `project_packages` for a project.
pub open spec fn packages_for(tag: Seq<char>) -> spec_fn(ProjectView) -> Seq<PackageView> {
    |p: ProjectView| project_packages(tag, p)
}

/// The packages of all projects of a page.
pub open spec fn page_packages(tag: Seq<char>, page: Seq<ProjectView>) -> Seq<PackageView> {
    page.map_values(packages_for(tag)).flatten()
}

/// `k` is the name of a project of the page, and none has a later name.
pub open spec fn is_last_name(page: Seq<ProjectView>, k: Seq<char>) -> bool {
    &&& exists|i: int| 0 <= i < page.len() && #[trigger] page[i].name == k
    &&& forall|j: int| 0 <= j < page.len() ==> !str_lt(k, #[trigger] page[j].name)
}

/// Where the listing goes on after a page: behind the last name of the
/// page; for an empty page, where it was.
pub open spec fn next_cursor(cursor: Seq<char>, page: Seq<ProjectView>) -> Seq<char> {
    if page.len() == 0 {
        cursor
    } else {
        (choose|k: Seq<char>| is_last_name(page, k)) + seq!['/']
    }
}

/// The latest version of a project.
pub fn latest_version(entries: &Vec<Entry>) -> (latest: Option<String>)
    ensures
        opt_view(latest) == project_latest(entry_views(entries@)),
{
    let ghost views = entry_views(entries@);
    let mut i: usize = 0;
    while i < entries.len()
        invariant
            views == entry_views(entries@),
            0 <= i <= entries.len(),
            forall|j: int| 0 <= j < i ==> !is_current(#[trigger] views[j].status),
        decreases entries.len() - i,
    {
        let e = &entries[i];
        assert(views[i as int] == e@);
        let current = match &e.status {
            Some(s) => same_str(s.as_str(), "newest") || same_str(s.as_str(), "unique"),
            None => false,
        };
        if current {
            proof {
                assert(is_first_current(views, i as int));
                let c = choose|c: int| is_first_current(views, c);
                assert(c == i) by {
                    if c < i {
                        assert(!is_current(views[c].status));
                    } else if c > i {
                        assert(!is_current(views[i as int].status));
                    }
                }
            }
            return clone_opt(&e.version);
        }
        i += 1;
    }
    proof {
        assert forall|c: int| !is_first_current(views, c) by {
            if 0 <= c < views.len() {
                assert(!is_current(views[c].status));
            }
        }
    }
    None
}

/// Puts the packages of one project into `set`.
pub fn insert_project(set: &mut PackageSet, tag: &str, project: &Project)
    ensures
        ascending::<Package>(final(set)@),
        final(set)@.to_set() == old(set)@.to_set().union(
            project_packages(tag@, project@).to_set(),
        ),
{
    let latest = latest_version(&project.entries);
    let ghost views = project@.entries;
    let ghost name = project@.name;
    let ghost l = opt_view(latest);
    let mut i: usize = 0;
    proof {
        assert(views.take(0) =~= Seq::empty());
        assert(packages_from(tag@, name, l, views.take(0)) =~= Seq::empty()) by {
            reveal(Seq::filter);
        }
        assert(set@.to_set() =~= set@.to_set().union(Seq::<PackageView>::empty().to_set()));
    }
    while i < project.entries.len()
        invariant
            views == entry_views(project.entries@),
            name == project.name@,
            l == opt_view(latest),
            0 <= i <= project.entries.len(),
            set@.to_set() == old(set)@.to_set().union(
                packages_from(tag@, name, l, views.take(i as int)).to_set(),
            ),
        decreases project.entries.len() - i,
    {
        let e = &project.entries[i];
        let ghost before = packages_from(tag@, name, l, views.take(i as int));
        proof {
            assert(views[i as int] == e@);
            assert(views.take(i + 1) =~= views.take(i as int).push(e@));
            views.take(i as int).lemma_filter_push(e@, emits(tag@));
            views.take(i as int).filter(emits(tag@)).lemma_push_map_commute(
                to_package(name, l),
                e@,
            );
        }
        if same_str(e.repo.as_str(), tag) {
            match &e.visiblename {
                Some(vn) => {
                    let p = Package {
                        repology_name: project.name.clone(),
                        name: vn.clone(),
                        version: clone_opt(&e.version),
                        status: clone_opt(&e.status),
                        latest: clone_opt(&latest),
                    };
                    assert(p@ == to_package(name, l)(e@));
                    set.insert(p);
                    proof {
                        before.lemma_push_to_set_commute(p@);
                        assert(old(set)@.to_set().union(before.to_set()).insert(p@) =~= old(
                            set,
                        )@.to_set().union(before.to_set().insert(p@)));
                    }
                },
                None => {},
            }
        }
        i += 1;
    }
    proof {
        assert(views.take(project.entries.len() as int) =~= views);
    }
    set.order();
}

/// Puts the packages of all projects of a page into `set`.
pub fn insert_page(set: &mut PackageSet, tag: &str, page: &Page)
    ensures
        ascending::<Package>(final(set)@),
        final(set)@.to_set() == old(set)@.to_set().union(
            page_packages(tag@, page_view(page.items())).to_set(),
        ),
        latest_agrees(page_packages(tag@, page_view(page.items()))),
{
    let projects = page.as_vec();
    let ghost views = page_view(projects@);
    let mut i: usize = 0;
    proof {
        assert(views.take(0) =~= Seq::empty());
        assert(page_packages(tag@, views.take(0)) =~= Seq::empty());
        assert(set@.to_set() =~= set@.to_set().union(Seq::<PackageView>::empty().to_set()));
    }
    while i < projects.len()
        invariant
            views == page_view(projects@),
            0 <= i <= projects.len(),
            set@.to_set() == old(set)@.to_set().union(
                page_packages(tag@, views.take(i as int)).to_set(),
            ),
        decreases projects.len() - i,
    {
        let ghost before = page_packages(tag@, views.take(i as int));
        let ghost added = project_packages(tag@, projects[i as int]@);
        insert_project(set, tag, &projects[i]);
        proof {
            assert(views[i as int] == projects[i as int]@);
            assert(views.take(i + 1) =~= views.take(i as int).push(projects[i as int]@));
            views.take(i as int).lemma_push_map_commute(packages_for(tag@), projects[i as int]@);
            views.take(i as int).map_values(packages_for(tag@)).lemma_flatten_push(added);
            vstd::seq_lib::seq_to_set_distributes_over_add(before, added);
            assert(old(set)@.to_set().union(before.to_set()).union(added.to_set()) =~= old(
                set,
            )@.to_set().union(before.to_set().union(added.to_set())));
        }
        i += 1;
    }
    page.order();
    proof {
        assert(views.take(projects.len() as int) =~= views);
        assert(names_of(views) =~= page@);
        lemma_page_latest_agrees(tag@, views);
    }
    set.order();
}

/// Each package of a project carries the name of the project and its
/// latest version.
pub proof fn lemma_project_packages(tag: Seq<char>, project: ProjectView, p: PackageView)
    requires
        project_packages(tag, project).contains(p),
    ensures
        p.repology_name == project.name,
        p.latest == project_latest(project.entries),
{
    let ps = project_packages(tag, project);
    let j = choose|j: int| 0 <= j < ps.len() && ps[j] == p;
    assert(ps[j] == to_package(project.name, project_latest(project.entries))(
        project.entries.filter(emits(tag))[j],
    ));
}

/// Each package of a page is a package of one of its projects. Gives the
/// place of such a project.
pub proof fn lemma_page_package_origin(tag: Seq<char>, page: Seq<ProjectView>, p: PackageView)
    -> (i: int)
    requires
        page_packages(tag, page).contains(p),
    ensures
        0 <= i < page.len(),
        project_packages(tag, page[i]).contains(p),
    decreases page.len(),
{
    if page.len() == 0 {
        assert(page.map_values(packages_for(tag)) =~= Seq::empty());
        assert(page_packages(tag, page) =~= Seq::empty());
        0
    } else {
        let rest = page.drop_last();
        let last = page.last();
        assert(page =~= rest.push(last));
        rest.lemma_push_map_commute(packages_for(tag), last);
        rest.map_values(packages_for(tag)).lemma_flatten_push(project_packages(tag, last));
        let a = page_packages(tag, rest);
        let b = project_packages(tag, last);
        assert(page_packages(tag, page) =~= a + b);
        let j = choose|j: int| 0 <= j < (a + b).len() && (a + b)[j] == p;
        if j < a.len() {
            assert(a[j] == p);
            let i = lemma_page_package_origin(tag, rest, p);
            assert(rest[i] == page[i]);
            i
        } else {
            assert(b[j - a.len()] == p);
            page.len() - 1
        }
    }
}

/// On a page that names no project twice, the packages that share a project
/// share its latest version.
pub proof fn lemma_latest_consistent(
    tag: Seq<char>,
    page: Seq<ProjectView>,
    p: PackageView,
    q: PackageView,
)
    requires
        names_of(page).no_duplicates(),
        page_packages(tag, page).contains(p),
        page_packages(tag, page).contains(q),
        p.repology_name == q.repology_name,
    ensures
        p.latest == q.latest,
{
    let i = lemma_page_package_origin(tag, page, p);
    let j = lemma_page_package_origin(tag, page, q);
    lemma_project_packages(tag, page[i], p);
    lemma_project_packages(tag, page[j], q);
    assert(names_of(page)[i] == page[i].name);
    assert(names_of(page)[j] == page[j].name);
}

/// On a page whose projects stand in ascending order of their names, the
/// packages that share a project share its latest version.
pub proof fn lemma_page_latest_agrees(tag: Seq<char>, page: Seq<ProjectView>)
    requires
        ascending::<Project>(names_of(page)),
    ensures
        latest_agrees(page_packages(tag, page)),
{
    lemma_ascending_no_duplicates::<Project>(names_of(page));
    assert forall|p: PackageView, q: PackageView|
        page_packages(tag, page).contains(p) && page_packages(tag, page).contains(q)
            && p.repology_name == q.repology_name implies p.latest == q.latest by {
        lemma_latest_consistent(tag, page, p, q);
    }
}

/// No page has two last names.
pub proof fn lemma_last_name_unique(page: Seq<ProjectView>, k1: Seq<char>, k2: Seq<char>)
    requires
        is_last_name(page, k1),
        is_last_name(page, k2),
    ensures
        k1 == k2,
{
    lemma_str_lt_order(k1, k2, k1);
}

/// The name of the project that comes last in the order of names; none for
/// an empty page.
pub fn last_name(page: &Page) -> (last: Option<&String>)
    ensures
        match last {
            Some(k) => is_last_name(page_view(page.items()), k@),
            None => page@.len() == 0,
        },
{
    let projects = page.as_vec();
    let n = projects.len();
    if n == 0 {
        return None;
    }
    page.order();
    proof {
        let views = page_view(projects@);
        let last = views[n - 1].name;
        assert(names_of(views) =~= page@);
        assert(last == page@[n - 1]);
        assert forall|j: int| 0 <= j < views.len() implies !str_lt(
            last,
            #[trigger] views[j].name,
        ) by {
            assert(views[j].name == page@[j]);
            if j < n - 1 {
                assert(str_lt(page@[j], page@[n - 1]));
            }
            lemma_str_lt_order(last, views[j].name, last);
        }
    }
    Some(&projects[n - 1].name)
}

/// Where the listing goes on after a page that was asked for at `cursor`.
pub fn cursor_after(cursor: &String, page: &Page) -> (next: String)
    ensures
        next@ == next_cursor(cursor@, page_view(page.items())),
{
    match last_name(page) {
        None => {
            proof {
                broadcast use SortedSet::lemma_view;

            }
            cursor.clone()
        },
        Some(k) => {
            proof {
                let views = page_view(page.items());
                lemma_last_name_unique(views, k@, choose|k: Seq<char>| is_last_name(views, k));
                reveal_strlit("/");
                assert("/"@ =~= seq!['/']);
            }
            let mut next = k.clone();
            next.append("/");
            next
        },
    }
}

/// The entry that a JSON value stands for: an object with a string `repo`
/// and, where they are there and not `null`, strings `visiblename`,
/// `version` and `status`. Other members do not count.
pub open spec fn entry_of(j: JsonView) -> Option<EntryView> {
    match j {
        JsonView::Object(names, values) => match (
            required_text(names, values, "repo"@),
            optional_text(names, values, "visiblename"@),
            optional_text(names, values, "version"@),
            optional_text(names, values, "status"@),
        ) {
            (Some(repo), Some(visiblename), Some(version), Some(status)) => Some(
                EntryView { repo, visiblename, version, status },
            ),
            _ => None,
        },
        _ => None,
    }
}

/// The entries that a JSON value stands for: an array of entries.
pub open spec fn entries_of(j: JsonView) -> Option<Seq<EntryView>> {
    match j {
        JsonView::List(items) => if forall|i: int|
            0 <= i < items.len() ==> entry_of(#[trigger] items[i]) is Some {
            Some(Seq::new(items.len(), |i: int| entry_of(items[i]).unwrap()))
        } else {
            None
        },
        _ => None,
    }
}

/// The value has the form of a page: it is an object, and each of its
/// members holds the entries of a project.
pub open spec fn is_page(j: JsonView) -> bool {
    match j {
        JsonView::Object(names, values) => forall|i: int|
            0 <= i < values.len() ==> entries_of(#[trigger] values[i]) is Some,
        _ => false,
    }
}

/// `page` is the page that the value `j` stands for: one project for each
/// name among the members of the object, in ascending order of the names,
/// each with the entries that the first member of its name holds.
pub open spec fn is_page_of(j: JsonView, page: Seq<ProjectView>) -> bool {
    match j {
        JsonView::Object(names, values) => {
            &&& is_page(j)
            &&& ascending::<Project>(names_of(page))
            &&& forall|n: Seq<char>| names_of(page).contains(n) <==> names.contains(n)
            &&& forall|k: int|
                0 <= k < page.len() ==> match member(names, values, (#[trigger] page[k]).name) {
                    Some(v) => entries_of(v) == Some(page[k].entries),
                    None => false,
                }
        },
        _ => false,
    }
}

/// A value stands for one page at most.
pub proof fn lemma_page_unique(j: JsonView, first: Seq<ProjectView>, second: Seq<ProjectView>)
    requires
        is_page_of(j, first),
        is_page_of(j, second),
    ensures
        first == second,
{
    assert forall|n: Seq<char>|
        names_of(first).contains(n) <==> names_of(second).contains(n) by {
        assert(names_of(first).contains(n) <==> j->Object_0.contains(n));
        assert(names_of(second).contains(n) <==> j->Object_0.contains(n));
    }
    lemma_ascending_unique::<Project>(names_of(first), names_of(second));
    assert(first.len() == second.len());
    assert forall|k: int| 0 <= k < first.len() implies first[k] == second[k] by {
        assert(names_of(first)[k] == first[k].name);
        assert(names_of(second)[k] == second[k].name);
    }
    assert(first =~= second);
}

/// The page that a JSON value stands for; none where the value has not the
/// form of a page.
pub open spec fn page_of(j: JsonView) -> Option<Seq<ProjectView>> {
    if is_page(j) {
        Some(choose|page: Seq<ProjectView>| is_page_of(j, page))
    } else {
        None
    }
}

/// The page that a response stands for; none where the response is no JSON
/// or has not the form of a page.
pub open spec fn response_page(bytes: Seq<u8>) -> Option<Seq<ProjectView>> {
    match json_parse(bytes) {
        Some(j) => page_of(j),
        None => None,
    }
}

/// Reads one entry.
pub fn decode_entry(json: &Json) -> (r: Result<Entry, OldeError>)
    ensures
        match entry_of(json@) {
            Some(e) => r matches Ok(entry) && entry@ == e,
            None => r matches Err(OldeError::JSONError(_)),
        },
{
    match json {
        Json::Object(members) => {
            proof {
                lemma_object_view(*members);
            }
            let repo = text_of(members, "repo")?;
            let visiblename = optional_text_of(members, "visiblename")?;
            let version = optional_text_of(members, "version")?;
            let status = optional_text_of(members, "status")?;
            Ok(Entry { repo, visiblename, version, status })
        },
        _ => Err(malformed("an entry must be an object")),
    }
}

/// Reads the entries of one project.
pub fn decode_entries(json: &Json) -> (r: Result<Vec<Entry>, OldeError>)
    ensures
        match entries_of(json@) {
            Some(es) => r matches Ok(entries) && entry_views(entries@) == es,
            None => r matches Err(OldeError::JSONError(_)),
        },
{
    match json {
        Json::List(items) => {
            proof {
                lemma_list_view(*items);
            }
            let ghost views = items_view(items@);
            let mut entries: Vec<Entry> = Vec::new();
            let mut i: usize = 0;
            while i < items.len()
                invariant
                    json@ == JsonView::List(views),
                    views == items_view(items@),
                    0 <= i <= items.len(),
                    entries@.len() == i,
                    forall|j: int|
                        0 <= j < i ==> entry_of(#[trigger] views[j]) == Some(entries@[j]@),
                decreases items.len() - i,
            {
                match decode_entry(&items[i]) {
                    Ok(e) => {
                        entries.push(e);
                    },
                    Err(e) => {
                        assert(entry_of(views[i as int]) is None);
                        return Err(e);
                    },
                }
                i += 1;
            }
            proof {
                assert(entry_views(entries@) =~= Seq::new(
                    views.len(),
                    |i: int| entry_of(views[i]).unwrap(),
                ));
            }
            Ok(entries)
        },
        _ => Err(malformed("the entries of a project must be an array")),
    }
}

/// Reads a page.
pub fn decode_page(json: &Json) -> (r: Result<Page, OldeError>)
    ensures
        match page_of(json@) {
            Some(p) => r matches Ok(page) && page_view(page.items()) == p,
            None => r matches Err(OldeError::JSONError(_)),
        },
{
    match json {
        Json::Object(members) => {
            proof {
                lemma_object_view(*members);
            }
            let ghost names = member_names(members@);
            let ghost values = member_values(members@);
            let mut page = Page::new();
            let mut i: usize = 0;
            proof {
                broadcast use SortedSet::lemma_view;

                assert(page.items() =~= Seq::empty());
            }
            while i < members.len()
                invariant
                    json@ == JsonView::Object(names, values),
                    names == member_names(members@),
                    values == member_values(members@),
                    0 <= i <= members.len(),
                    forall|j: int| 0 <= j < i ==> entries_of(#[trigger] values[j]) is Some,
                    page@ == names_of(page_view(page.items())),
                    forall|n: Seq<char>| page@.contains(n) <==> names.take(i as int).contains(n),
                    forall|k: int|
                        0 <= k < page@.len() ==> match member(names, values, #[trigger] page@[k]) {
                            Some(v) => entries_of(v) == Some(page_view(page.items())[k].entries),
                            None => false,
                        },
                decreases members.len() - i,
            {
                let ghost old_keys = page@;
                let ghost old_views = page_view(page.items());
                match decode_entries(&members[i].value) {
                    Ok(entries) => {
                        let project = Project { name: members[i].name.clone(), entries };
                        let ghost pv = project@;
                        let (n, added) = page.insert(project);
                        proof {
                            broadcast use SortedSet::lemma_view;

                            let name = names[i as int];
                            let new_views = page_view(page.items());
                            assert(names.take(i + 1) =~= names.take(i as int).push(name));
                            assert(page@ =~= names_of(new_views));
                            if added {
                                assert(new_views =~= old_views.insert(n as int, pv));
                                assert(!names.take(i as int).contains(name));
                                assert(is_first_member(names, name, i as int)) by {
                                    assert forall|j: int| 0 <= j < i implies #[trigger] names[j]
                                        != name by {
                                        assert(names.take(i as int)[j] == names[j]);
                                    }
                                }
                                lemma_first_member(names, values, name, i as int);
                                assert forall|k: int| 0 <= k < page@.len() implies match member(
                                    names,
                                    values,
                                    #[trigger] page@[k],
                                ) {
                                    Some(v) => entries_of(v) == Some(new_views[k].entries),
                                    None => false,
                                } by {
                                    if k < n {
                                        assert(page@[k] == old_keys[k]);
                                        assert(new_views[k] == old_views[k]);
                                    } else if k > n {
                                        assert(page@[k] == old_keys[k - 1]);
                                        assert(new_views[k] == old_views[k - 1]);
                                    }
                                }
                            }
                            assert forall|m: Seq<char>|
                                page@.contains(m) <==> names.take(i + 1).contains(m) by {
                                if names.take(i as int).push(name).contains(m) {
                                    let j = choose|j: int|
                                        0 <= j < i + 1 && names.take(i as int).push(name)[j] == m;
                                    if j < i {
                                        assert(names.take(i as int)[j] == m);
                                    }
                                }
                                if names.take(i as int).contains(m) {
                                    let j = choose|j: int|
                                        0 <= j < i && names.take(i as int)[j] == m;
                                    assert(names.take(i as int).push(name)[j] == m);
                                }
                                assert(names.take(i as int).push(name)[i as int] == name);
                                assert(page@.to_set().contains(m) <==> old_keys.to_set().insert(
                                    name,
                                ).contains(m));
                            }
                        }
                    },
                    Err(e) => {
                        assert(entries_of(values[i as int]) is None);
                        return Err(e);
                    },
                }
                i += 1;
            }
            page.order();
            proof {
                let views = page_view(page.items());
                assert(names.take(members.len() as int) =~= names);
                assert(is_page(json@));
                assert(names_of(views) == page@);
                assert forall|n: Seq<char>| names_of(views).contains(n) <==> names.contains(n) by {
                    assert(page@.contains(n) <==> names.take(members.len() as int).contains(n));
                }
                assert forall|k: int| 0 <= k < views.len() implies match member(
                    names,
                    values,
                    (#[trigger] views[k]).name,
                ) {
                    Some(v) => entries_of(v) == Some(views[k].entries),
                    None => false,
                } by {
                    assert(views[k].name == page@[k]);
                }
                assert(is_page_of(json@, views));
                lemma_page_unique(
                    json@,
                    views,
                    choose|page: Seq<ProjectView>| is_page_of(json@, page),
                );
            }
            Ok(page)
        },
        _ => Err(malformed("a page must be an object")),
    }
}

/// Reads a response as a page. A response that is no JSON, or has not the
/// form of a page, is a failure.
pub fn parse_page(bytes: &[u8]) -> (r: Result<Page, OldeError>)
    ensures
        match response_page(bytes@) {
            Some(p) => r matches Ok(page) && page_view(page.items()) == p,
            None => r matches Err(OldeError::JSONError(_)),
        },
{
    let json = parse(bytes)?;
    decode_page(&json)
}

} // verus!
