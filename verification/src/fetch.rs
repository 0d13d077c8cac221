//! The retrieval of the upstream listing, page by page and no faster than
//! upstream allows.
//!
//! The fetcher decides; its caller acts. Before each request the caller asks
//! `poll` what to do, waits as long as the answer says, sends the request and
//! hands what came back to `accept`, which says whether another page is to
//! be asked for.

use crate::error::OldeError;
use crate::ordered::ascending;
use crate::repology::{
    cursor_after, insert_page, next_cursor, page_packages, page_view, parse_page, response_page,
    latest_agrees, Package, PackageSet, PackageView, Page, ProjectView,
};
use crate::text::same_str;
use vstd::prelude::*;
use vstd::string::*;

verus! {

/// The least time between the end of one request and the start of the next,
/// in nanoseconds: upstream allows one request a second.
pub const MIN_FETCH_INTERVAL: u64 = 1_000_000_000;

/// The most pages that one retrieval asks for. The listing is far shorter;
/// the bound ends a retrieval that upstream would lead on without end.
pub const MAX_PAGES: u64 = 1_000_000;

/// One request for a page.
#[derive(Debug, PartialEq, Eq)]
pub struct Request {
    /// The address to ask.
    pub url: String,
    /// How long to wait before asking, in nanoseconds.
    pub wait: u64,
}

/// The address of the page of the repository `repo` that starts at `cursor`.
pub open spec fn url_of(repo: Seq<char>, cursor: Seq<char>) -> Seq<char> {
    "https://repology.org/api/v1/projects/"@ + cursor + "?inrepo="@ + repo + "&outdated=1"@
}

/// How long to wait at the time `now` until the time `not_before` has come.
pub open spec fn wait_for(not_before: int, now: int) -> int {
    if now < not_before {
        not_before - now
    } else {
        0
    }
}

/// The earliest start of the request after one that ended at `finished`.
pub open spec fn earliest_after(finished: int) -> int {
    if finished + MIN_FETCH_INTERVAL <= u64::MAX {
        finished + MIN_FETCH_INTERVAL
    } else {
        u64::MAX as int
    }
}

/// The state of a retrieval between two requests.
#[derive(Debug)]
pub struct Fetcher {
    repo: String,
    cursor: String,
    packages: PackageSet,
    not_before: u64,
    pages: u64,
}

impl Fetcher {
    /// The repository whose packages are asked for.
    pub closed spec fn repo(&self) -> Seq<char> {
        self.repo@
    }

    /// Where the next page starts.
    pub closed spec fn cursor(&self) -> Seq<char> {
        self.cursor@
    }

    /// The packages gathered so far.
    pub closed spec fn packages(&self) -> Seq<PackageView> {
        self.packages@
    }

    /// The time before which the next request must not start.
    pub closed spec fn not_before(&self) -> int {
        self.not_before as int
    }

    /// The number of pages taken in so far.
    pub closed spec fn pages(&self) -> int {
        self.pages as int
    }

    /// A retrieval that starts at the time `now`, at the head of the listing.
    pub fn new(repo: String, now: u64) -> (f: Fetcher)
        ensures
            f.repo() == repo@,
            f.cursor() == Seq::<char>::empty(),
            f.packages() == Seq::<PackageView>::empty(),
            f.not_before() == now,
            f.pages() == 0,
    {
        Fetcher {
            repo,
            cursor: String::new(),
            packages: PackageSet::new(),
            not_before: now,
            pages: 0,
        }
    }

    /// What to do next at the time `now`: nothing more if the retrieval was
    /// called off, else one request after a wait.
    pub fn poll(&self, canceled: bool, now: u64) -> (r: Result<Request, OldeError>)
        ensures
            canceled ==> r is Err && r->Err_0.is_canceled("Repology fetch"@),
            !canceled ==> r is Ok && r->Ok_0.url@ == url_of(self.repo(), self.cursor())
                && r->Ok_0.wait == wait_for(self.not_before(), now as int),
            !canceled ==> now + r->Ok_0.wait >= self.not_before(),
    {
        if canceled {
            return Err(OldeError::Canceled("Repology fetch".to_owned()));
        }
        let wait = if now < self.not_before {
            self.not_before - now
        } else {
            0
        };
        let mut url = "https://repology.org/api/v1/projects/".to_owned();
        url.append(self.cursor.as_str());
        url.append("?inrepo=");
        url.append(self.repo.as_str());
        url.append("&outdated=1");
        Ok(Request { url, wait })
    }

    /// The state after a page was taken in that came at the time `finished`.
    pub open spec fn took_page(
        &self,
        before: &Fetcher,
        page: Seq<ProjectView>,
        finished: int,
    ) -> bool {
        &&& self.repo() == before.repo()
        &&& self.cursor() == next_cursor(before.cursor(), page)
        &&& self.packages().to_set() == before.packages().to_set().union(
            page_packages(before.repo(), page).to_set(),
        )
        &&& self.not_before() == earliest_after(finished)
        &&& self.pages() == if before.pages() < MAX_PAGES {
            before.pages() + 1
        } else {
            before.pages()
        }
    }

    /// Whether another page is to be asked for after the page `page`: that
    /// is so if the page led further than to where it started, and the
    /// retrieval has not had its fill of pages.
    pub open spec fn goes_on(&self, page: Seq<ProjectView>) -> bool {
        next_cursor(self.cursor(), page) != self.cursor() && self.pages() + 1 < MAX_PAGES
    }

    /// Takes a page in, which came at the time `finished`.
    ///
    /// The page adds its packages to those gathered, and the next page
    /// starts behind the last project of this one. Says whether another
    /// page is to be asked for.
    pub fn accept_page(&mut self, page: &Page, finished: u64) -> (more: bool)
        ensures
            final(self).took_page(old(self), page_view(page.items()), finished as int),
            more == old(self).goes_on(page_view(page.items())),
            latest_agrees(page_packages(old(self).repo(), page_view(page.items()))),
    {
        self.not_before = if finished <= u64::MAX - MIN_FETCH_INTERVAL {
            finished + MIN_FETCH_INTERVAL
        } else {
            u64::MAX
        };
        insert_page(&mut self.packages, self.repo.as_str(), page);
        let next = cursor_after(&self.cursor, page);
        let advanced = !same_str(next.as_str(), self.cursor.as_str());
        self.cursor = next;
        if self.pages < MAX_PAGES {
            self.pages += 1;
        }
        advanced && self.pages < MAX_PAGES
    }

    /// Takes what a request gave, which ended at the time `finished`.
    ///
    /// A failed request ends the retrieval with its failure, and so does a
    /// response that is no page. A page is taken in as `accept_page` says.
    pub fn accept(&mut self, outcome: Result<Vec<u8>, OldeError>, finished: u64) -> (r: Result<
        bool,
        OldeError,
    >)
        ensures
            match outcome {
                Err(e) => r == Err::<bool, OldeError>(e) && *final(self) == *old(self),
                Ok(bytes) => match response_page(bytes@) {
                    None => r matches Err(OldeError::JSONError(_)) && *final(self) == *old(self),
                    Some(page) => {
                        &&& r == Ok::<bool, OldeError>(old(self).goes_on(page))
                        &&& final(self).took_page(old(self), page, finished as int)
                        &&& latest_agrees(page_packages(old(self).repo(), page))
                    },
                },
            },
    {
        match outcome {
            Err(e) => Err(e),
            Ok(bytes) => match parse_page(bytes.as_slice()) {
                Err(e) => Err(e),
                Ok(page) => Ok(self.accept_page(&page, finished)),
            },
        }
    }

    /// The packages gathered.
    pub fn finish(self) -> (packages: PackageSet)
        ensures
            packages@ == self.packages(),
            ascending::<Package>(packages@),
    {
        self.packages.order();
        self.packages
    }
}

/// The requests start and end at these times, each no earlier than the one
/// before it allows: a request ends no earlier than it starts, and the next
/// starts no earlier than `MIN_FETCH_INTERVAL` after that end.
pub open spec fn paced(starts: Seq<int>, ends: Seq<int>) -> bool {
    &&& starts.len() == ends.len()
    &&& forall|i: int| 0 <= i < starts.len() ==> #[trigger] starts[i] <= ends[i]
    &&& forall|i: int|
        0 <= i && i + 1 < starts.len() ==> earliest_after(#[trigger] ends[i]) <= starts[i + 1]
}

/// From the start of the first of `n` paced requests to the end of the last
/// at least `n - 1` times the least interval passes, as long as the clock
/// does not run out.
pub proof fn lemma_rate_limit_floor(starts: Seq<int>, ends: Seq<int>)
    requires
        paced(starts, ends),
        starts.len() >= 1,
        forall|i: int| 0 <= i < ends.len() ==> #[trigger] ends[i] + MIN_FETCH_INTERVAL <= u64::MAX,
    ensures
        ends.last() - starts[0] >= (starts.len() - 1) * MIN_FETCH_INTERVAL,
    decreases starts.len(),
{
    let n = starts.len() as int;
    if n > 1 {
        let s = starts.drop_last();
        let e = ends.drop_last();
        assert forall|i: int| 0 <= i && i + 1 < s.len() implies earliest_after(#[trigger] e[i])
            <= s[i + 1] by {
            assert(e[i] == ends[i]);
        }
        assert forall|i: int| 0 <= i < e.len() implies #[trigger] e[i] + MIN_FETCH_INTERVAL
            <= u64::MAX by {
            assert(e[i] == ends[i]);
        }
        assert forall|i: int| 0 <= i < s.len() implies #[trigger] s[i] <= e[i] by {
            assert(s[i] == starts[i] && e[i] == ends[i]);
        }
        lemma_rate_limit_floor(s, e);
        assert(e.last() == ends[n - 2]);
        assert(s[0] == starts[0]);
        assert(earliest_after(ends[n - 2]) <= starts[n - 2 + 1]);
        assert(starts[n - 1] <= ends[n - 1]);
        assert((n - 1) * MIN_FETCH_INTERVAL == (n - 2) * MIN_FETCH_INTERVAL + MIN_FETCH_INTERVAL)
            by (nonlinear_arith);
    }
}

} // verus!
