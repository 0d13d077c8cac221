use nix_olde::error::OldeError;
use nix_olde::fetch::{Fetcher, Request, MAX_PAGES, MIN_FETCH_INTERVAL};
use nix_olde::repology::{
    cursor_after, decode_page, insert_page, last_name, latest_version, parse_page, Entry, Package,
    PackageSet, Page, Project,
};

fn entry(repo: &str, name: Option<&str>, version: Option<&str>, status: Option<&str>) -> Entry {
    Entry {
        repo: repo.to_string(),
        visiblename: name.map(|s| s.to_string()),
        version: version.map(|s| s.to_string()),
        status: status.map(|s| s.to_string()),
    }
}

fn project(name: &str, entries: Vec<Entry>) -> Project {
    Project { name: name.to_string(), entries }
}

fn page(projects: Vec<Project>) -> Page {
    let mut page = Page::new();
    for p in projects {
        page.insert(p);
    }
    page
}

fn package(
    repology_name: &str,
    name: &str,
    version: Option<&str>,
    status: Option<&str>,
    latest: Option<&str>,
) -> Package {
    Package {
        repology_name: repology_name.to_string(),
        name: name.to_string(),
        version: version.map(|s| s.to_string()),
        status: status.map(|s| s.to_string()),
        latest: latest.map(|s| s.to_string()),
    }
}

fn page_text(names: &[&str]) -> Vec<u8> {
    let projects: Vec<String> = names
        .iter()
        .map(|n| {
            format!(
                "\"{}\": [{{\"repo\": \"nix_unstable\", \"visiblename\": \"{}\", \
                 \"version\": \"1\", \"status\": \"outdated\"}}, \
                 {{\"repo\": \"debian\", \"version\": \"2\", \"status\": \"newest\"}}]",
                n, n
            )
        })
        .collect();
    format!("{{{}}}", projects.join(", ")).into_bytes()
}

fn url_at(fetcher: &Fetcher) -> String {
    fetcher.poll(false, 0).unwrap().url
}

#[test]
fn the_first_request_asks_for_the_head_of_the_listing() {
    let fetcher = Fetcher::new("nix_unstable".to_string(), 7);
    assert_eq!(
        fetcher.poll(false, 7),
        Ok(Request {
            url: "https://repology.org/api/v1/projects/?inrepo=nix_unstable&outdated=1".to_string(),
            wait: 0,
        })
    );
}

#[test]
fn a_retrieval_that_was_called_off_fails() {
    let fetcher = Fetcher::new("nix_unstable".to_string(), 0);
    assert_eq!(fetcher.poll(true, 0), Err(OldeError::Canceled("Repology fetch".to_string())));
}

#[test]
fn a_retrieval_is_called_off_between_pages_too() {
    let mut fetcher = Fetcher::new("nix_unstable".to_string(), 0);
    assert_eq!(fetcher.accept(Ok(page_text(&["a", "b"])), 10), Ok(true));
    assert_eq!(fetcher.poll(true, 10), Err(OldeError::Canceled("Repology fetch".to_string())));
}

#[test]
fn three_pages_end_when_the_third_leads_no_further() {
    let mut fetcher = Fetcher::new("nix_unstable".to_string(), 0);
    assert_eq!(url_at(&fetcher), "https://repology.org/api/v1/projects/?inrepo=nix_unstable&outdated=1");
    assert_eq!(fetcher.accept(Ok(page_text(&["a", "b", "c"])), 1), Ok(true));
    assert_eq!(
        url_at(&fetcher),
        "https://repology.org/api/v1/projects/c/?inrepo=nix_unstable&outdated=1"
    );
    assert_eq!(fetcher.accept(Ok(page_text(&["c", "d", "e"])), 2), Ok(true));
    assert_eq!(
        url_at(&fetcher),
        "https://repology.org/api/v1/projects/e/?inrepo=nix_unstable&outdated=1"
    );
    assert_eq!(fetcher.accept(Ok(page_text(&["e"])), 3), Ok(false));
    let names: Vec<String> =
        fetcher.finish().as_vec().iter().map(|p| p.repology_name.clone()).collect();
    assert_eq!(names, vec!["a", "b", "c", "d", "e"]);
}

#[test]
fn an_empty_first_page_ends_the_retrieval() {
    let mut fetcher = Fetcher::new("nix_unstable".to_string(), 0);
    assert_eq!(fetcher.accept(Ok(b"{}".to_vec()), 1), Ok(false));
    assert!(fetcher.finish().is_empty());
}

#[test]
fn a_request_waits_until_a_second_after_the_last_one_ended() {
    let mut fetcher = Fetcher::new("nix_unstable".to_string(), 100);
    assert_eq!(fetcher.poll(false, 100).unwrap().wait, 0);
    assert_eq!(fetcher.poll(false, 50).unwrap().wait, 50);
    fetcher.accept(Ok(page_text(&["a"])), 5_000).unwrap();
    assert_eq!(MIN_FETCH_INTERVAL, 1_000_000_000);
    assert_eq!(fetcher.poll(false, 5_000).unwrap().wait, 1_000_000_000);
    assert_eq!(fetcher.poll(false, 400_005_000).unwrap().wait, 600_000_000);
    assert_eq!(fetcher.poll(false, 1_000_005_000).unwrap().wait, 0);
    assert_eq!(fetcher.poll(false, 2_000_000_000).unwrap().wait, 0);
}

#[test]
fn paced_requests_take_their_time() {
    let mut fetcher = Fetcher::new("nix_unstable".to_string(), 0);
    let mut now: u64 = 0;
    let mut first_start = None;
    let pages = [vec!["a"], vec!["b"], vec!["c"], vec!["c"]];
    let mut taken = 0;
    for page in &pages {
        let request = fetcher.poll(false, now).unwrap();
        now += request.wait;
        first_start.get_or_insert(now);
        now += 25;
        taken += 1;
        if !fetcher.accept(Ok(page_text(page)), now).unwrap() {
            break;
        }
    }
    assert_eq!(taken, 4);
    assert!(now - first_start.unwrap() >= 3 * MIN_FETCH_INTERVAL);
    assert_eq!(now, 3 * MIN_FETCH_INTERVAL + 4 * 25);
}

#[test]
fn the_time_of_the_next_request_stops_at_the_end_of_the_clock() {
    let mut fetcher = Fetcher::new("nix_unstable".to_string(), 0);
    fetcher.accept(Ok(page_text(&["a"])), u64::MAX - 5).unwrap();
    assert_eq!(fetcher.poll(false, u64::MAX - 5).unwrap().wait, 5);
    assert_eq!(fetcher.poll(false, u64::MAX).unwrap().wait, 0);
}

#[test]
fn a_failed_request_ends_the_retrieval_with_its_failure() {
    let mut fetcher = Fetcher::new("nix_unstable".to_string(), 0);
    let failure = OldeError::CommandFailed {
        cmd: vec!["curl".to_string()],
        status: Some(22),
        stdout: b"too many requests".to_vec(),
        stderr: b"curl: (22)".to_vec(),
    };
    let same = OldeError::CommandFailed {
        cmd: vec!["curl".to_string()],
        status: Some(22),
        stdout: b"too many requests".to_vec(),
        stderr: b"curl: (22)".to_vec(),
    };
    assert_eq!(fetcher.accept(Err(failure), 1), Err(same));
    assert_eq!(fetcher.poll(false, 0).unwrap().wait, 0);
}

#[test]
fn a_response_that_is_no_page_ends_the_retrieval() {
    let mut fetcher = Fetcher::new("nix_unstable".to_string(), 0);
    assert!(matches!(fetcher.accept(Ok(b"<html>".to_vec()), 1), Err(OldeError::JSONError(_))));
    assert!(matches!(fetcher.accept(Ok(b"[1, 2]".to_vec()), 1), Err(OldeError::JSONError(_))));
    assert!(matches!(
        fetcher.accept(Ok(b"{\"a\": [{\"version\": \"1\"}]}".to_vec()), 1),
        Err(OldeError::JSONError(_))
    ));
    assert!(matches!(
        fetcher.accept(Ok(b"{\"a\": [{\"repo\": \"r\", \"version\": 1}]}".to_vec()), 1),
        Err(OldeError::JSONError(_))
    ));
    assert!(fetcher.finish().is_empty());
}

#[test]
fn a_listing_that_leads_on_without_end_is_left_after_its_fill_of_pages() {
    assert_eq!(MAX_PAGES, 1_000_000);
    let mut fetcher = Fetcher::new("nix_unstable".to_string(), 0);
    let pages = [page(vec![project("a", vec![])]), page(vec![project("b", vec![])])];
    let mut taken: u64 = 0;
    loop {
        let more = fetcher.accept_page(&pages[(taken % 2) as usize], taken);
        taken += 1;
        if !more {
            break;
        }
        assert!(taken < MAX_PAGES);
    }
    assert_eq!(taken, MAX_PAGES);
    assert!(!fetcher.accept_page(&pages[0], taken));
}

#[test]
fn the_repository_is_part_of_the_address_and_of_the_choice() {
    let mut fetcher = Fetcher::new("debian".to_string(), 0);
    assert_eq!(url_at(&fetcher), "https://repology.org/api/v1/projects/?inrepo=debian&outdated=1");
    let text = b"{\"foo\": [
        {\"repo\": \"nix_unstable\", \"visiblename\": \"foo-nix\", \"version\": \"1\", \"status\": \"outdated\"},
        {\"repo\": \"debian\", \"visiblename\": \"foo-deb\", \"version\": \"2\", \"status\": \"newest\"}
    ]}";
    assert_eq!(fetcher.accept(Ok(text.to_vec()), 1), Ok(true));
    assert_eq!(
        *fetcher.finish().as_vec(),
        vec![package("foo", "foo-deb", Some("2"), Some("newest"), Some("2"))]
    );
}

#[test]
fn a_page_is_read_from_its_text() {
    let text = b"{
        \"python:networkx\": [
            {\"repo\": \"nix_unstable\", \"visiblename\": \"python3.10-networkx\",
             \"version\": \"2.8.6\", \"status\": \"outdated\", \"maintainers\": [\"x@y\"], \"srcname\": null},
            {\"repo\": \"arch\", \"visiblename\": null, \"version\": \"3.0\", \"status\": \"newest\"},
            {\"repo\": \"aur\"}
        ],
        \"zlib\": []
    }";
    let page = parse_page(text).unwrap();
    assert_eq!(
        *page.as_vec(),
        vec![
            project(
                "python:networkx",
                vec![
                    entry("nix_unstable", Some("python3.10-networkx"), Some("2.8.6"), Some("outdated")),
                    entry("arch", None, Some("3.0"), Some("newest")),
                    entry("aur", None, None, None),
                ]
            ),
            project("zlib", vec![]),
        ]
    );
}

#[test]
fn a_page_must_have_the_form_of_a_page() {
    for text in [
        &b"not json"[..],
        b"",
        b"[]",
        b"\"text\"",
        b"{\"a\": {}}",
        b"{\"a\": [[]]}",
        b"{\"a\": [{}]}",
        b"{\"a\": [{\"repo\": null}]}",
        b"{\"a\": [{\"repo\": \"r\", \"status\": []}]}",
        b"{\"a\": [{\"repo\": \"r\", \"visiblename\": true}]}",
        b"{\"a\": [{\"repo\": \"r\"}], \"b\": 5}",
        b"{\"a\": []} trailing",
    ] {
        assert!(matches!(parse_page(text), Err(OldeError::JSONError(_))), "{:?}", text);
    }
}

#[test]
fn reading_a_page_from_json_agrees_with_reading_it_from_text() {
    let text = b"{\"a\": [{\"repo\": \"r\", \"version\": \"1\"}]}";
    let json = nix_olde::json::parse(text).unwrap();
    assert_eq!(decode_page(&json), parse_page(text));
}

#[test]
fn the_latest_version_is_that_of_the_first_entry_that_is_newest_or_unique() {
    assert_eq!(latest_version(&vec![]), None);
    assert_eq!(
        latest_version(&vec![
            entry("a", None, Some("1"), Some("outdated")),
            entry("b", None, Some("3"), Some("newest")),
            entry("c", None, Some("4"), Some("unique")),
            entry("d", None, Some("5"), Some("newest")),
        ]),
        Some("3".to_string())
    );
    assert_eq!(
        latest_version(&vec![
            entry("a", None, Some("1"), None),
            entry("c", None, Some("4"), Some("unique")),
            entry("b", None, Some("3"), Some("newest")),
        ]),
        Some("4".to_string())
    );
    assert_eq!(
        latest_version(&vec![
            entry("a", None, Some("1"), Some("Newest")),
            entry("b", None, Some("2"), Some("devel")),
            entry("c", None, Some("3"), Some("legacy")),
        ]),
        None
    );
    assert_eq!(
        latest_version(&vec![
            entry("a", None, None, Some("newest")),
            entry("b", None, Some("2"), Some("newest")),
        ]),
        None
    );
}

#[test]
fn entries_of_other_repositories_and_entries_without_a_name_give_no_package() {
    let mut set = PackageSet::new();
    let one = page(vec![project(
        "foo",
        vec![
            entry("nix_unstable", Some("foo"), Some("1.0"), Some("outdated")),
            entry("nix_unstable", None, Some("1.1"), Some("outdated")),
            entry("debian", Some("foo-deb"), Some("2.0"), Some("newest")),
            entry("nix_unstable", Some("foo-bin"), None, None),
        ],
    )]);
    insert_page(&mut set, "nix_unstable", &one);
    assert_eq!(
        *set.as_vec(),
        vec![
            package("foo", "foo", Some("1.0"), Some("outdated"), Some("2.0")),
            package("foo", "foo-bin", None, None, Some("2.0")),
        ]
    );
}

#[test]
fn packages_of_one_project_share_the_latest_version() {
    let mut set = PackageSet::new();
    let two = page(vec![
        project(
            "pycrypto",
            vec![
                entry("nix_unstable", Some("python-pycrypto"), Some("2.6"), Some("outdated")),
                entry("nix_unstable", Some("python-pycryptodome"), Some("3.1"), Some("outdated")),
                entry("gentoo", Some("pycrypto"), Some("3.9"), Some("newest")),
                entry("nix_unstable", Some("pycrypto-old"), Some("1.0"), Some("legacy")),
            ],
        ),
        project("solo", vec![entry("nix_unstable", Some("solo"), Some("1"), Some("unique"))]),
    ]);
    insert_page(&mut set, "nix_unstable", &two);
    assert_eq!(set.len(), 4);
    for p in set.as_vec() {
        if p.repology_name == "pycrypto" {
            assert_eq!(p.latest, Some("3.9".to_string()));
        } else {
            assert_eq!(p.latest, Some("1".to_string()));
        }
    }
}

#[test]
fn a_package_that_comes_twice_is_kept_once() {
    let mut fetcher = Fetcher::new("nix_unstable".to_string(), 0);
    assert_eq!(fetcher.accept(Ok(page_text(&["a", "b"])), 1), Ok(true));
    assert_eq!(fetcher.accept(Ok(page_text(&["b", "c"])), 2), Ok(true));
    assert_eq!(fetcher.accept(Ok(page_text(&["c"])), 3), Ok(false));
    let set = fetcher.finish();
    assert_eq!(
        *set.as_vec(),
        vec![
            package("a", "a", Some("1"), Some("outdated"), Some("2")),
            package("b", "b", Some("1"), Some("outdated"), Some("2")),
            package("c", "c", Some("1"), Some("outdated"), Some("2")),
        ]
    );
}

#[test]
fn a_page_holds_each_project_once_and_in_order() {
    let first = project("b", vec![entry("r", None, Some("1"), None)]);
    let same = project("b", vec![entry("r", None, Some("1"), None)]);
    let second = project("b", vec![entry("r", None, Some("2"), None)]);
    let some = page(vec![project("c", vec![]), first, second, project("a", vec![])]);
    assert_eq!(*some.as_vec(), vec![project("a", vec![]), same, project("c", vec![])]);
}

#[test]
fn the_next_page_starts_behind_the_last_name_of_the_page() {
    let some = page(vec![project("m", vec![]), project("z", vec![]), project("a", vec![])]);
    assert_eq!(last_name(&some), Some(&"z".to_string()));
    assert_eq!(cursor_after(&"k/".to_string(), &some), "z/");
    assert_eq!(last_name(&Page::new()), None);
    assert_eq!(cursor_after(&"k/".to_string(), &Page::new()), "k/");
    assert_eq!(cursor_after(&"".to_string(), &Page::new()), "");
    let upper = page(vec![project("Z", vec![]), project("a", vec![]), project("\u{e9}", vec![])]);
    assert_eq!(cursor_after(&"".to_string(), &upper), "\u{e9}/");
}
