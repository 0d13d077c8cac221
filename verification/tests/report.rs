use nix_olde::available;
use nix_olde::installed;
use nix_olde::ordered::SortedSet;
use nix_olde::reconcile::{reconcile, Report, Row};
use nix_olde::report::{missing_notice, render_row, render_rows, summary, Notice, Summary};
use nix_olde::repology;

fn set(items: &[&str]) -> SortedSet<String> {
    let mut s = SortedSet::new();
    for i in items {
        s.insert(i.to_string());
    }
    s
}

fn sample() -> (Report, usize) {
    let mut installed = installed::PackageSet::new();
    for (n, v) in [("foo-1.0", "1.0"), ("bar-2", "2"), ("gone-1", "1"), ("lost-1", "1")] {
        installed.insert(installed::Package { name: n.to_string(), version: v.to_string() });
    }
    let mut available = available::PackageSet::new();
    for (at, n, p, v) in [("pkgs.foo", "foo-1.0", "foo", "1.0"), ("pkgs.bar", "bar-2", "bar", "2")] {
        available.insert(available::Package {
            attribute: at.to_string(),
            name: n.to_string(),
            pname: p.to_string(),
            version: v.to_string(),
        });
    }
    let mut upstream = repology::PackageSet::new();
    for (k, n, v, l) in [("foo", "foo", "1.0", "2.0"), ("bar", "bar", "2", "3")] {
        upstream.insert(repology::Package {
            repology_name: k.to_string(),
            name: n.to_string(),
            version: Some(v.to_string()),
            status: Some("outdated".to_string()),
            latest: Some(l.to_string()),
        });
    }
    let count = installed.len();
    (reconcile(&installed, &available, &upstream), count)
}

#[test]
fn a_row_is_shown_as_one_line_of_json() {
    let row = Row {
        repology_name: "foo".to_string(),
        latest: Some("2.0".to_string()),
        versions: set(&["1.0"]),
        attributes: set(&["pkgs.foo"]),
    };
    assert_eq!(
        render_row(&row),
        "{\"attribute\":[\"pkgs.foo\"],\"nixpkgs_version\":[\"1.0\"],\
         \"repology_name\":\"foo\",\"repology_version\":\"2.0\"}"
    );
}

#[test]
fn a_row_with_several_versions_and_characters_to_escape() {
    let row = Row {
        repology_name: "python:net\"workx\\".to_string(),
        latest: Some("3.0\n".to_string()),
        versions: set(&["2.8.6", "2.8.5"]),
        attributes: set(&["p.b", "p.a", "p.\u{e9}"]),
    };
    assert_eq!(
        render_row(&row),
        "{\"attribute\":[\"p.a\",\"p.b\",\"p.\u{e9}\"],\"nixpkgs_version\":[\"2.8.5\",\"2.8.6\"],\
         \"repology_name\":\"python:net\\\"workx\\\\\",\"repology_version\":\"3.0\\n\"}"
    );
}

#[test]
fn a_row_without_a_latest_version_shows_a_marker() {
    let row = Row {
        repology_name: "foo".to_string(),
        latest: None,
        versions: set(&[]),
        attributes: set(&[]),
    };
    assert_eq!(
        render_row(&row),
        "{\"attribute\":[],\"nixpkgs_version\":[],\
         \"repology_name\":\"foo\",\"repology_version\":\"<none>\"}"
    );
}

#[test]
fn the_line_of_a_row_is_json_that_holds_the_row() {
    let row = Row {
        repology_name: "foo".to_string(),
        latest: Some("2.0".to_string()),
        versions: set(&["1.0", "1.1"]),
        attributes: set(&["pkgs.foo"]),
    };
    let value: serde_json::Value = serde_json::from_str(&render_row(&row)).unwrap();
    assert_eq!(value["repology_name"], "foo");
    assert_eq!(value["repology_version"], "2.0");
    assert_eq!(value["nixpkgs_version"][0], "1.0");
    assert_eq!(value["nixpkgs_version"][1], "1.1");
    assert_eq!(value["attribute"][0], "pkgs.foo");
    assert_eq!(value.as_object().unwrap().len(), 4);
}

#[test]
fn the_lines_of_a_report_follow_its_rows() {
    let (report, _) = sample();
    assert_eq!(
        render_rows(&report),
        vec![
            "{\"attribute\":[\"pkgs.bar\"],\"nixpkgs_version\":[\"2\"],\
             \"repology_name\":\"bar\",\"repology_version\":\"3\"}"
                .to_string(),
            "{\"attribute\":[\"pkgs.foo\"],\"nixpkgs_version\":[\"1.0\"],\
             \"repology_name\":\"foo\",\"repology_version\":\"2.0\"}"
                .to_string(),
        ]
    );
}

#[test]
fn there_is_a_summary_only_if_something_is_outdated() {
    let (report, count) = sample();
    assert_eq!(summary(&report, count), Some(Summary { outdated: 2, installed: 4 }));
    let nothing = reconcile(
        &installed::PackageSet::new(),
        &available::PackageSet::new(),
        &repology::PackageSet::new(),
    );
    assert_eq!(summary(&nothing, 0), None);
    assert_eq!(summary(&nothing, 17), None);
    assert_eq!(render_rows(&nothing), Vec::<String>::new());
}

#[test]
fn missing_packages_are_counted_or_named() {
    let (report, _) = sample();
    assert_eq!(missing_notice(&report, false), Notice::Count(2));
    assert_eq!(
        missing_notice(&report, true),
        Notice::Names(vec!["gone-1".to_string(), "lost-1".to_string()])
    );
    let nothing = reconcile(
        &installed::PackageSet::new(),
        &available::PackageSet::new(),
        &repology::PackageSet::new(),
    );
    assert_eq!(missing_notice(&nothing, false), Notice::Nothing);
    assert_eq!(missing_notice(&nothing, true), Notice::Names(vec![]));
}
