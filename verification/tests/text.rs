use nix_olde::available;
use nix_olde::installed;
use nix_olde::ordered::{Order, Ordered, SortedList, SortedSet};
use nix_olde::repology;
use nix_olde::text::{
    char_is_space, chars_of, clone_opt, clone_strings, compare_bytes, compare_opt_str, compare_str,
    same_str, str_before, trim,
};

fn std_order(a: &str, b: &str) -> Order {
    if a < b {
        Order::Before
    } else if a == b {
        Order::Same
    } else {
        Order::After
    }
}

const SAMPLES: [&str; 14] = [
    "",
    "a",
    "A",
    "ab",
    "abc",
    "b",
    "foo-1.0",
    "foo-1.10",
    "foo-1.9",
    "python:networkx",
    "\u{e9}",
    "z\u{e9}",
    "\u{4e2d}\u{6587}",
    "\u{1f600}",
];

#[test]
fn strings_are_ordered_as_the_standard_library_orders_them() {
    for a in SAMPLES {
        for b in SAMPLES {
            assert_eq!(compare_str(a, b), std_order(a, b), "{:?} {:?}", a, b);
            assert_eq!(str_before(a, b), a < b);
            assert_eq!(same_str(a, b), a == b);
            assert_eq!(a.to_string().compare(&b.to_string()), std_order(a, b));
        }
    }
}

#[test]
fn exact_orders_of_strings() {
    assert_eq!(compare_str("", "a"), Order::Before);
    assert_eq!(compare_str("a", ""), Order::After);
    assert_eq!(compare_str("abc", "abc"), Order::Same);
    assert_eq!(compare_str("ab", "abc"), Order::Before);
    assert_eq!(compare_str("Z", "a"), Order::Before);
    assert_eq!(compare_str("foo-1.10", "foo-1.9"), Order::Before);
    assert_eq!(compare_str("z", "\u{e9}"), Order::Before);
    assert_eq!(compare_bytes(&[1, 2, 3], &[1, 2]), Order::After);
    assert_eq!(compare_bytes(&[1, 2], &[1, 3]), Order::Before);
    assert_eq!(compare_bytes(&[], &[]), Order::Same);
    assert_eq!(compare_bytes(&[255], &[1, 1]), Order::After);
}

#[test]
fn an_absent_string_comes_before_every_string() {
    let none: Option<String> = None;
    let empty = Some("".to_string());
    let a = Some("a".to_string());
    let b = Some("b".to_string());
    assert_eq!(compare_opt_str(&none, &none), Order::Same);
    assert_eq!(compare_opt_str(&none, &empty), Order::Before);
    assert_eq!(compare_opt_str(&empty, &none), Order::After);
    assert_eq!(compare_opt_str(&a, &b), Order::Before);
    assert_eq!(compare_opt_str(&b, &a), Order::After);
    assert_eq!(compare_opt_str(&a, &a), Order::Same);
    assert_eq!(none < empty, true);
}

#[test]
fn white_space_is_what_the_standard_library_takes_for_it() {
    let mut n: u32 = 0;
    while n <= 0x3100 {
        if let Some(c) = char::from_u32(n) {
            assert_eq!(char_is_space(c), c.is_whitespace(), "{:x}", n);
        }
        n += 1;
    }
    for c in ['\u{feff}', '\u{200b}', '\u{10000}', '\u{10ffff}'] {
        assert_eq!(char_is_space(c), c.is_whitespace());
    }
}

#[test]
fn trimming_takes_the_white_space_off_both_ends() {
    assert_eq!(trim("/nix/store/abc.drv\n"), "/nix/store/abc.drv");
    assert_eq!(trim("  a b  "), "a b");
    assert_eq!(trim(""), "");
    assert_eq!(trim(" \t\r\n"), "");
    assert_eq!(trim("x"), "x");
    assert_eq!(trim("\u{a0}\u{3000}\u{e9}t\u{e9}\u{2028}"), "\u{e9}t\u{e9}");
    for s in [" a", "a ", "\n\na\tb\n", "\u{2003}wide\u{2003}", "no-space", " \u{4e2d} \u{6587} "] {
        assert_eq!(trim(s), s.trim());
    }
}

#[test]
fn the_characters_of_a_string() {
    assert_eq!(chars_of(""), Vec::<char>::new());
    assert_eq!(chars_of("a#b"), vec!['a', '#', 'b']);
    assert_eq!(
        chars_of("\u{e9}t\u{e9} \u{4e2d}\u{1f600}"),
        vec!['\u{e9}', 't', '\u{e9}', ' ', '\u{4e2d}', '\u{1f600}']
    );
}

#[test]
fn copies_are_equal_to_what_they_copy() {
    assert_eq!(clone_opt(&None), None);
    assert_eq!(clone_opt(&Some("x".to_string())), Some("x".to_string()));
    let v = vec!["a".to_string(), "".to_string(), "c".to_string()];
    assert_eq!(clone_strings(&v), v);
    assert_eq!(clone_strings(&vec![]), Vec::<String>::new());
}

#[test]
fn a_set_keeps_each_string_once_and_in_order() {
    let mut set: SortedSet<String> = SortedSet::new();
    assert!(set.is_empty());
    assert_eq!(set.insert("m".to_string()), (0, true));
    assert_eq!(set.insert("a".to_string()), (0, true));
    assert_eq!(set.insert("z".to_string()), (2, true));
    assert_eq!(set.insert("m".to_string()), (1, false));
    assert_eq!(set.insert("b".to_string()), (1, true));
    assert_eq!(set.len(), 4);
    assert_eq!(*set.as_vec(), vec!["a", "b", "m", "z"]);
    assert_eq!(set.get(2), Some(&"m".to_string()));
    assert_eq!(set.get(4), None);
    assert!(set.contains(&"b".to_string()));
    assert!(!set.contains(&"c".to_string()));
    let copy = set.duplicate();
    assert_eq!(copy, set);
}

#[test]
fn a_list_keeps_repeats_and_its_order() {
    let mut list: SortedList<String> = SortedList::new();
    assert!(list.is_empty());
    assert_eq!(list.insert("m".to_string()), 0);
    assert_eq!(list.insert("a".to_string()), 0);
    assert_eq!(list.insert("m".to_string()), 1);
    assert_eq!(list.insert("z".to_string()), 3);
    assert_eq!(list.insert("a".to_string()), 0);
    assert_eq!(list.len(), 5);
    assert_eq!(*list.as_vec(), vec!["a", "a", "m", "m", "z"]);
    assert_eq!(list.get(4), Some(&"z".to_string()));
    assert_eq!(list.get(5), None);
}

#[test]
fn packages_are_ordered_field_by_field() {
    let i = |n: &str, v: &str| installed::Package { name: n.to_string(), version: v.to_string() };
    assert_eq!(i("a", "2").compare(&i("b", "1")), Order::Before);
    assert_eq!(i("a", "2").compare(&i("a", "10")), Order::After);
    assert_eq!(i("a", "2").compare(&i("a", "2")), Order::Same);
    let a = |at: &str, n: &str, p: &str, v: &str| available::Package {
        attribute: at.to_string(),
        name: n.to_string(),
        pname: p.to_string(),
        version: v.to_string(),
    };
    assert_eq!(a("x", "z", "z", "z").compare(&a("y", "a", "a", "a")), Order::Before);
    assert_eq!(a("x", "b", "a", "a").compare(&a("x", "a", "z", "z")), Order::After);
    assert_eq!(a("x", "a", "b", "9").compare(&a("x", "a", "c", "1")), Order::Before);
    assert_eq!(a("x", "a", "b", "9").compare(&a("x", "a", "b", "1")), Order::After);
    assert_eq!(a("x", "a", "b", "1").compare(&a("x", "a", "b", "1")), Order::Same);
    let r = |k: &str, n: &str, v: Option<&str>, s: Option<&str>, l: Option<&str>| repology::Package {
        repology_name: k.to_string(),
        name: n.to_string(),
        version: v.map(|x| x.to_string()),
        status: s.map(|x| x.to_string()),
        latest: l.map(|x| x.to_string()),
    };
    assert_eq!(r("a", "z", None, None, None).compare(&r("b", "a", None, None, None)), Order::Before);
    assert_eq!(r("a", "b", None, None, None).compare(&r("a", "a", Some("1"), None, None)), Order::After);
    assert_eq!(r("a", "a", None, Some("s"), None).compare(&r("a", "a", Some(""), None, None)), Order::Before);
    assert_eq!(r("a", "a", Some("1"), Some("s"), None).compare(&r("a", "a", Some("1"), None, Some("9"))), Order::After);
    assert_eq!(r("a", "a", Some("1"), Some("s"), None).compare(&r("a", "a", Some("1"), Some("s"), Some(""))), Order::Before);
    assert_eq!(r("a", "a", Some("1"), Some("s"), Some("2")).compare(&r("a", "a", Some("1"), Some("s"), Some("2"))), Order::Same);
}
