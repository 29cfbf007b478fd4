use std::path::Path;

use py_launcher::finders::select_best;
use py_launcher::pythons::{
    parse_executable_path, parse_managed_root_path, parse_version_from_name, Python, VersionPad,
    UNKNOWN,
};
use py_launcher::specs::Spec::{Major, Minor};
use py_launcher::pythons::VersionPad::{Unknown, Zero};

fn file_name(p: &str) -> &str {
    Path::new(p).file_name().unwrap().to_str().unwrap()
}

fn python(version: (i16, i16, i16), order: usize) -> Python {
    Python { location: format!("/p{}", order), version, order }
}

#[test]
fn test_parse_version_from_name() {
    assert_eq!(parse_version_from_name("3.6.3", Zero), Some((3, 6, 3)));

    assert_eq!(parse_version_from_name("2.6", Zero), Some((2, 6, 0)));
    assert_eq!(parse_version_from_name("3", Zero), Some((3, 0, 0)));

    assert_eq!(parse_version_from_name("2.6", Unknown), Some((2, 6, -1)));
    assert_eq!(parse_version_from_name("3", Unknown), Some((3, -1, -1)));
}

#[test]
fn test_parse_version_from_name_trailing_garbage() {
    assert_eq!(parse_version_from_name("2.6-config", Zero), None);
}

#[test]
fn test_parse_version_from_name_dev() {
    assert_eq!(parse_version_from_name("3.8-dev", Zero), None);
}

#[test]
fn test_parse_managed_root_path() {
    assert_eq!(parse_managed_root_path(file_name("foo/3.6.1")), Some((3, 6, 1)));
    assert_eq!(parse_managed_root_path(file_name("foo/CPython-3.6.1")), Some((3, 6, 1)));
}

#[test]
fn test_parse_managed_root_path_invalid() {
    assert_eq!(parse_managed_root_path(file_name(".DS_Store")), None);
    assert_eq!(parse_managed_root_path(file_name("foo/bar/.1")), None);
}

#[test]
fn test_parse_managed_root_path_dev() {
    assert_eq!(parse_managed_root_path(file_name("foo/3.8-dev")), None);
}

#[test]
fn test_parse_managed_root_path_alternative_implementation() {
    assert_eq!(parse_managed_root_path(file_name("PyPy-2.6.1")), None);
    assert_eq!(parse_managed_root_path(file_name("pypy3.5-6.0.0")), None);
}

#[test]
fn test_parse_executable_path() {
    assert_eq!(parse_executable_path(file_name("python3.6")), Some((3, 6, -1)));
    assert_eq!(parse_executable_path(file_name("python2")), Some((2, -1, -1)));
    assert_eq!(parse_executable_path(file_name("python")), Some((-1, -1, -1)));
}

#[test]
fn test_parse_executable_path_invalid() {
    assert_eq!(parse_executable_path(file_name("2.7")), None);
    assert_eq!(parse_executable_path(file_name("python2.7-config")), None);
}

#[test]
fn test_parse_executable_path_m() {
    assert_eq!(parse_executable_path(file_name("python3.7m")), None);
}

#[test]
fn test_python_matches() {
    let python = Python { location: String::new(), version: (1, 2, 3), order: 0 };
    assert!(python.matches(&Major(1)));
    assert!(python.matches(&Minor(1, 2)));
    assert!(!python.matches(&Major(2)));
    assert!(!python.matches(&Minor(2, 2)));
}

#[test]
fn test_python_cmp() {
    let python370 = Python { location: String::new(), version: (3, 7, 0), order: 0 };
    let python371 = Python { location: String::new(), version: (3, 7, 1), order: 0 };
    assert!(python370 < python371);
}

#[test]
fn pad_values() {
    assert_eq!(VersionPad::Zero.value(), 0);
    assert_eq!(VersionPad::Unknown.value(), UNKNOWN);
    assert_eq!(UNKNOWN, -1);
}

#[test]
fn managed_name_without_prefix_in_the_middle() {
    assert_eq!(parse_managed_root_path("CPython-3"), Some((3, 0, 0)));
    assert_eq!(parse_managed_root_path("CPython-"), None);
    assert_eq!(parse_managed_root_path("3.6.1.2"), None);
    assert_eq!(parse_managed_root_path("12.34.56"), Some((12, 34, 56)));
}

#[test]
fn executable_name_more_than_two_parts_rejected() {
    assert_eq!(parse_executable_path("python3.6.1"), None);
    assert_eq!(parse_executable_path("python3."), None);
    assert_eq!(parse_executable_path("pytho"), None);
    assert_eq!(parse_executable_path("python40000"), None);
    assert_eq!(parse_executable_path("python32767"), Some((32767, -1, -1)));
}

#[test]
fn version_reading_repeats() {
    let first = parse_managed_root_path("3.6.3");
    let second = parse_managed_root_path("3.6.3");
    assert_eq!(first, second);
    assert_eq!(parse_executable_path("python3.6"), parse_executable_path("python3.6"));
}

#[test]
fn from_managed_and_from_in_path() {
    let p = Python::from_managed("CPython-3.6.1", String::from("/m/CPython-3.6.1/bin/python"), 2)
        .unwrap();
    assert_eq!(p.version, (3, 6, 1));
    assert_eq!(p.order, 2);
    assert_eq!(p.location(), "/m/CPython-3.6.1/bin/python");
    assert!(Python::from_managed(".DS_Store", String::from("/m/.DS_Store/bin/python"), 0).is_none());

    let q = Python::from_in_path("python3", String::from("/usr/bin/python3"), 5).unwrap();
    assert_eq!(q.version, (3, -1, -1));
    assert_eq!(q.location(), "/usr/bin/python3");
    assert!(Python::from_in_path("python3-config", String::from("/usr/bin/python3-config"), 5)
        .is_none());
}

#[test]
fn ordering_patch_then_order() {
    assert!(python((3, 7, 1), 0) > python((3, 7, 0), 0));
    assert!(python((3, 7, 0), 0) > python((3, 7, 0), 1));
    assert!(python((3, 7, 0), 0).ranks_above(&python((3, 7, 0), 1)));
    assert!(!python((3, 7, 0), 1).ranks_above(&python((3, 7, 0), 0)));
    assert!(python((3, 7, 0), 4) == python((3, 7, 0), 4));
    assert!(python((3, -1, -1), 0) < python((3, 0, -1), 9));
    assert!(python((-1, -1, -1), 0) < python((2, 7, 0), 9));
}

#[test]
fn select_best_keeps_earlier_on_tie() {
    let best = select_best(None, python((3, 6, 0), 1)).unwrap();
    assert_eq!(best.location, "/p1");
    let best = select_best(Some(best), python((3, 6, 0), 1)).unwrap();
    assert_eq!(best.location, "/p1");
    let best = select_best(Some(best), python((3, 7, 0), 3)).unwrap();
    assert_eq!(best.location, "/p3");
    let best = select_best(Some(best), python((3, 7, 0), 2)).unwrap();
    assert_eq!(best.location, "/p2");
}
