use py_launcher::launcher::{default_lookup, get_invocation, resolve_spec, DefaultLookup, Invocation};
use py_launcher::specs::Spec;

fn args(list: &[&str]) -> Vec<String> {
    list.iter().map(|a| a.to_string()).collect()
}

#[test]
fn invocation_from_arguments() {
    assert_eq!(get_invocation(&args(&[])), Invocation::Default);
    assert_eq!(get_invocation(&args(&["-h"])), Invocation::Help);
    assert_eq!(get_invocation(&args(&["--help"])), Invocation::Help);
    assert_eq!(get_invocation(&args(&["-h", "x"])), Invocation::Default);
    assert_eq!(get_invocation(&args(&["-3"])), Invocation::Spec(Spec::Major(3)));
    assert_eq!(get_invocation(&args(&["-2.7", "script.py"])), Invocation::Spec(Spec::Minor(2, 7)));
    assert_eq!(get_invocation(&args(&["script.py"])), Invocation::Default);
    assert_eq!(get_invocation(&args(&["-help"])), Invocation::Default);
}

#[test]
fn lookup_by_hint() {
    assert_eq!(default_lookup(Some(Spec::Minor(3, 6))), DefaultLookup::Unneeded);
    assert_eq!(default_lookup(Some(Spec::Major(3))), DefaultLookup::ForMajor(3));
    assert_eq!(default_lookup(None), DefaultLookup::General);
}

#[test]
fn resolve_from_configuration() {
    assert_eq!(resolve_spec(Some(Spec::Minor(3, 6)), Some("2.7")), Some(Spec::Minor(3, 6)));
    assert_eq!(resolve_spec(Some(Spec::Major(3)), None), Some(Spec::Major(3)));
    assert_eq!(resolve_spec(Some(Spec::Major(3)), Some("3.6")), Some(Spec::Minor(3, 6)));
    assert_eq!(resolve_spec(Some(Spec::Major(3)), Some("bogus")), None);
    assert_eq!(resolve_spec(None, None), None);
    assert_eq!(resolve_spec(None, Some("2")), Some(Spec::Major(2)));
    assert_eq!(resolve_spec(None, Some("3.7.")), None);
}
