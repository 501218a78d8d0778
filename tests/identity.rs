use ipdl::file_map::TUIdFileMap;
use ipdl::resolution::{include_file_name, IncludeDecl, IncludeResolver};

fn s(x: &str) -> String {
    x.to_string()
}

#[test]
fn identity_is_stable_and_dense() {
    let mut m = TUIdFileMap::new();
    let a = m.resolve_file_name(&s("/src/A.ipdl"));
    let b = m.resolve_file_name(&s("/src/B.ipdlh"));
    let a2 = m.resolve_file_name(&s("/src/A.ipdl"));
    assert_eq!(a, 0);
    assert_eq!(b, 1);
    assert_eq!(a2, a);
    assert_ne!(a, b);
    assert_eq!(m.len(), 2);
    assert_eq!(m.get_tuid(&s("/src/B.ipdlh")), Some(1));
    assert_eq!(m.get_tuid(&s("/src/C.ipdlh")), None);
    assert_eq!(m.path_of(1), &s("/src/B.ipdlh"));
}

#[test]
fn lookup_does_not_allocate() {
    let m = TUIdFileMap::new();
    assert_eq!(m.get_tuid(&s("/x")), None);
    assert_eq!(m.len(), 0);
}

#[test]
fn file_names_get_their_suffix() {
    let p = IncludeDecl { id: s("PFoo"), protocol: true };
    let h = IncludeDecl { id: s("Bar"), protocol: false };
    assert_eq!(include_file_name(&p), "PFoo.ipdl");
    assert_eq!(include_file_name(&h), "Bar.ipdlh");
}

#[test]
fn first_directory_wins() {
    let mut r = IncludeResolver::new(vec![s("/d1"), s("/d2")]);
    let found = vec![Some(s("/d1/X.ipdlh")), Some(s("/d2/X.ipdlh"))];
    let id = r.resolve_include("X.ipdlh", &found);
    assert_eq!(id, Some(0));
    assert_eq!(r.file_path(0), &s("/d1/X.ipdlh"));
}

#[test]
fn later_directory_used_when_earlier_lacks_file() {
    let mut r = IncludeResolver::new(vec![s("/d1"), s("/d2")]);
    let _ = r.resolve_file_name(&s("/root/A.ipdl"));
    let found = vec![None, Some(s("/d2/X.ipdlh"))];
    let id = r.resolve_include("X.ipdlh", &found);
    assert_eq!(id, Some(1));
    assert_eq!(r.file_path(1), &s("/d2/X.ipdlh"));
}

#[test]
fn unresolved_name_is_not_cached() {
    let mut r = IncludeResolver::new(vec![s("/d1")]);
    assert_eq!(r.resolve_include("Missing.ipdlh", &vec![None]), None);
    assert_eq!(r.get_include("Missing.ipdlh"), None);
    assert_eq!(r.resolve_include("Missing.ipdlh", &vec![]), None);
}

#[test]
fn cached_name_skips_probing() {
    let mut r = IncludeResolver::new(vec![s("/d1"), s("/d2")]);
    assert_eq!(r.get_include("X.ipdlh"), None);
    let first = r.resolve_include("X.ipdlh", &vec![None, Some(s("/d2/X.ipdlh"))]);
    let again = r.resolve_include("X.ipdlh", &vec![Some(s("/d1/X.ipdlh")), None]);
    assert_eq!(first, again);
    assert_eq!(r.get_include("X.ipdlh"), first);
    let other = r.resolve_include("Y.ipdlh", &vec![None, Some(s("/d2/Y.ipdlh"))]);
    assert_eq!(other, Some(1));
    assert_eq!(r.include_dirs(), &vec![s("/d1"), s("/d2")]);
}

#[test]
fn two_names_for_one_file_share_an_identity() {
    let mut r = IncludeResolver::new(vec![s("/d1")]);
    let a = r.resolve_include("A.ipdlh", &vec![Some(s("/real/A.ipdlh"))]);
    let b = r.resolve_include("Alias.ipdlh", &vec![Some(s("/real/A.ipdlh"))]);
    assert_eq!(a, b);
}
