use ipdl::closure::{Closure, ParseTree};
use ipdl::errors::{Errors, Location};
use ipdl::resolution::{include_file_name, IncludeDecl, IncludeResolver};

fn s(x: &str) -> String {
    x.to_string()
}

/// An in-memory tree of files: canonical path and the names it declares
/// (`(name, is_protocol)`), or `None` for a file that does not parse.
struct Disk {
    files: Vec<(String, Option<Vec<(String, bool)>>)>,
}

impl Disk {
    fn get(&self, path: &str) -> Option<&Option<Vec<(String, bool)>>> {
        self.files.iter().find(|f| f.0 == path).map(|f| &f.1)
    }

    fn parse(&self, path: &str) -> Result<ParseTree<String>, Errors> {
        match self.get(path) {
            Some(Some(decls)) => Ok(ParseTree {
                translation_unit: s(path),
                file_path: s(path),
                includes: decls
                    .iter()
                    .map(|(id, p)| IncludeDecl { id: id.clone(), protocol: *p })
                    .collect(),
            }),
            _ => Err(Errors::one(
                Location { file_name: s(path), lineno: 1, colno: 1 },
                s("syntax error"),
            )),
        }
    }

    fn probe(&self, dirs: &[String], name: &str) -> Vec<Option<String>> {
        dirs.iter()
            .map(|d| {
                let p = format!("{}/{}", d, name);
                if self.get(&p).is_some() {
                    Some(p)
                } else {
                    None
                }
            })
            .collect()
    }
}

/// Runs a whole walk from `root`; returns the root identity and the parsed
/// paths by identity, or the diagnostics, and the number of parses made.
fn walk(
    disk: &Disk,
    dirs: Vec<String>,
    root: &str,
) -> (Result<(usize, Vec<(usize, String)>), Errors>, usize) {
    let mut resolver = IncludeResolver::new(dirs.clone());
    let root_tree = disk.parse(root).expect("root parses");
    let canonical = if disk.get(root).is_some() { Some(s(root)) } else { None };
    let mut parses = 1;
    let mut c: Closure<String> = match Closure::start(&mut resolver, &s(root), canonical) {
        Ok(c) => c,
        Err(e) => return (Err(e), parses),
    };
    while let Some((path, _context)) = c.pending() {
        let parsed = if c.pending_is_root() {
            Ok(ParseTree {
                translation_unit: root_tree.translation_unit.clone(),
                file_path: root_tree.file_path.clone(),
                includes: root_tree
                    .includes
                    .iter()
                    .map(|d| IncludeDecl { id: d.id.clone(), protocol: d.protocol })
                    .collect(),
            })
        } else {
            parses += 1;
            disk.parse(&path)
        };
        let mut found = Vec::new();
        if let Ok(tree) = &parsed {
            for d in &tree.includes {
                let name = include_file_name(d);
                if resolver.get_include(&name).is_none() {
                    let outcomes = disk.probe(&dirs, &name);
                    found.push((name, outcomes));
                }
            }
        }
        c = match c.step(&mut resolver, parsed, &found) {
            Ok(c) => c,
            Err(e) => return (Err(e), parses),
        };
    }
    let (root_id, trees) = c.finish(&resolver);
    let listed = trees.into_iter().map(|(id, t)| (id, t.file_path)).collect();
    (Ok((root_id, listed)), parses)
}

fn file(path: &str, decls: &[(&str, bool)]) -> (String, Option<Vec<(String, bool)>>) {
    (s(path), Some(decls.iter().map(|(n, p)| (s(n), *p)).collect()))
}

#[test]
fn scenario_root_with_one_header() {
    let disk = Disk { files: vec![file("/p/A.ipdl", &[("B", false)]), file("/p/B.ipdlh", &[])] };
    let (r, parses) = walk(&disk, vec![s("/p")], "/p/A.ipdl");
    let (root, trees) = r.ok().expect("walk succeeds");
    assert_eq!(root, 0);
    assert_eq!(trees, vec![(0, s("/p/A.ipdl")), (1, s("/p/B.ipdlh"))]);
    assert_eq!(parses, 2);
}

#[test]
fn scenario_missing_header() {
    let disk = Disk { files: vec![file("/p/A.ipdl", &[("Missing", false)])] };
    let (r, _) = walk(&disk, vec![s("/p")], "/p/A.ipdl");
    let e = r.err().expect("walk fails");
    assert_eq!(e.len(), 1);
    assert_eq!(e.diagnostics[0].location.file_name, "Missing.ipdlh");
    assert_eq!(e.diagnostics[0].location.lineno, 0);
    assert_eq!(e.diagnostics[0].location.colno, 0);
    assert_eq!(e.diagnostics[0].message, "Cannot resolve include Missing.ipdlh");
}

#[test]
fn scenario_diamond_parses_shared_file_once() {
    let disk = Disk {
        files: vec![
            file("/p/A.ipdl", &[("B", false), ("C", false)]),
            file("/p/B.ipdlh", &[("D", false)]),
            file("/p/C.ipdlh", &[("D", false)]),
            file("/p/D.ipdlh", &[]),
        ],
    };
    let (r, parses) = walk(&disk, vec![s("/p")], "/p/A.ipdl");
    let (root, trees) = r.ok().expect("walk succeeds");
    assert_eq!(root, 0);
    assert_eq!(trees.len(), 4);
    assert_eq!(trees.iter().filter(|t| t.1 == "/p/D.ipdlh").count(), 1);
    assert_eq!(parses, 4);
}

#[test]
fn self_and_cyclic_inclusion_terminate() {
    let disk = Disk {
        files: vec![
            file("/p/A.ipdl", &[("A", true), ("B", false)]),
            file("/p/B.ipdlh", &[("C", false)]),
            file("/p/C.ipdlh", &[("B", false), ("A", true)]),
        ],
    };
    let (r, parses) = walk(&disk, vec![s("/p")], "/p/A.ipdl");
    let (_, trees) = r.ok().expect("walk succeeds");
    assert_eq!(trees, vec![(0, s("/p/A.ipdl")), (1, s("/p/B.ipdlh")), (2, s("/p/C.ipdlh"))]);
    assert_eq!(parses, 3);
}

#[test]
fn unresolved_names_are_batched_per_round() {
    let disk = Disk {
        files: vec![
            file("/p/A.ipdl", &[("X", false), ("B", false), ("PY", true)]),
            file("/p/B.ipdlh", &[]),
        ],
    };
    let dirs = vec![s("/p")];
    let mut resolver = IncludeResolver::new(dirs.clone());
    let root = disk.parse("/p/A.ipdl").ok().unwrap();
    let mut found = Vec::new();
    for d in &root.includes {
        let name = include_file_name(d);
        let outcomes = disk.probe(&dirs, &name);
        found.push((name, outcomes));
    }
    let c: Closure<String> = Closure::start(&mut resolver, &s("/p/A.ipdl"), Some(s("/p/A.ipdl")))
        .ok()
        .unwrap();
    let e = c.step(&mut resolver, Ok(root), &found).err().expect("round fails");
    assert_eq!(e.len(), 2);
    assert_eq!(e.diagnostics[0].location.file_name, "X.ipdlh");
    assert_eq!(e.diagnostics[1].location.file_name, "PY.ipdl");
    // the resolvable one was still resolved
    assert_eq!(resolver.get_include("B.ipdlh"), Some(1));
}

#[test]
fn errors_in_a_round_wait_for_its_end() {
    let disk = Disk {
        files: vec![
            file("/p/A.ipdl", &[("B", false), ("C", false)]),
            file("/p/B.ipdlh", &[("Gone", false)]),
            file("/p/C.ipdlh", &[("AlsoGone", false)]),
        ],
    };
    let (r, parses) = walk(&disk, vec![s("/p")], "/p/A.ipdl");
    let e = r.err().expect("walk fails");
    assert_eq!(e.len(), 2);
    assert_eq!(e.diagnostics[0].message, "Cannot resolve include Gone.ipdlh");
    assert_eq!(e.diagnostics[1].message, "Cannot resolve include AlsoGone.ipdlh");
    assert_eq!(parses, 3);
}

#[test]
fn parse_failure_ends_the_walk() {
    let disk = Disk {
        files: vec![file("/p/A.ipdl", &[("B", false)]), (s("/p/B.ipdlh"), None)],
    };
    let (r, _) = walk(&disk, vec![s("/p")], "/p/A.ipdl");
    let e = r.err().expect("walk fails");
    assert_eq!(e.len(), 1);
    assert_eq!(e.diagnostics[0].message, "syntax error");
}

#[test]
fn missing_root_gives_one_diagnostic() {
    let mut resolver = IncludeResolver::new(vec![]);
    let r: Result<Closure<String>, Errors> = Closure::start(&mut resolver, &s("nowhere.ipdl"), None);
    let e = r.err().expect("start fails");
    assert_eq!(e.len(), 1);
    assert_eq!(e.diagnostics[0].location.file_name, "nowhere.ipdl");
    assert_eq!(
        e.diagnostics[0].message,
        "can't locate file specified on the command line `nowhere.ipdl'"
    );
}

#[test]
fn search_order_across_directories() {
    let disk = Disk {
        files: vec![
            file("/root/A.ipdl", &[("S", false)]),
            file("/d1/S.ipdlh", &[]),
            file("/d2/S.ipdlh", &[]),
        ],
    };
    let (r, _) = walk(&disk, vec![s("/d1"), s("/d2")], "/root/A.ipdl");
    let (_, trees) = r.ok().unwrap();
    assert_eq!(trees[1], (1, s("/d1/S.ipdlh")));
    let (r2, _) = walk(&disk, vec![s("/d0"), s("/d2")], "/root/A.ipdl");
    let (_, trees2) = r2.ok().unwrap();
    assert_eq!(trees2[1], (1, s("/d2/S.ipdlh")));
}

#[test]
fn errors_collect_in_order() {
    let mut e = Errors::none();
    assert!(e.is_empty());
    e.append_one(Location { file_name: s("a"), lineno: 2, colno: 3 }, s("m1"));
    e.append_one(Location { file_name: s("b"), lineno: 0, colno: 0 }, s("m2"));
    assert!(!e.is_empty());
    assert_eq!(e.len(), 2);
    assert_eq!(e.diagnostics[1].message, "m2");
}

#[test]
fn pending_files_carry_their_chain() {
    let disk = Disk {
        files: vec![
            file("/p/A.ipdl", &[("B", false)]),
            file("/p/B.ipdlh", &[("C", false)]),
            file("/p/C.ipdlh", &[]),
        ],
    };
    let dirs = vec![s("/p")];
    let mut resolver = IncludeResolver::new(dirs.clone());
    let mut c: Closure<String> =
        Closure::start(&mut resolver, &s("/p/A.ipdl"), Some(s("/p/A.ipdl"))).ok().unwrap();
    let mut chains = Vec::new();
    while let Some((path, context)) = c.pending() {
        chains.push((path.clone(), context));
        let parsed = disk.parse(&path);
        let mut found = Vec::new();
        if let Ok(tree) = &parsed {
            for d in &tree.includes {
                let name = include_file_name(d);
                found.push((name.clone(), disk.probe(&dirs, &name)));
            }
        }
        c = c.step(&mut resolver, parsed, &found).ok().unwrap();
    }
    assert_eq!(
        chains,
        vec![
            (s("/p/A.ipdl"), vec![]),
            (s("/p/B.ipdlh"), vec![s("/p/A.ipdl")]),
            (s("/p/C.ipdlh"), vec![s("/p/A.ipdl"), s("/p/B.ipdlh")]),
        ]
    );
}
