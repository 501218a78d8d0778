use vstd::prelude::*;
use vstd::set_lib::{lemma_int_range, lemma_len_subset, set_int_range};
use vstd::string::StringExecFns;
use crate::errors::{DiagnosticView, Errors, Location};
use crate::file_map::{TUId, tuid_in, with_path};
use crate::resolution::{IncludeDecl, IncludeResolver, cache_lookup, file_name_of, include_file_name, resolution};

verus! {

/// What the parser makes of one source file: its translation unit (opaque to
/// this library), the path it was read from, and its inclusion statements in
/// order.
pub struct ParseTree<T> {
    pub translation_unit: T,
    pub file_path: String,
    pub includes: Vec<IncludeDecl>,
}

/// The probe outcomes listed for `name` in `table` (the first entry with that
/// name), or none at all when the table does not list it.
pub open spec fn probe_of(table: Seq<(String, Vec<Option<String>>)>, name: Seq<char>) -> Seq<Option<String>>
    decreases table.len(),
{
    if table.len() == 0 {
        Seq::empty()
    } else if table[0].0@ == name {
        table[0].1@
    } else {
        probe_of(table.drop_first(), name)
    }
}

/// The file name that a declaration refers to.
pub open spec fn decl_name(d: IncludeDecl) -> Seq<char> {
    file_name_of(d.id@, d.protocol)
}

/// Among `decls`, some declaration before position `upto` resolves in `r` to
/// `a`, and no declaration up to that one resolves to `b`: `a` is reached
/// first.
pub open spec fn reached_before(r: &IncludeResolver, decls: Seq<IncludeDecl>, a: TUId, b: TUId, upto: int) -> bool {
    exists|j: int|
        0 <= j < upto && r.lookup(decl_name(#[trigger] decls[j])) == Some(a) && forall|j2: int|
            0 <= j2 <= j ==> r.lookup(decl_name(#[trigger] decls[j2])) != Some(b)
}

/// Whether a declaration resolves, given the name cache and the probe table.
pub open spec fn decl_resolves(
    c: Seq<(Seq<char>, Seq<char>)>,
    table: Seq<(String, Vec<Option<String>>)>,
    d: IncludeDecl,
) -> bool {
    resolution(c, decl_name(d), probe_of(table, decl_name(d))).is_some()
}

/// The diagnostic raised for a file name that resolves nowhere.
pub open spec fn unresolved_diagnostic(name: Seq<char>) -> DiagnosticView {
    (name, 0usize, 0usize, "Cannot resolve include "@ + name)
}

/// The diagnostic raised when the root file cannot be located.
pub open spec fn missing_root_diagnostic(root: Seq<char>) -> DiagnosticView {
    (root, 0usize, 0usize, "can't locate file specified on the command line `"@ + root + "'"@)
}

/// One diagnostic for each declaration of `decls` that does not resolve, in
/// declaration order.
pub open spec fn unresolved(
    c: Seq<(Seq<char>, Seq<char>)>,
    table: Seq<(String, Vec<Option<String>>)>,
    decls: Seq<IncludeDecl>,
) -> Seq<DiagnosticView>
    decreases decls.len(),
{
    if decls.len() == 0 {
        Seq::empty()
    } else {
        let rest = unresolved(c, table, decls.drop_last());
        if decl_resolves(c, table, decls.last()) {
            rest
        } else {
            rest.push(unresolved_diagnostic(decl_name(decls.last())))
        }
    }
}

/// Every declaration of `tree` is cached in `r` as resolving to an identity
/// listed in `ids`.
pub open spec fn closed_over<T>(r: &IncludeResolver, ids: Seq<TUId>, tree: ParseTree<T>) -> bool {
    forall|j: int|
        0 <= j < tree.includes@.len() ==> ((#[trigger] r.lookup(decl_name(tree.includes@[j]))) matches Some(t)
            && ids.contains(t))
}

proof fn lemma_closed_over_grows<T>(
    r1: &IncludeResolver,
    r2: &IncludeResolver,
    v1: Seq<TUId>,
    v2: Seq<TUId>,
    tree: ParseTree<T>,
)
    requires
        closed_over(r1, v1, tree),
        r1.grows_to(r2),
        v1.is_prefix_of(v2),
    ensures
        closed_over(r2, v2, tree),
{
    assert forall|j: int| 0 <= j < tree.includes@.len() implies ((#[trigger] r2.lookup(
        decl_name(tree.includes@[j]))) matches Some(t) && v2.contains(t)) by {
        let n = decl_name(tree.includes@[j]);
        assert(r1.lookup(n).is_some());
        let t = r1.lookup(n).unwrap();
        let k = choose|k: int| 0 <= k < v1.len() && v1[k] == t;
        assert(v2[k] == t);
    }
}

/// The position of the first entry of `found` listing `name`.
fn probe_index(found: &Vec<(String, Vec<Option<String>>)>, name: &String) -> (r: Option<usize>)
    ensures
        match r {
            Some(i) => i < found@.len() && found@[i as int].1@ == probe_of(found@, name@),
            None => probe_of(found@, name@) == Seq::<Option<String>>::empty(),
        },
{
    let mut i: usize = 0;
    assert(found@.subrange(0, found@.len() as int) =~= found@);
    while i < found.len()
        invariant
            i <= found.len(),
            probe_of(found@, name@) == probe_of(found@.subrange(i as int, found@.len() as int), name@),
        decreases found.len() - i,
    {
        assert(found@.subrange(i as int, found@.len() as int).drop_first() =~= found@.subrange(
            i + 1,
            found@.len() as int,
        ));
        if found[i].0 == *name {
            return Some(i);
        }
        i += 1;
    }
    assert(found@.subrange(i as int, found@.len() as int).len() == 0);
    None
}

/// A copy of a list of paths.
fn copy_paths(v: &Vec<String>) -> (r: Vec<String>)
    ensures
        r@.map_values(|s: String| s@) == v@.map_values(|s: String| s@),
{
    let mut r: Vec<String> = Vec::new();
    let mut i: usize = 0;
    while i < v.len()
        invariant
            i <= v.len(),
            r@.len() == i,
            forall|j: int| 0 <= j < i ==> (#[trigger] r@[j])@ == v@[j]@,
        decreases v.len() - i,
    {
        let x = v[i].clone();
        assert(x@ == v@[i as int]@);
        let ghost r_old = r@;
        r.push(x);
        assert(r@ == r_old.push(x));
        i += 1;
    }
    assert(r@.map_values(|s: String| s@) =~= v@.map_values(|s: String| s@));
    r
}

/// Whether `id` occurs in `ids`.
fn contains_id(ids: &Vec<TUId>, id: TUId) -> (r: bool)
    ensures
        r == ids@.contains(id),
{
    let mut i: usize = 0;
    while i < ids.len()
        invariant
            i <= ids.len(),
            forall|k: int| 0 <= k < i ==> ids@[k] != id,
        decreases ids.len() - i,
    {
        if ids[i] == id {
            return true;
        }
        i += 1;
    }
    false
}

/// A file waiting to be parsed: its identity, its canonical path, and the
/// chain of files through which it was reached.
pub struct WorkItem {
    pub id: TUId,
    pub path: String,
    pub context: Vec<String>,
}

/// A breadth-first walk over the files reachable from a root through
/// inclusion statements, taken one file at a time. The caller parses each
/// pending file and probes the search directories for the names it declares;
/// the walk decides what is resolved, what is queued next and when to stop.
pub struct Closure<T> {
    root_id: TUId,
    work: Vec<WorkItem>,
    round_left: usize,
    visited: Vec<TUId>,
    parsed: Vec<(TUId, ParseTree<T>)>,
    errors: Errors,
}

impl<T> Closure<T> {
    /// The root's identity.
    pub closed spec fn root(&self) -> TUId {
        self.root_id
    }

    /// The files parsed so far, with their identities, in the order parsed.
    pub closed spec fn trees(&self) -> Seq<(TUId, ParseTree<T>)> {
        self.parsed@
    }

    /// The identities of the files parsed so far.
    pub open spec fn keys(&self) -> Seq<TUId> {
        self.trees().map_values(|e: (TUId, ParseTree<T>)| e.0)
    }

    /// The identities of the files waiting to be parsed, in queue order.
    pub closed spec fn pending_ids(&self) -> Seq<TUId> {
        self.work@.map_values(|w: WorkItem| w.id)
    }

    /// The canonical paths of the files waiting to be parsed, in queue order.
    pub closed spec fn pending_paths(&self) -> Seq<Seq<char>> {
        self.work@.map_values(|w: WorkItem| w.path@)
    }

    /// The chains of files through which the waiting files were reached, in
    /// queue order.
    pub closed spec fn pending_contexts(&self) -> Seq<Seq<Seq<char>>> {
        self.work@.map_values(|w: WorkItem| w.context@.map_values(|s: String| s@))
    }

    /// The diagnostics raised so far in the current round.
    pub closed spec fn round_errors(&self) -> Seq<DiagnosticView> {
        self.errors@
    }

    /// How many files of the current round are still waiting.
    pub closed spec fn round_left(&self) -> nat {
        self.round_left as nat
    }

    pub closed spec fn wf(&self, r: &IncludeResolver) -> bool {
        let keys = self.keys();
        let pend = self.pending_ids();
        let vis = self.visited@;
        &&& r.wf()
        &&& vis.contains(self.root_id)
        &&& keys.no_duplicates()
        &&& pend.no_duplicates()
        &&& forall|i: int, j: int| 0 <= i < keys.len() && 0 <= j < pend.len() ==> keys[i] != pend[j]
        &&& forall|i: int| 0 <= i < vis.len() ==> keys.contains(#[trigger] vis[i]) || pend.contains(vis[i])
        &&& forall|i: int| 0 <= i < keys.len() ==> vis.contains(#[trigger] keys[i])
        &&& forall|i: int| 0 <= i < pend.len() ==> vis.contains(#[trigger] pend[i])
        &&& forall|i: int| 0 <= i < vis.len() ==> (#[trigger] vis[i]) < r.files().len()
        &&& forall|i: int|
            0 <= i < self.work@.len() ==> r.files()[(#[trigger] self.work@[i]).id as int] == self.work@[i].path@
        &&& self.round_left <= self.work@.len()
        &&& (self.round_left == 0 ==> self.work@.len() == 0 && self.errors@.len() == 0)
        &&& (self.errors@.len() == 0 ==> forall|i: int|
            0 <= i < self.parsed@.len() ==> closed_over(r, vis, #[trigger] self.parsed@[i].1))
    }

    /// Starts a walk at the root. `canonical_root` is the canonical form of
    /// `root_file`, or `None` where it could not be canonicalised, which ends
    /// the walk with a single diagnostic.
    pub fn start(resolver: &mut IncludeResolver, root_file: &String, canonical_root: Option<String>) -> (r:
        Result<Closure<T>, Errors>)
        requires
            old(resolver).wf(),
        ensures
            final(resolver).wf(),
            old(resolver).grows_to(&*final(resolver)),
            match canonical_root {
                None => {
                    &&& *final(resolver) == *old(resolver)
                    &&& r matches Err(e) && e@ == seq![missing_root_diagnostic(root_file@)]
                },
                Some(p) => r matches Ok(c) && {
                    &&& c.wf(&*final(resolver))
                    &&& final(resolver).cache() == old(resolver).cache()
                    &&& final(resolver).files() == with_path(old(resolver).files(), p@)
                    &&& c.round_left() == 1
                    &&& c.root() == tuid_in(final(resolver).files(), p@)
                    &&& final(resolver).files()[c.root() as int] == p@
                    &&& c.trees().len() == 0
                    &&& c.pending_ids() == seq![c.root()]
                    &&& c.round_errors().len() == 0
                },
            },
    {
        match canonical_root {
            None => {
                let message = String::from_str("can't locate file specified on the command line `").concat(
                    root_file.as_str(),
                ).concat("'");
                let location = Location { file_name: root_file.clone(), lineno: 0, colno: 0 };
                Err(Errors::one(location, message))
            },
            Some(path) => {
                let id = resolver.resolve_file_name(&path);
                let mut work: Vec<WorkItem> = Vec::new();
                work.push(WorkItem { id, path, context: Vec::new() });
                let mut visited: Vec<TUId> = Vec::new();
                visited.push(id);
                let c = Closure {
                    root_id: id,
                    work,
                    round_left: 1,
                    visited,
                    parsed: Vec::new(),
                    errors: Errors::none(),
                };
                assert(c.pending_ids() =~= seq![id]);
                assert(c.visited@[0] == id);
                assert(c.keys() =~= Seq::<TUId>::empty());
                Ok(c)
            },
        }
    }

    /// The file that the next step handles, with the chain of files through
    /// which it was reached; `None` once the walk is complete.
    pub fn pending(&self) -> (r: Option<(String, Vec<String>)>)
        ensures
            r.is_some() == (self.pending_ids().len() > 0),
            r matches Some(e) ==> e.0@ == self.pending_paths()[0] && e.1@.map_values(|s: String| s@)
                == self.pending_contexts()[0],
    {
        if self.work.len() == 0 {
            None
        } else {
            Some((self.work[0].path.clone(), copy_paths(&self.work[0].context)))
        }
    }

    /// Whether the next file is the root, whose tree the caller already holds
    /// and need not parse again.
    pub fn pending_is_root(&self) -> (r: bool)
        ensures
            r == (self.pending_ids().len() > 0 && self.pending_ids()[0] == self.root()),
    {
        self.work.len() > 0 && self.work[0].id == self.root_id
    }
    /// Handles the pending file, given what the parser made of it and, for
    /// the names it declares, the outcome of probing each search directory
    /// (`found` lists a name with one entry per directory; a name it does not
    /// list is found nowhere, and a cached name is not probed at all).
    ///
    /// A parse failure ends the walk with the parser's diagnostics. Otherwise
    /// every declaration is resolved in order: one that resolves nowhere adds
    /// a diagnostic to the round and the scan goes on; one that resolves to a
    /// file not seen before queues that file for the next round, reached
    /// through this one. The file is then recorded. When this was the last
    /// file of its round and the round raised diagnostics, the walk ends with
    /// all of them.
    #[verifier::rlimit(80)]
    pub fn step(
        self,
        resolver: &mut IncludeResolver,
        parsed: Result<ParseTree<T>, Errors>,
        found: &Vec<(String, Vec<Option<String>>)>,
    ) -> (r: Result<Closure<T>, Errors>)
        requires
            self.wf(&*old(resolver)),
            self.pending_ids().len() > 0,
        ensures
            final(resolver).wf(),
            old(resolver).grows_to(&*final(resolver)),
            parsed matches Err(e) ==> r == Err::<Closure<T>, Errors>(e) && *final(resolver) == *old(resolver),
            parsed matches Ok(tree) ==> forall|i: int|
                old(resolver).files().len() <= i < final(resolver).files().len() ==> exists|j: int|
                    0 <= j < tree.includes@.len() && resolution(
                        old(resolver).cache(),
                        decl_name(#[trigger] tree.includes@[j]),
                        probe_of(found@, decl_name(tree.includes@[j])),
                    ) == Some(#[trigger] final(resolver).files()[i]),
            parsed matches Ok(tree) ==> forall|j: int|
                0 <= j < tree.includes@.len() && decl_resolves(old(resolver).cache(), found@, #[trigger] tree.includes@[j])
                    ==> final(resolver).lookup(decl_name(tree.includes@[j])) == Some(
                    tuid_in(
                        final(resolver).files(),
                        resolution(
                            old(resolver).cache(),
                            decl_name(tree.includes@[j]),
                            probe_of(found@, decl_name(tree.includes@[j])),
                        ).unwrap(),
                    ) as TUId,
                ),
            parsed matches Ok(tree) ==> ({
                    let errs = self.round_errors() + unresolved(old(resolver).cache(), found@, tree.includes@);
                    let ends = self.round_left() == 1;
                    match r {
                        Ok(c) => {
                            &&& c.wf(&*final(resolver))
                            &&& c.root() == self.root()
                            &&& c.round_left() == if ends {
                                c.pending_ids().len()
                            } else {
                                (self.round_left() - 1) as nat
                            }
                            &&& self.pending_ids().drop_first().is_prefix_of(c.pending_ids())
                            &&& self.pending_contexts().drop_first().is_prefix_of(c.pending_contexts())
                            &&& forall|i: int, i2: int|
                                self.pending_ids().len() - 1 <= i < i2 < c.pending_ids().len() ==> reached_before(
                                    &*final(resolver),
                                    tree.includes@,
                                    #[trigger] c.pending_ids()[i],
                                    #[trigger] c.pending_ids()[i2],
                                    tree.includes@.len() as int,
                                )
                            &&& forall|i: int|
                                self.pending_ids().len() - 1 <= i < c.pending_ids().len() ==> {
                                    &&& !self.keys().contains(#[trigger] c.pending_ids()[i])
                                    &&& !self.pending_ids().contains(c.pending_ids()[i])
                                    &&& c.pending_paths()[i] == final(resolver).files()[c.pending_ids()[i] as int]
                                    &&& c.pending_contexts()[i] == self.pending_contexts()[0].push(
                                        self.pending_paths()[0],
                                    )
                                }
                            &&& forall|i: int|
                                self.pending_ids().len() - 1 <= i < c.pending_ids().len() ==> exists|j: int|
                                    0 <= j < tree.includes@.len() && final(resolver).lookup(
                                        decl_name(#[trigger] tree.includes@[j]),
                                    ) == Some(#[trigger] c.pending_ids()[i])
                            &&& c.trees() == self.trees().push((self.pending_ids()[0], tree))
                            &&& c.round_errors() == if ends {
                                Seq::<DiagnosticView>::empty()
                            } else {
                                errs
                            }
                            &&& (ends ==> errs.len() == 0)
                            &&& forall|j: int|
                                0 <= j < tree.includes@.len() && decl_resolves(
                                    old(resolver).cache(),
                                    found@,
                                    #[trigger] tree.includes@[j],
                                ) ==> (final(resolver).lookup(decl_name(tree.includes@[j])) matches Some(t) && (
                                c.keys().contains(t) || c.pending_ids().contains(t)))
                        },
                        Err(e) => ends && errs.len() > 0 && e@ == errs,
                    }
            }),
    {
        let ghost parsed0 = parsed;
        let tree = match parsed {
            Err(e) => {
                return Err(e);
            },
            Ok(tree) => tree,
        };
        assert(parsed0 == Ok::<ParseTree<T>, Errors>(tree));
        let mut c = self;
        let ghost r0 = *resolver;
        let ghost c0 = c;
        let ghost decls = tree.includes@;
        let item = c.work.remove(0);
        let cur = item.id;
        assert(c.pending_ids() =~= c0.pending_ids().drop_first());
        assert(c.pending_ids().subrange(0, c.pending_ids().len() as int) =~= c.pending_ids());
        assert(c.keys() == c0.keys());
        assert(cur == c0.pending_ids()[0]);
        assert(c0.pending_ids().contains(cur));
        assert(c.visited@.contains(cur));
        assert(c.errors@ =~= c0.errors@ + unresolved(r0.cache(), found@, decls.subrange(0, 0)));
        assert(forall|i: int| 0 <= i < c.work@.len() ==> c.work@[i] == c0.work@[i + 1]);
        assert forall|i: int| 0 <= i < c.visited@.len() implies c.keys().contains(#[trigger] c.visited@[i])
            || c.pending_ids().contains(c.visited@[i]) || c.visited@[i] == cur by {
            let v = c.visited@[i];
            if !c.keys().contains(v) && v != cur {
                assert(c0.pending_ids().contains(v));
                let j = choose|j: int| 0 <= j < c0.pending_ids().len() && c0.pending_ids()[j] == v;
                assert(j != 0);
                assert(c.pending_ids()[j - 1] == v);
            }
        }
        let mut k: usize = 0;
        while k < tree.includes.len()
            invariant
                c0.wf(&r0),
                c0.pending_ids().len() > 0,
                cur == c0.pending_ids()[0],
                item.path@ == r0.files()[cur as int],
                decls == tree.includes@,
                k <= decls.len(),
                resolver.wf(),
                r0.grows_to(&*resolver),
                forall|n: Seq<char>|
                    #[trigger] cache_lookup(resolver.cache(), n).is_some() ==> resolution(
                        r0.cache(),
                        n,
                        probe_of(found@, n),
                    ) == cache_lookup(resolver.cache(), n),
                c.errors@ == c0.errors@ + unresolved(r0.cache(), found@, decls.subrange(0, k as int)),
                c.parsed == c0.parsed,
                c.root_id == c0.root_id,
                c.round_left == c0.round_left,
                c.work@.len() + 1 >= c0.work@.len(),
                c0.pending_ids().drop_first().is_prefix_of(c.pending_ids()),
                c0.pending_contexts().drop_first().is_prefix_of(c.pending_contexts()),
                forall|i: int, i2: int|
                    c0.pending_ids().len() - 1 <= i < i2 < c.pending_ids().len() ==> reached_before(
                        &*resolver,
                        decls,
                        #[trigger] c.pending_ids()[i],
                        #[trigger] c.pending_ids()[i2],
                        k as int,
                    ),
                item.context@.map_values(|s: String| s@) == c0.pending_contexts()[0],
                item.path@ == c0.pending_paths()[0],
                forall|i: int|
                    c0.pending_ids().len() - 1 <= i < c.pending_ids().len() ==> {
                        &&& !c0.keys().contains(#[trigger] c.pending_ids()[i])
                        &&& !c0.pending_ids().contains(c.pending_ids()[i])
                        &&& c.pending_contexts()[i] == c0.pending_contexts()[0].push(c0.pending_paths()[0])
                    },
                forall|i: int|
                    r0.files().len() <= i < resolver.files().len() ==> exists|j: int|
                        0 <= j < k && resolution(
                            r0.cache(),
                            decl_name(#[trigger] decls[j]),
                            probe_of(found@, decl_name(decls[j])),
                        ) == Some(#[trigger] resolver.files()[i]),
                forall|i: int|
                    c0.pending_ids().len() - 1 <= i < c.pending_ids().len() ==> exists|j: int|
                        0 <= j < k && resolver.lookup(decl_name(#[trigger] decls[j])) == Some(
                            #[trigger] c.pending_ids()[i],
                        ),
                c0.visited@.is_prefix_of(c.visited@),
                c.keys() == c0.keys(),
                c.pending_ids().no_duplicates(),
                !c.keys().contains(cur),
                !c.pending_ids().contains(cur),
                c.visited@.contains(cur),
                forall|i: int, j: int|
                    0 <= i < c.keys().len() && 0 <= j < c.pending_ids().len() ==> c.keys()[i]
                        != c.pending_ids()[j],
                forall|i: int|
                    0 <= i < c.visited@.len() ==> c.keys().contains(#[trigger] c.visited@[i])
                        || c.pending_ids().contains(c.visited@[i]) || c.visited@[i] == cur,
                forall|i: int| 0 <= i < c.keys().len() ==> c.visited@.contains(#[trigger] c.keys()[i]),
                forall|i: int|
                    0 <= i < c.pending_ids().len() ==> c.visited@.contains(#[trigger] c.pending_ids()[i]),
                forall|i: int| 0 <= i < c.visited@.len() ==> (#[trigger] c.visited@[i]) < resolver.files().len(),
                forall|i: int|
                    0 <= i < c.work@.len() ==> resolver.files()[(#[trigger] c.work@[i]).id as int]
                        == c.work@[i].path@,
                forall|j: int|
                    0 <= j < k && decl_resolves(r0.cache(), found@, #[trigger] decls[j]) ==> (resolver.lookup(
                        decl_name(decls[j]),
                    ) matches Some(t) && c.visited@.contains(t)),
                forall|j: int|
                    0 <= j < k && !decl_resolves(r0.cache(), found@, #[trigger] decls[j]) ==> c.errors@.len()
                        > 0,
            decreases decls.len() - k,
        {
            let ghost rk = *resolver;
            let name = include_file_name(&tree.includes[k]);
            let ghost probe = probe_of(found@, name@);
            let empty: Vec<Option<String>> = Vec::new();
            let outcomes: &Vec<Option<String>> = match probe_index(found, &name) {
                Some(i) => &found[i].1,
                None => &empty,
            };
            assert(outcomes@ == probe);
            let res = resolver.resolve_include(name.as_str(), outcomes);
            let ghost vis_k = c.visited@;
            let ghost work_k = c.work@;
            let ghost pend_k = c.pending_ids();
            assert forall|i: int| 0 <= i < rk.files().len() implies resolver.files()[i] == rk.files()[i] by {
                assert(resolver.files().subrange(0, rk.files().len() as int)[i] == resolver.files()[i]);
            }
            assert(decls.subrange(0, k + 1).drop_last() =~= decls.subrange(0, k as int));
            assert(decls.subrange(0, k + 1).last() == decls[k as int]);
            assert(name@ == decl_name(decls[k as int]));
            proof {
                if r0.lookup(name@).is_some() {
                    assert(rk.lookup(name@).is_some());
                }
            }
            assert(r0.grows_to(&*resolver)) by {
                assert(r0.files().is_prefix_of(resolver.files()));
            }
            match res {
                None => {
                    assert(resolution(r0.cache(), name@, probe).is_none());
                    let message = String::from_str("Cannot resolve include ").concat(name.as_str());
                    c.errors.append_one(Location { file_name: name, lineno: 0, colno: 0 }, message);
                    assert(c.errors@ =~= c0.errors@ + unresolved(r0.cache(), found@, decls.subrange(0, k + 1)));
                },
                Some(t) => {
                    assert(resolution(r0.cache(), name@, probe).is_some());
                    let ghost p = resolution(rk.cache(), name@, probe).unwrap();
                    assert(resolution(rk.cache(), name@, outcomes@) == Some(p));
                    assert(t == tuid_in(resolver.files(), p));
                    assert(t < resolver.files().len());
                    assert(unresolved(r0.cache(), found@, decls.subrange(0, k + 1)) == unresolved(
                        r0.cache(),
                        found@,
                        decls.subrange(0, k as int),
                    ));
                    if !contains_id(&c.visited, t) {
                        let mut context = copy_paths(&item.context);
                        context.push(item.path.clone());
                        assert(context@.map_values(|s: String| s@) =~= item.context@.map_values(|s: String| s@).push(
                            item.path@,
                        ));
                        let ghost old_ctxs = c.pending_contexts();
                        let ghost old_vis = c.visited@;
                        let ghost old_pend = c.pending_ids();
                        c.visited.push(t);
                        let path = resolver.file_path(t).clone();
                        c.work.push(WorkItem { id: t, path, context });
                        assert(c.pending_ids() =~= old_pend.push(t));
                        assert(c.pending_contexts() =~= old_ctxs.push(
                            c0.pending_contexts()[0].push(c0.pending_paths()[0]),
                        ));
                        assert(c.pending_contexts().subrange(0, c0.pending_ids().len() - 1)
                            =~= old_ctxs.subrange(0, c0.pending_ids().len() - 1));
                        assert(!c0.visited@.contains(t)) by {
                            if c0.visited@.contains(t) {
                                let q = choose|q: int| 0 <= q < c0.visited@.len() && c0.visited@[q] == t;
                                assert(old_vis[q] == t);
                            }
                        }
                        assert(!c0.keys().contains(t));
                        assert(!c0.pending_ids().contains(t));
                        assert forall|i: int| 0 <= i < old_pend.len() implies c.pending_ids()[i] == old_pend[i]
                            && c.pending_contexts()[i] == old_ctxs[i] by {}
                        assert(c.pending_ids().subrange(0, c0.pending_ids().len() - 1) =~= old_pend.subrange(
                            0,
                            c0.pending_ids().len() - 1,
                        ));
                        assert(c.visited@ =~= old_vis.push(t));
                        assert forall|i: int| 0 <= i < c.visited@.len() implies c.keys().contains(
                            #[trigger] c.visited@[i]) || c.pending_ids().contains(c.visited@[i])
                            || c.visited@[i] == cur by {
                            let v = c.visited@[i];
                            if i < old_vis.len() {
                                assert(old_vis[i] == v);
                                if old_pend.contains(v) {
                                    let j = choose|j: int| 0 <= j < old_pend.len() && old_pend[j] == v;
                                    assert(c.pending_ids()[j] == v);
                                }
                            } else {
                                assert(c.pending_ids()[old_pend.len() as int] == v);
                            }
                        }
                        assert forall|i: int| 0 <= i < c.keys().len() implies c.visited@.contains(
                            #[trigger] c.keys()[i]) by {
                            let q = choose|q: int| 0 <= q < old_vis.len() && old_vis[q] == c.keys()[i];
                            assert(c.visited@[q] == c.keys()[i]);
                        }
                        assert forall|i: int| 0 <= i < c.pending_ids().len() implies c.visited@.contains(
                            #[trigger] c.pending_ids()[i]) by {
                            if i < old_pend.len() {
                                let q = choose|q: int| 0 <= q < old_vis.len() && old_vis[q] == old_pend[i];
                                assert(c.visited@[q] == c.pending_ids()[i]);
                            } else {
                                assert(c.visited@[old_vis.len() as int] == t);
                            }
                        }
                        assert(c.visited@.contains(cur)) by {
                            let q = choose|q: int| 0 <= q < old_vis.len() && old_vis[q] == cur;
                            assert(c.visited@[q] == cur);
                        }
                    }
                },
            }
            assert forall|j: int|
                0 <= j < k + 1 && decl_resolves(r0.cache(), found@, #[trigger] decls[j]) implies (resolver.lookup(
                    decl_name(decls[j]),
                ) matches Some(t) && c.visited@.contains(t)) by {
                if j < k {
                    let t = rk.lookup(decl_name(decls[j])).unwrap();
                    assert(rk.lookup(decl_name(decls[j])).is_some());
                    let q = choose|q: int| 0 <= q < vis_k.len() && vis_k[q] == t;
                    assert(c.visited@[q] == t);
                } else {
                    let t = res.unwrap();
                    if vis_k.contains(t) {
                        let q = choose|q: int| 0 <= q < vis_k.len() && vis_k[q] == t;
                        assert(c.visited@[q] == t);
                    } else {
                        assert(c.visited@[vis_k.len() as int] == t);
                    }
                }
            }
            assert forall|j2: int| 0 <= j2 < k && rk.lookup(decl_name(#[trigger] decls[j2])).is_none() implies resolver.lookup(
                decl_name(decls[j2])).is_none() by {
                let n2 = decl_name(decls[j2]);
                if !decl_resolves(r0.cache(), found@, decls[j2]) {
                    if cache_lookup(resolver.cache(), n2).is_some() {
                        assert(resolution(r0.cache(), n2, probe_of(found@, n2)) == cache_lookup(resolver.cache(), n2));
                    }
                }
            }
            assert forall|i: int, i2: int|
                c0.pending_ids().len() - 1 <= i < i2 < c.pending_ids().len() implies reached_before(
                    &*resolver,
                    decls,
                    #[trigger] c.pending_ids()[i],
                    #[trigger] c.pending_ids()[i2],
                    k + 1,
                ) by {
                let a = c.pending_ids()[i];
                let b = c.pending_ids()[i2];
                let j = if i2 < pend_k.len() {
                    assert(pend_k[i] == a && pend_k[i2] == b);
                    assert(reached_before(&rk, decls, pend_k[i], pend_k[i2], k as int));
                    choose|j: int|
                        0 <= j < k && rk.lookup(decl_name(#[trigger] decls[j])) == Some(a) && forall|j2: int|
                            0 <= j2 <= j ==> rk.lookup(decl_name(#[trigger] decls[j2])) != Some(b)
                } else {
                    assert(pend_k[i] == a);
                    choose|j: int| 0 <= j < k && rk.lookup(decl_name(#[trigger] decls[j])) == Some(a)
                };
                assert(rk.lookup(decl_name(decls[j])).is_some());
                assert forall|j2: int| 0 <= j2 <= j implies resolver.lookup(decl_name(#[trigger] decls[j2])) != Some(b) by {
                    let n2 = decl_name(decls[j2]);
                    if rk.lookup(n2).is_some() {
                        assert(resolver.lookup(n2) == rk.lookup(n2));
                        if i2 >= pend_k.len() {
                            if decl_resolves(r0.cache(), found@, decls[j2]) {
                                let u = rk.lookup(n2).unwrap();
                                assert(vis_k.contains(u));
                                assert(!vis_k.contains(b));
                            } else {
                                assert(cache_lookup(rk.cache(), n2).is_some());
                                assert(resolution(r0.cache(), n2, probe_of(found@, n2)) == cache_lookup(rk.cache(), n2));
                            }
                        }
                    }
                }
            }
            assert forall|i: int|
                c0.pending_ids().len() - 1 <= i < c.pending_ids().len() implies exists|j: int|
                    0 <= j < k + 1 && resolver.lookup(decl_name(#[trigger] decls[j])) == Some(
                        #[trigger] c.pending_ids()[i],
                    ) by {
                if i < pend_k.len() {
                    assert(c.pending_ids()[i] == pend_k[i]);
                    let j = choose|j: int|
                        0 <= j < k && rk.lookup(decl_name(#[trigger] decls[j])) == Some(pend_k[i]);
                    assert(rk.lookup(decl_name(decls[j])).is_some());
                    assert(resolver.lookup(decl_name(decls[j])) == Some(c.pending_ids()[i]));
                } else {
                    assert(resolver.lookup(decl_name(decls[k as int])) == Some(c.pending_ids()[i]));
                }
            }
            assert forall|i: int| 0 <= i < c.work@.len() implies resolver.files()[(#[trigger] c.work@[i]).id as int]
                == c.work@[i].path@ by {
                if i < work_k.len() {
                    assert(c.work@[i] == work_k[i]);
                    assert(c.pending_ids()[i] == work_k[i].id);
                    assert(c.visited@.contains(c.pending_ids()[i]));
                    let q = choose|q: int| 0 <= q < c.visited@.len() && c.visited@[q] == work_k[i].id;
                    if q < vis_k.len() {
                        assert(vis_k[q] == c.visited@[q]);
                    }
                }
            }
            k += 1;
        }
        assert(decls.subrange(0, decls.len() as int) =~= decls);
        assert forall|i: int| r0.files().len() <= i < resolver.files().len() implies exists|j: int|
            0 <= j < tree.includes@.len() && resolution(
                r0.cache(),
                decl_name(#[trigger] tree.includes@[j]),
                probe_of(found@, decl_name(tree.includes@[j])),
            ) == Some(#[trigger] resolver.files()[i]) by {
            let j = choose|j: int|
                0 <= j < k && resolution(
                    r0.cache(),
                    decl_name(#[trigger] decls[j]),
                    probe_of(found@, decl_name(decls[j])),
                ) == Some(resolver.files()[i]);
            assert(tree.includes@[j] == decls[j]);
        }
        let ghost pre_keys = c.keys();
        c.parsed.push((cur, tree));
        assert(c.keys() =~= pre_keys.push(cur));
        proof {
            if c.errors@.len() == 0 {
                assert(c0.errors@.len() == 0);
                assert forall|i: int| 0 <= i < c.parsed@.len() implies closed_over(
                    &*resolver,
                    c.visited@,
                    #[trigger] c.parsed@[i].1,
                ) by {
                    if i < c0.parsed@.len() {
                        lemma_closed_over_grows(&r0, &*resolver, c0.visited@, c.visited@, c0.parsed@[i].1);
                    }
                }
            }
        }
        c.round_left = c.round_left - 1;
        if c.round_left == 0 {
            if !c.errors.is_empty() {
                return Err(c.errors);
            }
            c.round_left = c.work.len();
        }
        assert(c.visited@.contains(c.root_id)) by {
            let q = choose|q: int| 0 <= q < c0.visited@.len() && c0.visited@[q] == c.root_id;
            assert(c.visited@[q] == c.root_id);
        }
        assert(c.keys().no_duplicates());
        assert(c.pending_ids().no_duplicates());
        assert forall|i: int| 0 <= i < c.visited@.len() implies c.keys().contains(#[trigger] c.visited@[i])
            || c.pending_ids().contains(c.visited@[i]) by {
            if c.visited@[i] == cur {
                assert(c.keys()[c.keys().len() - 1] == cur);
            } else if pre_keys.contains(c.visited@[i]) {
                let q = choose|q: int| 0 <= q < pre_keys.len() && pre_keys[q] == c.visited@[i];
                assert(c.keys()[q] == c.visited@[i]);
            }
        }
        assert(c.wf(&*resolver));
        assert(c.trees() == c0.trees().push((c0.pending_ids()[0], tree)));
        Ok(c)
    }
    /// Ends a walk that has nothing pending: the root's identity and every
    /// parsed file under its identity, each file once, the root among them,
    /// and every declaration of every file resolved to a file that is there.
    pub fn finish(self, resolver: &IncludeResolver) -> (r: (TUId, Vec<(TUId, ParseTree<T>)>))
        requires
            self.wf(resolver),
            self.pending_ids().len() == 0,
        ensures
            r.0 == self.root(),
            r.1@ == self.trees(),
            self.keys().no_duplicates(),
            self.keys().contains(r.0),
            forall|i: int| 0 <= i < r.1@.len() ==> closed_over(resolver, self.keys(), #[trigger] r.1@[i].1),
    {
        proof {
            let keys = self.keys();
            let vis = self.visited@;
            assert forall|t: TUId| vis.contains(t) implies keys.contains(t) by {
                let q = choose|q: int| 0 <= q < vis.len() && vis[q] == t;
                assert(keys.contains(vis[q]) || self.pending_ids().contains(vis[q]));
            }
            assert forall|i: int| 0 <= i < self.parsed@.len() implies closed_over(
                resolver,
                keys,
                #[trigger] self.parsed@[i].1,
            ) by {
                let tree = self.parsed@[i].1;
                assert(closed_over(resolver, vis, tree));
                assert forall|j: int| 0 <= j < tree.includes@.len() implies ((#[trigger] resolver.lookup(
                    decl_name(tree.includes@[j]),
                )) matches Some(t) && keys.contains(t)) by {
                    assert(resolver.lookup(decl_name(tree.includes@[j])).is_some());
                }
            }
        }
        (self.root_id, self.parsed)
    }
}

/// Batching: the diagnostics raised while scanning a file's declarations are
/// one per declaration that does not resolve, in declaration order; the
/// others raise none.
pub proof fn lemma_one_diagnostic_per_unresolved(
    c: Seq<(Seq<char>, Seq<char>)>,
    table: Seq<(String, Vec<Option<String>>)>,
    decls: Seq<IncludeDecl>,
)
    ensures
        unresolved(c, table, decls) == decls.filter(|d: IncludeDecl| !decl_resolves(c, table, d)).map_values(
            |d: IncludeDecl| unresolved_diagnostic(decl_name(d)),
        ),
        unresolved(c, table, decls).len() == decls.filter(|d: IncludeDecl| !decl_resolves(c, table, d)).len(),
    decreases decls.len(),
{
    reveal(Seq::filter);
    let pred = |d: IncludeDecl| !decl_resolves(c, table, d);
    let diag = |d: IncludeDecl| unresolved_diagnostic(decl_name(d));
    if decls.len() > 0 {
        lemma_one_diagnostic_per_unresolved(c, table, decls.drop_last());
        let rest = decls.drop_last().filter(pred);
        if pred(decls.last()) {
            assert(decls.filter(pred) == rest.push(decls.last()));
            assert(rest.push(decls.last()).map_values(diag) =~= rest.map_values(diag).push(diag(decls.last())));
        } else {
            assert(decls.filter(pred) == rest);
        }
    } else {
        assert(decls.filter(pred).map_values(diag) =~= Seq::<DiagnosticView>::empty());
    }
}

/// A file is parsed at most once: the parsed identities are distinct, no
/// identity waits twice, and no parsed file waits to be parsed again. A file
/// reached a second time, through a diamond or a cycle, is not queued.
pub proof fn lemma_parsed_once<T>(c: &Closure<T>, r: &IncludeResolver)
    requires
        c.wf(r),
    ensures
        c.keys().no_duplicates(),
        c.pending_ids().no_duplicates(),
        forall|i: int, j: int|
            0 <= i < c.keys().len() && 0 <= j < c.pending_ids().len() ==> c.keys()[i] != c.pending_ids()[j],
{
}

/// The walk terminates: the files parsed and those waiting are distinct
/// files, so their number never exceeds the number of distinct canonical
/// paths identified, and each step parses one more.
pub proof fn lemma_walk_bounded<T>(c: &Closure<T>, r: &IncludeResolver)
    requires
        c.wf(r),
    ensures
        c.keys().len() + c.pending_ids().len() <= r.files().len(),
{
    let keys = c.keys();
    let pend = c.pending_ids();
    let s = (keys + pend).map_values(|x: TUId| x as int);
    assert forall|a: int, b: int| 0 <= a < s.len() && 0 <= b < s.len() && a != b implies s[a] != s[b] by {
        if a < keys.len() && b < keys.len() {
        } else if a >= keys.len() && b >= keys.len() {
            assert(pend[a - keys.len()] != pend[b - keys.len()]);
        } else if a < keys.len() {
            assert(keys[a] != pend[b - keys.len()]);
        } else {
            assert(keys[b] != pend[a - keys.len()]);
        }
    }
    assert forall|x: int| s.to_set().contains(x) implies set_int_range(0, r.files().len() as int).contains(x) by {
        let q = choose|q: int| 0 <= q < s.len() && s[q] == x;
        let v = (keys + pend)[q];
        if q < keys.len() {
            assert(c.visited@.contains(keys[q]));
        } else {
            assert(c.visited@.contains(pend[q - keys.len()]));
        }
        let w = choose|w: int| 0 <= w < c.visited@.len() && c.visited@[w] == v;
        assert(c.visited@[w] < r.files().len());
    }
    s.unique_seq_to_set();
    lemma_int_range(0, r.files().len() as int);
    lemma_len_subset(s.to_set(), set_int_range(0, r.files().len() as int));
}

} // verus!
