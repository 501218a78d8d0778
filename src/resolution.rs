use vstd::prelude::*;
use vstd::string::StringExecFns;
use crate::file_map::{TUId, TUIdFileMap, tuid_in, with_path, lemma_with_path, lemma_tuid_in, lemma_tuid_stable};

verus! {

/// One `include` statement of a source file: the declared name, and whether it
/// names a protocol (`include protocol Foo;`) rather than a header.
#[derive(Debug)]
pub struct IncludeDecl {
    pub id: String,
    pub protocol: bool,
}

/// The file name that an inclusion refers to: the declared name with `.ipdl`
/// for a protocol and `.ipdlh` otherwise.
pub open spec fn file_name_of(id: Seq<char>, protocol: bool) -> Seq<char> {
    if protocol {
        id + seq!['.', 'i', 'p', 'd', 'l']
    } else {
        id + seq!['.', 'i', 'p', 'd', 'l', 'h']
    }
}

/// The file name that `decl` refers to.
pub fn include_file_name(decl: &IncludeDecl) -> (r: String)
    ensures
        r@ == file_name_of(decl.id@, decl.protocol),
{
    let suffix = if decl.protocol {
        ".ipdl"
    } else {
        ".ipdlh"
    };
    proof {
        reveal_strlit(".ipdl");
        reveal_strlit(".ipdlh");
    }
    let r = decl.id.clone().concat(suffix);
    assert(r@ =~= file_name_of(decl.id@, decl.protocol));
    r
}

/// Whether no name occurs twice in a name cache.
pub open spec fn distinct_names(c: Seq<(Seq<char>, Seq<char>)>) -> bool {
    forall|i: int, j: int| 0 <= i < c.len() && 0 <= j < c.len() && i != j ==> c[i].0 != c[j].0
}

/// The canonical path that `name` is cached as resolving to, if any.
pub open spec fn cache_lookup(c: Seq<(Seq<char>, Seq<char>)>, name: Seq<char>) -> Option<Seq<char>> {
    if exists|i: int| 0 <= i < c.len() && c[i].0 == name {
        Some(c[choose|i: int| 0 <= i < c.len() && c[i].0 == name].1)
    } else {
        None
    }
}

/// The first canonical path found when the search directories are probed in
/// order: `found[i]` is the canonical form of the file in the `i`-th
/// directory, or `None` where it is absent or cannot be canonicalised.
pub open spec fn first_found(found: Seq<Option<String>>) -> Option<Seq<char>>
    decreases found.len(),
{
    if found.len() == 0 {
        None
    } else {
        match found[0] {
            Some(p) => Some(p@),
            None => first_found(found.drop_first()),
        }
    }
}

/// The canonical path a name resolves to: the cached one, else the first found.
pub open spec fn resolution(
    c: Seq<(Seq<char>, Seq<char>)>,
    name: Seq<char>,
    found: Seq<Option<String>>,
) -> Option<Seq<char>> {
    match cache_lookup(c, name) {
        Some(p) => Some(p),
        None => first_found(found),
    }
}

proof fn lemma_cache_lookup(c: Seq<(Seq<char>, Seq<char>)>, i: int)
    requires
        distinct_names(c),
        0 <= i < c.len(),
    ensures
        cache_lookup(c, c[i].0) == Some(c[i].1),
{
    let name = c[i].0;
    assert(exists|k: int| 0 <= k < c.len() && c[k].0 == name);
    let k = choose|k: int| 0 <= k < c.len() && c[k].0 == name;
    assert(k == i);
}

proof fn lemma_cache_push(c: Seq<(Seq<char>, Seq<char>)>, name: Seq<char>, p: Seq<char>)
    requires
        distinct_names(c),
        cache_lookup(c, name).is_none(),
    ensures
        distinct_names(c.push((name, p))),
        forall|n: Seq<char>|
            #[trigger] cache_lookup(c.push((name, p)), n) == if n == name {
                Some(p)
            } else {
                cache_lookup(c, n)
            },
{
    let d = c.push((name, p));
    assert forall|i: int, j: int|
        0 <= i < d.len() && 0 <= j < d.len() && i != j implies d[i].0 != d[j].0 by {
        if i == c.len() {
            assert(c[j].0 != name);
        } else if j == c.len() {
            assert(c[i].0 != name);
        }
    }
    assert forall|n: Seq<char>|
        #[trigger] cache_lookup(d, n) == if n == name {
            Some(p)
        } else {
            cache_lookup(c, n)
        } by {
        if n == name {
            lemma_cache_lookup(d, c.len() as int);
        } else if exists|i: int| 0 <= i < c.len() && c[i].0 == n {
            let i = choose|i: int| 0 <= i < c.len() && c[i].0 == n;
            lemma_cache_lookup(c, i);
            lemma_cache_lookup(d, i);
        } else {
            assert(!exists|i: int| 0 <= i < d.len() && d[i].0 == n) by {
                if exists|i: int| 0 <= i < d.len() && d[i].0 == n {
                    let i = choose|i: int| 0 <= i < d.len() && d[i].0 == n;
                    assert(i != c.len());
                    assert(c[i].0 == n);
                }
            }
        }
    }
}

/// Locates inclusion names in an ordered list of search directories, caching
/// each name's canonical path, and hands out translation-unit identities.
pub struct IncludeResolver {
    include_dirs: Vec<String>,
    include_files: Vec<(String, String)>,
    id_file_map: TUIdFileMap,
}

impl IncludeResolver {
    /// The search directories, in probing order.
    pub closed spec fn dirs(&self) -> Seq<Seq<char>> {
        self.include_dirs@.map_values(|s: String| s@)
    }

    /// The name cache: each resolved name with its canonical path.
    pub closed spec fn cache(&self) -> Seq<(Seq<char>, Seq<char>)> {
        self.include_files@.map_values(|e: (String, String)| (e.0@, e.1@))
    }

    /// The canonical paths, indexed by translation-unit identity.
    pub closed spec fn files(&self) -> Seq<Seq<char>> {
        self.id_file_map@
    }

    /// The identity that `name` is cached as resolving to, if any.
    pub open spec fn lookup(&self, name: Seq<char>) -> Option<TUId> {
        match cache_lookup(self.cache(), name) {
            Some(p) => Some(tuid_in(self.files(), p) as TUId),
            None => None,
        }
    }

    /// `later` is this resolver after further resolutions: the same search
    /// directories, identities only added, and every cached name kept.
    pub open spec fn grows_to(&self, later: &IncludeResolver) -> bool {
        &&& self.dirs() == later.dirs()
        &&& self.files().is_prefix_of(later.files())
        &&& forall|n: Seq<char>| #[trigger] self.lookup(n).is_some() ==> later.lookup(n) == self.lookup(n)
    }

    pub closed spec fn wf(&self) -> bool {
        &&& self.id_file_map.wf()
        &&& distinct_names(self.cache())
        &&& forall|i: int| 0 <= i < self.cache().len() ==> self.files().contains(#[trigger] self.cache()[i].1)
    }

    /// A resolver over `include_dirs`, with an empty cache and no identities.
    pub fn new(include_dirs: Vec<String>) -> (r: IncludeResolver)
        ensures
            r.wf(),
            r.dirs() == include_dirs@.map_values(|s: String| s@),
            r.cache() == Seq::<(Seq<char>, Seq<char>)>::empty(),
            r.files() == Seq::<Seq<char>>::empty(),
    {
        let r = IncludeResolver { include_dirs, include_files: Vec::new(), id_file_map: TUIdFileMap::new() };
        assert(r.cache() =~= Seq::<(Seq<char>, Seq<char>)>::empty());
        r
    }

    /// The identity of the canonical path `path`, handing out a new one when
    /// the path is new; the name cache is untouched.
    pub fn resolve_file_name(&mut self, path: &String) -> (id: TUId)
        requires
            old(self).wf(),
        ensures
            final(self).wf(),
            old(self).grows_to(&*final(self)),
            final(self).cache() == old(self).cache(),
            final(self).files() == with_path(old(self).files(), path@),
            id == tuid_in(final(self).files(), path@),
            id < final(self).files().len(),
            final(self).files()[id as int] == path@,
    {
        let ghost old_files = self.files();
        let id = self.id_file_map.resolve_file_name(path);
        assert forall|n: Seq<char>| #[trigger] old(self).lookup(n).is_some() implies self.lookup(n)
            == old(self).lookup(n) by {
            let k = choose|k: int| 0 <= k < self.cache().len() && self.cache()[k].0 == n;
            lemma_cache_lookup(self.cache(), k);
            assert(old_files.contains(self.cache()[k].1));
            lemma_tuid_stable(old_files, self.cache()[k].1, path@);
        }
        assert forall|i: int| 0 <= i < self.cache().len() implies self.files().contains(
            #[trigger] self.cache()[i].1) by {
            lemma_tuid_stable(old_files, self.cache()[i].1, path@);
        }
        id
    }

    /// The canonical path that holds identity `id`.
    pub fn file_path(&self, id: TUId) -> (r: &String)
        requires
            id < self.files().len(),
        ensures
            r@ == self.files()[id as int],
    {
        self.id_file_map.path_of(id)
    }

    /// The search directories, in probing order.
    pub fn include_dirs(&self) -> (r: &Vec<String>)
        ensures
            r@.map_values(|s: String| s@) == self.dirs(),
    {
        &self.include_dirs
    }

    /// The position in the cache of `name`, if it is there.
    fn cached_index(&self, name: &String) -> (r: Option<usize>)
        requires
            self.wf(),
        ensures
            r.is_none() <==> cache_lookup(self.cache(), name@).is_none(),
            r matches Some(i) ==> i < self.cache().len() && self.cache()[i as int].0 == name@
                && cache_lookup(self.cache(), name@) == Some(self.cache()[i as int].1),
    {
        let mut i: usize = 0;
        while i < self.include_files.len()
            invariant
                self.wf(),
                i <= self.include_files.len(),
                self.cache().len() == self.include_files.len(),
                forall|k: int| 0 <= k < i ==> self.cache()[k].0 != name@,
            decreases self.include_files.len() - i,
        {
            if self.include_files[i].0 == *name {
                proof {
                    lemma_cache_lookup(self.cache(), i as int);
                }
                return Some(i);
            }
            i += 1;
        }
        None
    }

    /// The identity that `include_name` was resolved to, without resolving it.
    pub fn get_include(&self, include_name: &str) -> (r: Option<TUId>)
        requires
            self.wf(),
        ensures
            r == self.lookup(include_name@),
    {
        let name = String::from_str(include_name);
        match self.cached_index(&name) {
            Some(i) => {
                let ghost p = self.cache()[i as int].1;
                assert(self.files().contains(p));
                self.id_file_map.get_tuid(&self.include_files[i].1)
            },
            None => None,
        }
    }

    /// Resolves `include_name` to an identity. A cached name resolves to its
    /// cached path and `found` is not consulted; otherwise the first entry of
    /// `found` that holds a path wins, and the name is cached. `found[i]` is the
    /// outcome of probing the `i`-th search directory for the name.
    pub fn resolve_include(&mut self, include_name: &str, found: &Vec<Option<String>>) -> (r: Option<TUId>)
        requires
            old(self).wf(),
        ensures
            final(self).wf(),
            old(self).grows_to(&*final(self)),
            cache_lookup(old(self).cache(), include_name@).is_some() ==> final(self).files() == old(self).files(),
            forall|n: Seq<char>| n != include_name@ ==> #[trigger] cache_lookup(final(self).cache(), n)
                == cache_lookup(old(self).cache(), n),
            match resolution(old(self).cache(), include_name@, found@) {
                None => {
                    &&& r.is_none()
                    &&& *final(self) == *old(self)
                },
                Some(p) => {
                    &&& final(self).files() == with_path(old(self).files(), p)
                    &&& r == Some(tuid_in(final(self).files(), p) as TUId)
                    &&& r == final(self).lookup(include_name@)
                    &&& r matches Some(t) && t == tuid_in(final(self).files(), p)
                    &&& tuid_in(final(self).files(), p) < final(self).files().len()
                    &&& final(self).files()[tuid_in(final(self).files(), p)] == p
                    &&& cache_lookup(final(self).cache(), include_name@) == Some(p)
                    &&& final(self).cache() == if cache_lookup(old(self).cache(), include_name@).is_some() {
                        old(self).cache()
                    } else {
                        old(self).cache().push((include_name@, p))
                    }
                },
            },
    {
        let name = String::from_str(include_name);
        if let Some(i) = self.cached_index(&name) {
            let ghost p = self.cache()[i as int].1;
            assert(self.files().contains(p));
            proof {
                let k = choose|k: int| 0 <= k < self.files().len() && self.files()[k] == p;
                lemma_tuid_in(self.files(), k);
            }
            let path = self.include_files[i].1.clone();
            let id = self.id_file_map.resolve_file_name(&path);
            assert(self.files() == old(self).files());
            assert(self.cache() == old(self).cache());
            return Some(id);
        }
        let mut j: usize = 0;
        assert(found@.subrange(0, found@.len() as int) =~= found@);
        while j < found.len()
            invariant
                *self == *old(self),
                self.wf(),
                name@ == include_name@,
                cache_lookup(self.cache(), name@).is_none(),
                j <= found.len(),
                first_found(found@) == first_found(found@.subrange(j as int, found@.len() as int)),
            decreases found.len() - j,
        {
            assert(found@.subrange(j as int, found@.len() as int).drop_first()
                =~= found@.subrange(j + 1, found@.len() as int));
            if let Some(p) = &found[j] {
                let path = p.clone();
                let ghost old_files = self.files();
                let ghost old_cache = self.cache();
                proof {
                    lemma_with_path(old_files, path@);
                    lemma_cache_push(old_cache, name@, path@);
                }
                let id = self.id_file_map.resolve_file_name(&path);
                self.include_files.push((name, path));
                assert(self.cache() =~= old_cache.push((include_name@, p@)));
                assert forall|n: Seq<char>| #[trigger] old(self).lookup(n).is_some() implies self.lookup(n)
                    == old(self).lookup(n) by {
                    let q = cache_lookup(old_cache, n).unwrap();
                    assert(cache_lookup(self.cache(), n) == Some(q));
                    assert(old_files.contains(q)) by {
                        let k = choose|k: int| 0 <= k < old_cache.len() && old_cache[k].0 == n;
                        assert(old_files.contains(old_cache[k].1));
                    }
                    lemma_tuid_stable(old_files, q, p@);
                }
                assert forall|i: int| 0 <= i < self.cache().len() implies self.files().contains(
                    #[trigger] self.cache()[i].1) by {
                    if i < old_cache.len() {
                        assert(old_files.contains(old_cache[i].1));
                        let k = choose|k: int| 0 <= k < old_files.len() && old_files[k] == old_cache[i].1;
                        assert(self.files()[k] == old_cache[i].1);
                    } else {
                        assert(self.files()[id as int] == p@);
                    }
                }
                return Some(id);
            }
            j += 1;
        }
        assert(found@.subrange(j as int, found@.len() as int).len() == 0);
        None
    }
}

/// Search order: when a name is not yet cached, it resolves to the first
/// search directory that holds it; a directory where the file is missing is
/// passed over.
pub proof fn lemma_search_order(
    c: Seq<(Seq<char>, Seq<char>)>,
    name: Seq<char>,
    found: Seq<Option<String>>,
    i: int,
)
    requires
        cache_lookup(c, name).is_none(),
        0 <= i < found.len(),
        found[i].is_some(),
        forall|k: int| 0 <= k < i ==> found[k].is_none(),
    ensures
        resolution(c, name, found) == Some(found[i].unwrap()@),
    decreases i,
{
    if i > 0 {
        assert forall|k: int| 0 <= k < i - 1 implies found.drop_first()[k].is_none() by {
            assert(found.drop_first()[k] == found[k + 1]);
        }
        lemma_search_order(c, name, found.drop_first(), i - 1);
    }
}

} // verus!
