use vstd::prelude::*;

verus! {

/// A translation-unit identity: a dense index, one per canonical path.
pub type TUId = usize;

/// Whether no path occurs twice in `paths`.
pub open spec fn distinct_paths(paths: Seq<Seq<char>>) -> bool {
    forall|i: int, j: int|
        0 <= i < paths.len() && 0 <= j < paths.len() && i != j ==> paths[i] != paths[j]
}

/// The identity that `p` holds in `paths` (meaningful when `paths` contains `p`).
pub open spec fn tuid_in(paths: Seq<Seq<char>>, p: Seq<char>) -> int {
    choose|i: int| 0 <= i < paths.len() && paths[i] == p
}

/// The identity table after `p` has been resolved: unchanged when `p` is known,
/// else `p` appended with the next identity.
pub open spec fn with_path(paths: Seq<Seq<char>>, p: Seq<char>) -> Seq<Seq<char>> {
    if paths.contains(p) {
        paths
    } else {
        paths.push(p)
    }
}

/// In a table without repeats, the identity of a path is its only position.
pub proof fn lemma_tuid_in(paths: Seq<Seq<char>>, i: int)
    requires
        distinct_paths(paths),
        0 <= i < paths.len(),
    ensures
        tuid_in(paths, paths[i]) == i,
{
    let p = paths[i];
    assert(exists|k: int| 0 <= k < paths.len() && paths[k] == p);
    let k = tuid_in(paths, p);
    assert(paths[k] == p);
}

/// Resolving another path leaves the identity of a known path unchanged.
pub proof fn lemma_tuid_stable(paths: Seq<Seq<char>>, p: Seq<char>, q: Seq<char>)
    requires
        distinct_paths(paths),
        paths.contains(p),
    ensures
        tuid_in(with_path(paths, q), p) == tuid_in(paths, p),
        with_path(paths, q)[tuid_in(paths, p)] == p,
        0 <= tuid_in(paths, p) < paths.len(),
{
    let k = choose|k: int| 0 <= k < paths.len() && paths[k] == p;
    lemma_tuid_in(paths, k);
    lemma_with_path(paths, q);
    assert(with_path(paths, q)[k] == p);
    lemma_tuid_in(with_path(paths, q), k);
}

/// Resolving keeps a table free of repeats, and the resolved path then holds
/// an identity.
pub proof fn lemma_with_path(paths: Seq<Seq<char>>, p: Seq<char>)
    requires
        distinct_paths(paths),
    ensures
        distinct_paths(with_path(paths, p)),
        with_path(paths, p).contains(p),
        0 <= tuid_in(with_path(paths, p), p) < with_path(paths, p).len(),
        with_path(paths, p)[tuid_in(with_path(paths, p), p)] == p,
        paths.is_prefix_of(with_path(paths, p)),
        !paths.contains(p) ==> tuid_in(with_path(paths, p), p) == paths.len(),
{
    let q = with_path(paths, p);
    if !paths.contains(p) {
        assert(q[paths.len() as int] == p);
        assert forall|i: int, j: int|
            0 <= i < q.len() && 0 <= j < q.len() && i != j implies q[i] != q[j] by {
            if i == paths.len() {
                assert(paths[j] != p);
            } else if j == paths.len() {
                assert(paths[i] != p);
            }
        }
        lemma_tuid_in(q, paths.len() as int);
    } else {
        let k = choose|k: int| 0 <= k < paths.len() && paths[k] == p;
        lemma_tuid_in(q, k);
    }
    assert(paths.is_prefix_of(q));
}

/// The append-only table of translation-unit identities: identity `i` is the
/// canonical path at position `i`.
pub struct TUIdFileMap {
    id_files: Vec<String>,
}

impl TUIdFileMap {
    /// The canonical paths, indexed by identity.
    pub closed spec fn view(&self) -> Seq<Seq<char>> {
        self.id_files@.map_values(|s: String| s@)
    }

    pub open spec fn wf(&self) -> bool {
        distinct_paths(self@)
    }

    /// An empty table.
    pub fn new() -> (r: TUIdFileMap)
        ensures
            r.wf(),
            r@ == Seq::<Seq<char>>::empty(),
    {
        let r = TUIdFileMap { id_files: Vec::new() };
        assert(r@ =~= Seq::<Seq<char>>::empty());
        r
    }

    /// The number of identities handed out.
    pub fn len(&self) -> (r: usize)
        ensures
            r == self@.len(),
    {
        self.id_files.len()
    }

    /// The canonical path that holds identity `id`.
    pub fn path_of(&self, id: TUId) -> (r: &String)
        requires
            id < self@.len(),
        ensures
            r@ == self@[id as int],
    {
        &self.id_files[id]
    }

    /// The identity of `path`, without creating one.
    pub fn get_tuid(&self, path: &String) -> (r: Option<TUId>)
        requires
            self.wf(),
        ensures
            r.is_none() <==> !self@.contains(path@),
            r matches Some(id) ==> id < self@.len() && self@[id as int] == path@ && id
                == tuid_in(self@, path@),
    {
        let mut i: usize = 0;
        while i < self.id_files.len()
            invariant
                i <= self.id_files.len(),
                self.wf(),
                self@.len() == self.id_files.len(),
                forall|k: int| 0 <= k < i ==> self@[k] != path@,
            decreases self.id_files.len() - i,
        {
            if self.id_files[i] == *path {
                proof {
                    lemma_tuid_in(self@, i as int);
                }
                return Some(i);
            }
            i += 1;
        }
        None
    }

    /// The identity of `path`, handing out the next one when `path` is new.
    pub fn resolve_file_name(&mut self, path: &String) -> (id: TUId)
        requires
            old(self).wf(),
        ensures
            final(self).wf(),
            final(self)@ == with_path(old(self)@, path@),
            id == tuid_in(final(self)@, path@),
            id < final(self)@.len(),
            final(self)@[id as int] == path@,
    {
        proof {
            lemma_with_path(self@, path@);
        }
        match self.get_tuid(path) {
            Some(id) => id,
            None => {
                let id = self.id_files.len();
                self.id_files.push(path.clone());
                assert(self@ =~= old(self)@.push(path@));
                id
            },
        }
    }
}

/// Identity stability: resolving a path again yields the identity it got the
/// first time and leaves the table as it was; two paths get the same identity
/// exactly when they are equal.
pub proof fn lemma_identity_stability(paths: Seq<Seq<char>>, p: Seq<char>, q: Seq<char>)
    requires
        distinct_paths(paths),
    ensures
        ({
            let m1 = with_path(paths, p);
            let m2 = with_path(m1, q);
            &&& with_path(m2, p) == m2
            &&& tuid_in(m2, p) == tuid_in(m1, p)
            &&& (tuid_in(m2, p) == tuid_in(m2, q) <==> p == q)
        }),
{
    let m1 = with_path(paths, p);
    let m2 = with_path(m1, q);
    lemma_with_path(paths, p);
    lemma_with_path(m1, q);
    let a = tuid_in(m1, p);
    assert(m2[a] == p);
    lemma_tuid_in(m2, a);
    assert(m2.contains(p));
}

} // verus!
