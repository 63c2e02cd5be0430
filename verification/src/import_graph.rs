use std::collections::{HashMap, HashSet};

use vstd::prelude::*;

verus! {

broadcast use vstd::std_specs::hash::group_hash_axioms;

/// The raw number of a source file (the value of Typst's `FileId::into_raw`).
pub type FileKey = u16;

/// Lists the members of a set, each once.
pub fn set_members(s: &HashSet<FileKey>) -> (out: Vec<FileKey>)
    ensures
        forall|y: FileKey| s@.contains(y) <==> out@.contains(y),
        out@.no_duplicates(),
{
    let mut out: Vec<FileKey> = Vec::new();
    for x in it: s.iter()
        invariant
            it.seq().unref().to_set() == s@,
            it.seq().map_values(|r: &FileKey| *r).no_duplicates(),
            out@ == it.seq().take(it.index()).map_values(|r: &FileKey| *r),
            forall|y: FileKey| out@.contains(y) ==> s@.contains(y),
            forall|y: FileKey|
                s@.contains(y) ==> (out@.contains(y) || exists|k: int|
                    it.index() <= k < it.seq().len() && *it.seq()[k] == y),
    {
        let ghost before = out@;
        out.push(*x);
        proof {
            assert(out@[out@.len() - 1] == *x);
            assert forall|y: FileKey| s@.contains(y) implies (out@.contains(y) || exists|k: int|
                it.index() + 1 <= k < it.seq().len() && *it.seq()[k] == y) by {
                if before.contains(y) {
                    let w = choose|w: int| 0 <= w < before.len() && before[w] == y;
                    assert(out@[w] == y);
                } else {
                    let k = choose|k: int| it.index() <= k < it.seq().len() && *it.seq()[k] == y;
                    if k == it.index() {
                        assert(out@.contains(y));
                    }
                }
            }
            assert forall|y: FileKey| out@.contains(y) implies s@.contains(y) by {
                if y != *x {
                    let w = choose|w: int| 0 <= w < out@.len() && out@[w] == y;
                    assert(before[w] == y);
                } else {
                    assert(it.seq().unref().contains(*x)) by {
                        assert(it.seq().unref()[it.index()] == *x);
                    }
                }
            }
            assert(it.seq().take(it.index() + 1).map_values(|r: &FileKey| *r) =~= it.seq().take(
                it.index(),
            ).map_values(|r: &FileKey| *r).push(*x));
        }
    }
    out
}

/// Any set of file numbers is finite and has at most 65536 members.
proof fn lemma_file_set_bounded(s: Set<FileKey>)
    ensures
        s.finite(),
        s.len() <= 65536,
{
    let r = vstd::set_lib::set_int_range(0, 65536);
    vstd::set_lib::lemma_int_range(0, 65536);
    let g = |x: int| x as FileKey;
    let y = r.map(g);
    vstd::set_lib::lemma_map_size_bound(r, y, g);
    assert forall|x: FileKey| s.contains(x) implies y.contains(x) by {
        assert(r.contains(x as int));
        assert(g(x as int) == x);
    }
    vstd::set_lib::lemma_len_subset(s, y);
}

/// Tracks import relationships between files for incremental recompilation.
///
/// Maintains forward edges (mapping a file to its imports) and reverse edges
/// (mapping a file to the files that import it) so that when a file changes,
/// all transitively dependent files can be found efficiently.
pub struct ImportGraph {
    /// Maps each file to the set of files it imports.
    forward: HashMap<FileKey, HashSet<FileKey>>,
    /// Maps each file to the set of files that import it.
    reverse: HashMap<FileKey, HashSet<FileKey>>,
}

impl ImportGraph {
    /// Whether the graph records the imports of `a`.
    pub closed spec fn tracks(&self, a: FileKey) -> bool {
        self.forward@.contains_key(a)
    }

    /// Whether `a` imports `b`.
    pub closed spec fn imports(&self, a: FileKey, b: FileKey) -> bool {
        self.forward@.contains_key(a) && self.forward@[a]@.contains(b)
    }

    spec fn imported_by(&self, b: FileKey, a: FileKey) -> bool {
        self.reverse@.contains_key(b) && self.reverse@[b]@.contains(a)
    }

    /// The forward and reverse maps describe the same edges.
    pub closed spec fn wf(&self) -> bool {
        forall|a: FileKey, b: FileKey|
            #![trigger self.imports(a, b)]
            #![trigger self.imported_by(b, a)]
            self.imports(a, b) <==> self.imported_by(b, a)
    }

    /// Creates a graph without files.
    pub fn new() -> (g: Self)
        ensures
            g.wf(),
            forall|a: FileKey| !g.tracks(a),
            forall|a: FileKey, b: FileKey| !g.imports(a, b),
    {
        ImportGraph { forward: HashMap::new(), reverse: HashMap::new() }
    }

    /// Removes `id` from the importers recorded for `dependency`.
    fn unlink(&mut self, dependency: FileKey, id: FileKey)
        ensures
            final(self).forward@ == old(self).forward@,
            forall|b: FileKey, a: FileKey|
                final(self).imported_by(b, a) <==> (old(self).imported_by(b, a) && !(b == dependency
                    && a == id)),
    {
        match self.reverse.remove(&dependency) {
            Some(importers) => {
                let mut importers = importers;
                importers.remove(&id);
                self.reverse.insert(dependency, importers);
            },
            None => {},
        }
    }

    /// Adds `id` to the importers recorded for `dependency`.
    fn link(&mut self, dependency: FileKey, id: FileKey)
        ensures
            final(self).forward@ == old(self).forward@,
            forall|b: FileKey, a: FileKey|
                final(self).imported_by(b, a) <==> (old(self).imported_by(b, a) || (b == dependency
                    && a == id)),
    {
        let mut importers = match self.reverse.remove(&dependency) {
            Some(importers) => importers,
            None => HashSet::new(),
        };
        importers.insert(id);
        self.reverse.insert(dependency, importers);
    }

    /// Updates the import edges for `id` given its new set of dependencies.
    ///
    /// Stale edges from a previous compilation are removed and new edges are
    /// added. Both the forward and reverse maps are kept consistent.
    pub fn update(&mut self, id: FileKey, new_dependencies: HashSet<FileKey>)
        requires
            old(self).wf(),
        ensures
            final(self).wf(),
            forall|a: FileKey| final(self).tracks(a) <==> (old(self).tracks(a) || a == id),
            forall|a: FileKey, b: FileKey|
                final(self).imports(a, b) <==> (if a == id {
                    new_dependencies@.contains(b)
                } else {
                    old(self).imports(a, b)
                }),
    {
        let ghost initial = *old(self);
        let old_dependencies = match self.forward.remove(&id) {
            Some(dependencies) => dependencies,
            None => HashSet::new(),
        };
        proof {
            assert forall|b: FileKey| old_dependencies@.contains(b) <==> initial.imports(id, b) by {}
        }
        let stale = set_members(&old_dependencies);
        let ghost after_forward = *self;
        let mut k: usize = 0;
        while k < stale.len()
            invariant
                k <= stale@.len(),
                self.forward@ == after_forward.forward@,
                forall|b: FileKey| stale@.contains(b) <==> old_dependencies@.contains(b),
                forall|b: FileKey, a: FileKey|
                    self.imported_by(b, a) <==> (initial.imported_by(b, a) && !(a == id
                        && stale@.take(k as int).contains(b) && !new_dependencies@.contains(b))),
            decreases stale@.len() - k,
        {
            let dependency = stale[k];
            let ghost before = *self;
            if !new_dependencies.contains(&dependency) {
                self.unlink(dependency, id);
            }
            proof {
                assert(stale@.take(k + 1) =~= stale@.take(k as int).push(dependency));
                assert forall|b: FileKey|
                    stale@.take(k + 1).contains(b) <==> (stale@.take(k as int).contains(b) || b
                        == dependency) by {
                    if b == dependency {
                        assert(stale@.take(k + 1)[k as int] == b);
                    }
                    if stale@.take(k as int).contains(b) {
                        let w = choose|w: int| 0 <= w < k && stale@.take(k as int)[w] == b;
                        assert(stale@.take(k + 1)[w] == b);
                    }
                }
                assert forall|b: FileKey, a: FileKey|
                    #![trigger self.imported_by(b, a)]
                    self.imported_by(b, a) <==> (initial.imported_by(b, a) && !(a == id
                        && stale@.take(k + 1).contains(b) && !new_dependencies@.contains(b))) by {
                    assert(before.imported_by(b, a) <==> (initial.imported_by(b, a) && !(a == id
                        && stale@.take(k as int).contains(b) && !new_dependencies@.contains(b))));
                    assert(stale@.take(k + 1).contains(b) <==> (stale@.take(k as int).contains(b) || b
                        == dependency));
                }
            }
            k = k + 1;
        }
        proof {
            assert(stale@.take(stale@.len() as int) =~= stale@);
        }
        let ghost after_unlink = *self;
        let fresh = set_members(&new_dependencies);
        let mut k: usize = 0;
        while k < fresh.len()
            invariant
                k <= fresh@.len(),
                self.forward@ == after_forward.forward@,
                forall|b: FileKey| fresh@.contains(b) <==> new_dependencies@.contains(b),
                forall|b: FileKey, a: FileKey|
                    self.imported_by(b, a) <==> (after_unlink.imported_by(b, a) || (a == id
                        && fresh@.take(k as int).contains(b) && !old_dependencies@.contains(b))),
            decreases fresh@.len() - k,
        {
            let dependency = fresh[k];
            let ghost before = *self;
            if !old_dependencies.contains(&dependency) {
                self.link(dependency, id);
            }
            proof {
                assert(fresh@.take(k + 1) =~= fresh@.take(k as int).push(dependency));
                assert forall|b: FileKey|
                    fresh@.take(k + 1).contains(b) <==> (fresh@.take(k as int).contains(b) || b
                        == dependency) by {
                    if b == dependency {
                        assert(fresh@.take(k + 1)[k as int] == b);
                    }
                    if fresh@.take(k as int).contains(b) {
                        let w = choose|w: int| 0 <= w < k && fresh@.take(k as int)[w] == b;
                        assert(fresh@.take(k + 1)[w] == b);
                    }
                }
                assert forall|b: FileKey, a: FileKey|
                    #![trigger self.imported_by(b, a)]
                    self.imported_by(b, a) <==> (after_unlink.imported_by(b, a) || (a == id
                        && fresh@.take(k + 1).contains(b) && !old_dependencies@.contains(b))) by {
                    assert(before.imported_by(b, a) <==> (after_unlink.imported_by(b, a) || (a == id
                        && fresh@.take(k as int).contains(b) && !old_dependencies@.contains(b))));
                    assert(fresh@.take(k + 1).contains(b) <==> (fresh@.take(k as int).contains(b) || b
                        == dependency));
                }
            }
            k = k + 1;
        }
        proof {
            assert(fresh@.take(fresh@.len() as int) =~= fresh@);
        }
        self.forward.insert(id, new_dependencies);
        proof {
            assert forall|a: FileKey, b: FileKey|
                #![trigger self.imports(a, b)]
                #![trigger self.imported_by(b, a)]
                self.imports(a, b) <==> self.imported_by(b, a) by {
                if a == id {
                    assert(initial.imported_by(b, a) <==> initial.imports(a, b));
                } else {
                    assert(after_forward.forward@.contains_key(a) == initial.forward@.contains_key(a));
                    assert(initial.imported_by(b, a) <==> initial.imports(a, b));
                    if initial.forward@.contains_key(a) {
                        assert(after_forward.forward@[a] == initial.forward@[a]);
                    }
                }
            }
            assert forall|a: FileKey, b: FileKey|
                self.imports(a, b) <==> (if a == id {
                    new_dependencies@.contains(b)
                } else {
                    initial.imports(a, b)
                }) by {
                if a != id && initial.forward@.contains_key(a) {
                    assert(after_forward.forward@[a] == initial.forward@[a]);
                }
            }
        }
    }

    /// Removes all graph edges involving `id`.
    ///
    /// Use this when a source file is deleted.
    pub fn remove(&mut self, id: FileKey)
        requires
            old(self).wf(),
        ensures
            final(self).wf(),
            forall|a: FileKey| final(self).tracks(a) <==> (old(self).tracks(a) && a != id),
            forall|a: FileKey, b: FileKey|
                final(self).imports(a, b) <==> (old(self).imports(a, b) && a != id && b != id),
    {
        let ghost initial = *old(self);
        match self.forward.remove(&id) {
            Some(dependencies) => {
                let members = set_members(&dependencies);
                let mut k: usize = 0;
                while k < members.len()
                    invariant
                        k <= members@.len(),
                        self.forward@ == initial.forward@.remove(id),
                        forall|b: FileKey| members@.contains(b) <==> initial.imports(id, b),
                        forall|b: FileKey, a: FileKey|
                            self.imported_by(b, a) <==> (initial.imported_by(b, a) && !(a == id
                                && members@.take(k as int).contains(b))),
                    decreases members@.len() - k,
                {
                    let dependency = members[k];
                    let ghost before = *self;
                    self.unlink(dependency, id);
                    proof {
                        assert(members@.take(k + 1) =~= members@.take(k as int).push(dependency));
                        assert forall|b: FileKey|
                            members@.take(k + 1).contains(b) <==> (members@.take(k as int).contains(
                                b,
                            ) || b == dependency) by {
                            if b == dependency {
                                assert(members@.take(k + 1)[k as int] == b);
                            }
                            if members@.take(k as int).contains(b) {
                                let w = choose|w: int|
                                    0 <= w < k && members@.take(k as int)[w] == b;
                                assert(members@.take(k + 1)[w] == b);
                            }
                        }
                        assert forall|b: FileKey, a: FileKey|
                            #![trigger self.imported_by(b, a)]
                            self.imported_by(b, a) <==> (initial.imported_by(b, a) && !(a == id
                                && members@.take(k + 1).contains(b))) by {
                            assert(before.imported_by(b, a) <==> (initial.imported_by(b, a) && !(a == id
                                && members@.take(k as int).contains(b))));
                            assert(members@.take(k + 1).contains(b) <==> (members@.take(k as int).contains(
                                b,
                            ) || b == dependency));
                        }
                    }
                    k = k + 1;
                }
                proof {
                    assert(members@.take(members@.len() as int) =~= members@);
                }
            },
            None => {},
        }
        proof {
            assert forall|b: FileKey, a: FileKey|
                self.imported_by(b, a) <==> (initial.imported_by(b, a) && a != id) by {
                if a == id {
                    assert(initial.imported_by(b, a) <==> initial.imports(a, b));
                }
            }
            assert(self.forward@ == initial.forward@.remove(id));
            assert forall|a: FileKey, b: FileKey|
                self.imports(a, b) <==> (initial.imports(a, b) && a != id) by {
                if a != id && initial.forward@.contains_key(a) {
                    assert(self.forward@[a] == initial.forward@[a]);
                }
            }
        }
        let ghost after_dependencies = *self;
        match self.reverse.remove(&id) {
            Some(importers) => {
                let members = set_members(&importers);
                let mut k: usize = 0;
                while k < members.len()
                    invariant
                        k <= members@.len(),
                        self.reverse@ == after_dependencies.reverse@.remove(id),
                        forall|a: FileKey| members@.contains(a) <==> after_dependencies.imported_by(id, a),
                        forall|a: FileKey| self.forward@.contains_key(a) <==> after_dependencies.forward@.contains_key(a),
                        forall|a: FileKey, b: FileKey|
                            self.imports(a, b) <==> (after_dependencies.imports(a, b) && !(b == id
                                && members@.take(k as int).contains(a))),
                    decreases members@.len() - k,
                {
                    let importer = members[k];
                    let ghost before = *self;
                    match self.forward.remove(&importer) {
                        Some(dependencies) => {
                            let mut dependencies = dependencies;
                            let ghost d0 = dependencies@;
                            dependencies.remove(&id);
                            proof {
                                assert(d0 == before.forward@[importer]@);
                                assert(dependencies@ == d0.remove(id));
                            }
                            self.forward.insert(importer, dependencies);
                            proof {
                                assert(self.forward@[importer]@ == before.forward@[importer]@.remove(id));
                                assert(self.forward@ == before.forward@.insert(importer, self.forward@[importer]));
                            }
                        },
                        None => {
                            proof {
                                assert(!before.forward@.contains_key(importer));
                            }
                        },
                    }
                    proof {
                        assert(members@.take(k + 1) =~= members@.take(k as int).push(importer));
                        assert forall|a: FileKey|
                            members@.take(k + 1).contains(a) <==> (members@.take(k as int).contains(
                                a,
                            ) || a == importer) by {
                            if a == importer {
                                assert(members@.take(k + 1)[k as int] == a);
                            }
                            if members@.take(k as int).contains(a) {
                                let w = choose|w: int|
                                    0 <= w < k && members@.take(k as int)[w] == a;
                                assert(members@.take(k + 1)[w] == a);
                            }
                        }
                        assert forall|a: FileKey, b: FileKey|
                            #![trigger self.imports(a, b)]
                            self.imports(a, b) <==> (after_dependencies.imports(a, b) && !(b == id
                                && members@.take(k + 1).contains(a))) by {
                            assert(before.imports(a, b) <==> (after_dependencies.imports(a, b) && !(b == id
                                && members@.take(k as int).contains(a))));
                            assert(members@.take(k + 1).contains(a) <==> (members@.take(k as int).contains(
                                a,
                            ) || a == importer));
                            if a != importer && before.forward@.contains_key(a) {
                                assert(self.forward@[a] == before.forward@[a]);
                            }
                        }
                    }
                    k = k + 1;
                }
                proof {
                    assert(members@.take(members@.len() as int) =~= members@);
                }
            },
            None => {
                proof {
                    assert forall|a: FileKey| !after_dependencies.imported_by(id, a) by {}
                }
            },
        }
        proof {
            assert forall|a: FileKey| self.forward@.contains_key(a) <==> after_dependencies.forward@.contains_key(a) by {}
            assert forall|a: FileKey| #[trigger] self.tracks(a) <==> (initial.tracks(a) && a != id) by {
                assert(self.forward@.contains_key(a) <==> after_dependencies.forward@.contains_key(a));
            }
            assert forall|a: FileKey, b: FileKey|
                #![trigger self.imports(a, b)]
                self.imports(a, b) <==> (initial.imports(a, b) && a != id && b != id) by {
                assert(initial.imported_by(b, a) <==> initial.imports(a, b));
                assert(after_dependencies.imports(a, b) <==> (initial.imports(a, b) && a != id));
                assert(after_dependencies.imported_by(id, a) <==> (initial.imported_by(id, a) && a != id));
                assert(initial.imported_by(id, a) <==> initial.imports(a, id));
            }
            assert forall|a: FileKey, b: FileKey|
                #![trigger self.imports(a, b)]
                #![trigger self.imported_by(b, a)]
                self.imports(a, b) <==> self.imported_by(b, a) by {
                assert(initial.imported_by(b, a) <==> initial.imports(a, b));
            }
        }
    }
}

impl ImportGraph {
    /// `chain` is a sequence of files, each importing the next.
    pub open spec fn is_chain(&self, chain: Seq<FileKey>) -> bool {
        &&& chain.len() >= 1
        &&& forall|k: int| 0 <= k < chain.len() - 1 ==> self.imports(#[trigger] chain[k], chain[k + 1])
    }

    /// `a` depends on `b`: it imports `b` directly or through other files.
    pub open spec fn depends_on(&self, a: FileKey, b: FileKey) -> bool {
        exists|chain: Seq<FileKey>|
            #![trigger self.is_chain(chain), chain.last()]
            self.is_chain(chain) && chain.len() >= 2 && chain[0] == a && chain.last() == b
    }

    proof fn lemma_closed_contains_chain(&self, visited: Set<FileKey>, chain: Seq<FileKey>)
        requires
            self.wf(),
            self.is_chain(chain),
            visited.contains(chain.last()),
            forall|x: FileKey, a: FileKey| visited.contains(x) && #[trigger] self.imported_by(x, a) ==> visited.contains(a),
        ensures
            visited.contains(chain[0]),
        decreases chain.len(),
    {
        if chain.len() > 1 {
            let rest = chain.drop_first();
            assert forall|k: int| 0 <= k < rest.len() - 1 implies self.imports(#[trigger] rest[k], rest[k + 1]) by {
                assert(rest[k] == chain[k + 1]);
                assert(rest[k + 1] == chain[k + 2]);
            }
            assert(rest.last() == chain.last());
            self.lemma_closed_contains_chain(visited, rest);
            assert(self.imports(chain[0], chain[1]));
            assert(self.imported_by(chain[1], chain[0]));
        }
    }

    /// Returns all files that transitively depend on `id`: the direct and
    /// indirect importers of `id`, but not `id` itself.
    pub fn dependents(&self, id: FileKey) -> (result: HashSet<FileKey>)
        requires
            self.wf(),
        ensures
            forall|x: FileKey| result@.contains(x) <==> (x != id && self.depends_on(x, id)),
    {
        let mut visited: HashSet<FileKey> = HashSet::new();
        visited.insert(id);
        let mut stack: Vec<FileKey> = Vec::new();
        stack.push(id);
        let ghost mut witness: Map<FileKey, Seq<FileKey>> = Map::empty().insert(id, seq![id]);
        proof {
            assert(stack@[0] == id);
            assert(self.is_chain(witness[id]));
        }
        while stack.len() > 0
            invariant
                self.wf(),
                visited@.contains(id),
                stack@.no_duplicates(),
                forall|k: int| 0 <= k < stack@.len() ==> visited@.contains(#[trigger] stack@[k]),
                forall|x: FileKey|
                    #[trigger] visited@.contains(x) ==> {
                        &&& witness.contains_key(x)
                        &&& self.is_chain(witness[x])
                        &&& witness[x][0] == x
                        &&& witness[x].last() == id
                    },
                forall|x: FileKey, a: FileKey|
                    visited@.contains(x) && !stack@.contains(x) && #[trigger] self.imported_by(x, a)
                        ==> visited@.contains(a),
            decreases 65536 - visited@.len(), stack@.len(),
        {
            proof {
                lemma_file_set_bounded(visited@);
            }
            let ghost before_pop = stack@;
            let cur = stack.pop().unwrap();
            proof {
                assert(before_pop == stack@.push(cur));
                assert(!stack@.contains(cur)) by {
                    if stack@.contains(cur) {
                        let w = choose|w: int| 0 <= w < stack@.len() && stack@[w] == cur;
                        assert(before_pop[w] == cur);
                    }
                }
                assert(visited@.contains(cur)) by {
                    assert(before_pop[before_pop.len() - 1] == cur);
                }
                assert forall|x: FileKey, a: FileKey|
                    visited@.contains(x) && !stack@.contains(x) && x != cur && #[trigger] self.imported_by(x, a)
                        implies visited@.contains(a) by {
                    if before_pop.contains(x) {
                        let w = choose|w: int| 0 <= w < before_pop.len() && before_pop[w] == x;
                        if w < stack@.len() {
                            assert(stack@[w] == x);
                        }
                    }
                }
            }
            let ghost visited_before = visited@;
            let ghost stack_before = stack@;
            match self.reverse.get(&cur) {
                Some(importers) => {
                    let members = set_members(importers);
                    let mut k: usize = 0;
                    while k < members.len()
                        invariant
                            self.wf(),
                            self.reverse@.contains_key(cur),
                            forall|a: FileKey| members@.contains(a) <==> self.reverse@[cur]@.contains(a),
                            k <= members@.len(),
                            visited@.contains(id),
                            visited@.contains(cur),
                            visited_before.subset_of(visited@),
                            stack@.no_duplicates(),
                            !stack@.contains(cur),
                            forall|q: int| 0 <= q < stack@.len() ==> visited@.contains(#[trigger] stack@[q]),
                            forall|x: FileKey|
                                #[trigger] visited@.contains(x) ==> {
                                    &&& witness.contains_key(x)
                                    &&& self.is_chain(witness[x])
                                    &&& witness[x][0] == x
                                    &&& witness[x].last() == id
                                },
                            forall|x: FileKey, a: FileKey|
                                visited@.contains(x) && !stack@.contains(x) && x != cur && #[trigger] self.imported_by(x, a)
                                    ==> visited@.contains(a),
                            forall|q: int| 0 <= q < k ==> visited@.contains(#[trigger] members@[q]),
                            visited@ == visited_before ==> stack@ == stack_before,
                            visited@ != visited_before ==> visited@.len() > visited_before.len(),
                        decreases members@.len() - k,
                    {
                        let importer = members[k];
                        if !visited.contains(&importer) {
                            let ghost old_visited = visited@;
                            let ghost old_stack = stack@;
                            proof {
                                lemma_file_set_bounded(visited@);
                                lemma_file_set_bounded(visited_before);
                                assert(members@.contains(importer)) by {
                                    assert(members@[k as int] == importer);
                                }
                                assert(self.imported_by(cur, importer));
                                assert(self.imports(importer, cur));
                                let wc = witness[cur];
                                let wi = seq![importer] + wc;
                                assert(wi[0] == importer);
                                assert(wi[wi.len() - 1] == wc[wc.len() - 1]);
                                assert forall|q: int| 0 <= q < wi.len() - 1 implies self.imports(#[trigger] wi[q], wi[q + 1]) by {
                                    if q > 0 {
                                        assert(wi[q] == wc[q - 1]);
                                        assert(wi[q + 1] == wc[q]);
                                    } else {
                                        assert(wi[1] == wc[0]);
                                    }
                                }
                                witness = witness.insert(importer, wi);
                                if visited@ == visited_before {
                                    vstd::set_lib::lemma_len_subset(visited_before, visited_before);
                                }
                            }
                            visited.insert(importer);
                            stack.push(importer);
                            proof {
                                assert(stack@ == old_stack.push(importer));
                                assert(visited@ == old_visited.insert(importer));
                                assert(visited@.len() == old_visited.len() + 1);
                                assert(visited@ != visited_before) by {
                                    assert(!visited_before.contains(importer));
                                }
                                assert forall|a: int, b: int| 0 <= a < b < stack@.len() implies stack@[a] != stack@[b] by {
                                    if b == stack@.len() - 1 {
                                        assert(old_stack[a] == stack@[a]);
                                        assert(old_visited.contains(old_stack[a]));
                                    } else {
                                        assert(old_stack[a] == stack@[a] && old_stack[b] == stack@[b]);
                                    }
                                }
                                assert(!stack@.contains(cur)) by {
                                    if stack@.contains(cur) {
                                        let w = choose|w: int| 0 <= w < stack@.len() && stack@[w] == cur;
                                        if w < old_stack.len() {
                                            assert(old_stack[w] == cur);
                                        }
                                    }
                                }
                                assert forall|q: int| 0 <= q < stack@.len() implies visited@.contains(#[trigger] stack@[q]) by {
                                    if q < old_stack.len() {
                                        assert(old_stack[q] == stack@[q]);
                                    }
                                }
                                assert forall|x: FileKey, a: FileKey|
                                    visited@.contains(x) && !stack@.contains(x) && x != cur && #[trigger] self.imported_by(x, a)
                                        implies visited@.contains(a) by {
                                    if x != importer {
                                        if old_stack.contains(x) {
                                            let w = choose|w: int| 0 <= w < old_stack.len() && old_stack[w] == x;
                                            assert(stack@[w] == x);
                                        }
                                    } else {
                                        assert(stack@[stack@.len() - 1] == importer);
                                    }
                                }
                                assert forall|x: FileKey| #[trigger] visited@.contains(x) implies {
                                    &&& witness.contains_key(x)
                                    &&& self.is_chain(witness[x])
                                    &&& witness[x][0] == x
                                    &&& witness[x].last() == id
                                } by {
                                    if x != importer {
                                        assert(old_visited.contains(x));
                                    }
                                }
                            }
                        }
                        k = k + 1;
                    }
                    proof {
                        assert forall|x: FileKey, a: FileKey|
                            visited@.contains(x) && !stack@.contains(x) && #[trigger] self.imported_by(x, a)
                                implies visited@.contains(a) by {
                            if x == cur {
                                assert(members@.contains(a));
                                let w = choose|w: int| 0 <= w < members@.len() && members@[w] == a;
                                assert(visited@.contains(members@[w]));
                            }
                        }
                        if visited@ != visited_before {
                            assert(visited@.len() > visited_before.len());
                        }
                    }
                },
                None => {},
            }
            proof {
                lemma_file_set_bounded(visited@);
                assert(stack_before.len() < before_pop.len());
            }
        }
        let mut result = visited;
        result.remove(&id);
        proof {
            assert forall|x: FileKey| result@.contains(x) <==> (x != id && self.depends_on(x, id)) by {
                if result@.contains(x) {
                    assert(visited@.contains(x));
                    let w = witness[x];
                    assert(w.len() >= 2) by {
                        if w.len() == 1 {
                            assert(w[0] == w.last());
                        }
                    }
                    assert(self.is_chain(w) && w.len() >= 2 && w[0] == x && w.last() == id);
                }
                if x != id && self.depends_on(x, id) {
                    let chain = choose|chain: Seq<FileKey>|
                        #![trigger self.is_chain(chain), chain.last()]
                        self.is_chain(chain) && chain.len() >= 2 && chain[0] == x && chain.last() == id;
                    self.lemma_closed_contains_chain(visited@, chain);
                }
            }
        }
        result
    }
}

} // verus!
