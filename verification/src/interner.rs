use vstd::prelude::*;
use vstd::hash_map::StringHashMap;

verus! {

/// A compact handle for an interned node name.
#[derive(Clone, Copy, PartialEq, Eq, Structural, Hash, Debug)]
pub struct NodeId(pub u32);

/// Interns node name strings to compact [`NodeId`] handles.
///
/// Its abstract state is the sequence of interned names: the name at index
/// `i` is the one whose handle is `NodeId(i)`.
pub struct NodeInterner {
    forward: StringHashMap<u32>,
    reverse: Vec<String>,
}

impl View for NodeInterner {
    type V = Seq<Seq<char>>;

    closed spec fn view(&self) -> Seq<Seq<char>> {
        self.reverse@.map_values(|s: String| s@)
    }
}

/// The names after interning `name`: unchanged if it is already present,
/// otherwise extended by it.
pub open spec fn interned_names(names: Seq<Seq<char>>, name: Seq<char>) -> Seq<Seq<char>> {
    if names.contains(name) {
        names
    } else {
        names.push(name)
    }
}

impl NodeInterner {
    /// The interner's invariant: the forward map is exactly the inverse of the
    /// name sequence, names are distinct and every handle fits in a `u32`.
    pub closed spec fn wf(&self) -> bool {
        &&& self@.len() <= u32::MAX as nat + 1
        &&& self@.no_duplicates()
        &&& forall|s: Seq<char>| #[trigger] self.forward@.contains_key(s) <==> self@.contains(s)
        &&& forall|s: Seq<char>|
            #[trigger] self.forward@.contains_key(s) ==> {
                &&& (self.forward@[s] as int) < self@.len()
                &&& self@[self.forward@[s] as int] == s
            }
    }

    /// A well-formed interner holds each name once.
    pub proof fn lemma_distinct_names(&self)
        requires
            self.wf(),
        ensures
            self@.no_duplicates(),
            self@.len() <= u32::MAX as nat + 1,
    {
    }

    /// Whether `id` was handed out by this interner.
    pub open spec fn has_id(&self, id: NodeId) -> bool {
        (id.0 as int) < self@.len()
    }

    /// Creates an interner that holds no names.
    pub fn new() -> (result: Self)
        ensures
            result.wf(),
            result@ == Seq::<Seq<char>>::empty(),
    {
        let result = NodeInterner { forward: StringHashMap::new(), reverse: Vec::new() };
        assert(result@ =~= Seq::<Seq<char>>::empty());
        result
    }

    /// The number of interned names.
    pub fn len(&self) -> (n: usize)
        ensures
            n == self@.len(),
    {
        self.reverse.len()
    }

    /// Returns the [`NodeId`] for `name`, interning it if not already present.
    pub fn intern(&mut self, name: &str) -> (id: NodeId)
        requires
            old(self).wf(),
            old(self)@.len() <= u32::MAX,
        ensures
            final(self).wf(),
            final(self)@ == interned_names(old(self)@, name@),
            (id.0 as int) < final(self)@.len(),
            final(self)@[id.0 as int] == name@,
    {
        match self.forward.get(name) {
            Some(found) => {
                let id = *found;
                return NodeId(id);
            },
            None => {},
        }
        let ghost old_names = self@;
        let id = self.reverse.len() as u32;
        let owned: String = name.to_owned();
        let copy: String = owned.clone();
        self.forward.insert(owned, id);
        self.reverse.push(copy);
        proof {
            assert(self@ =~= old_names.push(name@));
            assert(!old_names.contains(name@));
            assert forall|s: Seq<char>| #[trigger]
                self.forward@.contains_key(s) <==> self@.contains(s) by {
                if s == name@ {
                    assert(self@[old_names.len() as int] == s);
                } else {
                    if self@.contains(s) {
                        let k = choose|k: int| 0 <= k < self@.len() && self@[k] == s;
                        assert(k < old_names.len());
                        assert(old_names[k] == s);
                        assert(old_names.contains(s));
                    }
                    if self.forward@.contains_key(s) {
                        assert(old_names.contains(s));
                        let k = choose|k: int| 0 <= k < old_names.len() && old_names[k] == s;
                        assert(self@[k] == s);
                    }
                }
            }
            assert forall|i: int, j: int|
                0 <= i < self@.len() && 0 <= j < self@.len() && i != j implies self@[i]
                != self@[j] by {
                if i < old_names.len() && j < old_names.len() {
                    assert(self@[i] == old_names[i]);
                    assert(self@[j] == old_names[j]);
                } else if i == old_names.len() {
                    assert(self@[j] == old_names[j]);
                    assert(self@[i] == name@);
                } else {
                    assert(self@[i] == old_names[i]);
                    assert(self@[j] == name@);
                }
            }
        }
        NodeId(id)
    }

    /// Returns the [`NodeId`] for `name` if it has been interned.
    pub fn get(&self, name: &str) -> (result: Option<NodeId>)
        requires
            self.wf(),
        ensures
            result is Some <==> self@.contains(name@),
            result matches Some(id) ==> self.has_id(id) && self@[id.0 as int] == name@,
    {
        match self.forward.get(name) {
            Some(found) => Some(NodeId(*found)),
            None => None,
        }
    }

    /// Returns the name string for a [`NodeId`].
    pub fn name(&self, id: NodeId) -> (name: &str)
        requires
            self.wf(),
            self.has_id(id),
        ensures
            name@ == self@[id.0 as int],
    {
        self.reverse[id.0 as usize].as_str()
    }
}

/// Interning a name and reading back the name of the handle gives the name
/// itself, and a second interning of the same name changes nothing and
/// returns the same handle.
pub proof fn lemma_intern_roundtrip(names: Seq<Seq<char>>, name: Seq<char>)
    requires
        names.no_duplicates(),
    ensures
        interned_names(names, name).contains(name),
        interned_names(interned_names(names, name), name) == interned_names(names, name),
        interned_names(names, name).no_duplicates(),
        interned_names(names, name).subrange(0, names.len() as int) == names,
{
    let after = interned_names(names, name);
    if !names.contains(name) {
        assert(after[names.len() as int] == name);
        assert forall|i: int, j: int|
            0 <= i < after.len() && 0 <= j < after.len() && i != j implies after[i]
            != after[j] by {
            if i == names.len() && j < names.len() {
                assert(names[j] != name);
            } else if j == names.len() && i < names.len() {
                assert(names[i] != name);
            }
        }
    }
    assert(after.subrange(0, names.len() as int) =~= names);
}

/// Two names map to the same handle only if they are equal: distinct names
/// in a well-formed interner have distinct handles.
pub proof fn lemma_handles_distinct(interner: &NodeInterner, a: NodeId, b: NodeId)
    requires
        interner.wf(),
        interner.has_id(a),
        interner.has_id(b),
        interner@[a.0 as int] == interner@[b.0 as int],
    ensures
        a == b,
{
}

} // verus!
